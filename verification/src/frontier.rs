//! The nodes that wait to be expanded, and the choice of the cheapest.
//!
//! The frontier holds node indices in a binary heap. The node taken out is
//! the one of least cost and, among nodes of that cost, the one that was
//! made first, so that a search gives the same answer every time.

use vstd::prelude::*;
use crate::node::Node;
use crate::search::ids_ok;

verus! {

/// The node `a` is taken no later than the node `b`: it is cheaper, or as
/// cheap and not made later.
pub open spec fn before(nodes: Seq<Node>, a: usize, b: usize) -> bool {
    nodes[a as int].cost < nodes[b as int].cost || (nodes[a as int].cost == nodes[b as int].cost
        && a <= b)
}

/// The entry at index `i` of the heap is taken no earlier than its parent.
pub open spec fn edge_ok(nodes: Seq<Node>, heap: Seq<usize>, i: int) -> bool {
    before(nodes, heap[(i - 1) / 2], heap[i])
}

/// Every entry of the heap is taken no earlier than its parent.
pub open spec fn heap_ordered(nodes: Seq<Node>, heap: Seq<usize>) -> bool {
    forall|i: int| 0 < i < heap.len() ==> #[trigger] edge_ok(nodes, heap, i)
}

/// No index occurs twice.
pub open spec fn distinct(ids: Seq<usize>) -> bool {
    forall|i: int, j: int| 0 <= i < j < ids.len() ==> ids[i] != ids[j]
}

/// Executable form of [`before`].
fn comes_before(nodes: &Vec<Node>, a: usize, b: usize) -> (r: bool)
    requires
        a < nodes@.len(),
        b < nodes@.len(),
    ensures
        r == before(nodes@, a, b),
{
    nodes[a].cost < nodes[b].cost || (nodes[a].cost == nodes[b].cost && a <= b)
}

/// The first entry of an ordered heap is taken no later than any other.
proof fn lemma_top_first(nodes: Seq<Node>, heap: Seq<usize>, j: int)
    requires
        heap_ordered(nodes, heap),
        0 <= j < heap.len(),
    ensures
        before(nodes, heap[0], heap[j]),
    decreases j,
{
    if j > 0 {
        assert(edge_ok(nodes, heap, j));
        lemma_top_first(nodes, heap, (j - 1) / 2);
    }
}

/// Exchanging two entries changes neither which indices a sequence holds nor
/// whether they are indices of nodes.
proof fn lemma_exchange(s: Seq<usize>, a: int, b: int)
    requires
        0 <= a < s.len(),
        0 <= b < s.len(),
    ensures
        forall|x: usize| s.update(a, s[b]).update(b, s[a]).contains(x) <==> s.contains(x),
        distinct(s) ==> distinct(s.update(a, s[b]).update(b, s[a])),
{
    let t = s.update(a, s[b]).update(b, s[a]);
    if distinct(s) {
        assert forall|i: int, j: int| 0 <= i < j < t.len() implies t[i] != t[j] by {
            let u = if i == a {
                b
            } else if i == b {
                a
            } else {
                i
            };
            let v = if j == a {
                b
            } else if j == b {
                a
            } else {
                j
            };
            assert(t[i] == s[u] && t[j] == s[v]);
            if u < v {
                assert(s[u] != s[v]);
            } else {
                assert(s[v] != s[u]);
            }
        }
    }
    assert forall|x: usize| t.contains(x) <==> s.contains(x) by {
        if s.contains(x) {
            let i = choose|i: int| 0 <= i < s.len() && s[i] == x;
            let j = if i == a {
                b
            } else if i == b {
                a
            } else {
                i
            };
            assert(t[j] == x);
        }
        if t.contains(x) {
            let i = choose|i: int| 0 <= i < t.len() && t[i] == x;
            let j = if i == a {
                b
            } else if i == b {
                a
            } else {
                i
            };
            assert(s[j] == x);
        }
    }
}

/// The node indices that wait to be expanded.
pub struct Frontier {
    heap: Vec<usize>,
}

impl View for Frontier {
    type V = Seq<usize>;

    /// The waiting node indices, in the order in which the heap keeps them.
    closed spec fn view(&self) -> Seq<usize> {
        self.heap@
    }
}

impl Frontier {
    /// The frontier holds indices of `nodes`, each once, and keeps them in
    /// heap order.
    pub open spec fn wf(&self, nodes: Seq<Node>) -> bool {
        ids_ok(nodes, self@) && heap_ordered(nodes, self@) && distinct(self@)
    }

    /// An empty frontier.
    pub fn new() -> (r: Frontier)
        ensures
            r@.len() == 0,
    {
        Frontier { heap: Vec::new() }
    }

    /// The number of waiting nodes.
    pub fn len(&self) -> (n: usize)
        ensures
            n == self@.len(),
    {
        self.heap.len()
    }

    /// The waiting node index at place `i` of the heap.
    pub fn get(&self, i: usize) -> (id: usize)
        requires
            i < self@.len(),
        ensures
            id == self@[i as int],
    {
        self.heap[i]
    }

    /// Exchanges the entries at the places `a` and `b` of the heap.
    fn exchange(&mut self, a: usize, b: usize)
        requires
            a < old(self)@.len(),
            b < old(self)@.len(),
        ensures
            final(self)@ == old(self)@.update(a as int, old(self)@[b as int]).update(
                b as int,
                old(self)@[a as int],
            ),
    {
        let x: usize = self.heap[a];
        let y: usize = self.heap[b];
        self.heap.set(a, y);
        self.heap.set(b, x);
    }

    /// Adds the node index `id`, which is not waiting yet, to the frontier.
    pub fn insert(&mut self, id: usize, nodes: &Vec<Node>)
        requires
            old(self).wf(nodes@),
            id < nodes@.len(),
            !old(self)@.contains(id),
        ensures
            final(self).wf(nodes@),
            final(self)@.len() == old(self)@.len() + 1,
            forall|x: usize| final(self)@.contains(x) <==> old(self)@.contains(x) || x == id,
    {
        self.heap.push(id);
        let mut i: usize = self.heap.len() - 1;
        proof {
            let grown = self@;
            assert(grown == old(self)@.push(id));
            assert forall|x: usize| grown.contains(x) <==> old(self)@.contains(x) || x == id by {
                if old(self)@.contains(x) {
                    let j = choose|j: int| 0 <= j < old(self)@.len() && old(self)@[j] == x;
                    assert(grown[j] == x);
                }
                if x == id {
                    assert(grown[grown.len() - 1] == x);
                }
            }
            assert forall|j: int| 0 < j < grown.len() && j != i implies #[trigger] edge_ok(
                nodes@,
                grown,
                j,
            ) by {
                assert(edge_ok(nodes@, old(self)@, j));
            }
            assert forall|a: int, b: int| 0 <= a < b < grown.len() implies grown[a] != grown[b] by {
                if b == grown.len() - 1 {
                    assert(old(self)@[a] == grown[a]);
                } else {
                    assert(old(self)@[a] != old(self)@[b]);
                }
            }
        }
        while i > 0 && !comes_before(nodes, self.heap[(i - 1) / 2], self.heap[i])
            invariant
                i < self@.len(),
                self@.len() == old(self)@.len() + 1,
                ids_ok(nodes@, self@),
                distinct(self@),
                forall|x: usize| self@.contains(x) <==> old(self)@.contains(x) || x == id,
                forall|j: int| 0 < j < self@.len() && j != i ==> #[trigger] edge_ok(nodes@, self@, j),
                forall|j: int|
                    0 < j < self@.len() && (j - 1) / 2 == i && i > 0 ==> before(
                        nodes@,
                        self@[(i - 1) / 2],
                        #[trigger] self@[j],
                    ),
            decreases i,
        {
            let p: usize = (i - 1) / 2;
            let ghost was = self@;
            proof {
                lemma_exchange(was, i as int, p as int);
            }
            self.exchange(i, p);
            proof {
                let now = self@;
                assert forall|j: int| 0 < j < now.len() && j != p implies #[trigger] edge_ok(
                    nodes@,
                    now,
                    j,
                ) by {
                    if j == i {
                    } else if (j - 1) / 2 == i {
                        assert(before(nodes@, was[(i - 1) / 2], was[j]));
                    } else if (j - 1) / 2 == p {
                        assert(edge_ok(nodes@, was, j));
                    } else {
                        assert(edge_ok(nodes@, was, j));
                    }
                }
                assert forall|j: int| 0 < j < now.len() && (j - 1) / 2 == p && p > 0 implies before(
                    nodes@,
                    now[(p - 1) / 2],
                    #[trigger] now[j],
                ) by {
                    assert(edge_ok(nodes@, was, p as int));
                    if j != i {
                        assert(edge_ok(nodes@, was, j));
                    }
                }
            }
            i = p;
        }
        proof {
            assert forall|j: int| 0 < j < self@.len() implies #[trigger] edge_ok(nodes@, self@, j) by {
                if j == i {
                }
            }
        }
    }

    /// Takes the node to expand next out of the frontier: the one of least
    /// cost and, among those, the one with the least index. Gives `None`,
    /// and changes nothing, when the frontier is empty.
    pub fn take_cheapest(&mut self, nodes: &Vec<Node>) -> (r: Option<usize>)
        requires
            old(self).wf(nodes@),
        ensures
            final(self).wf(nodes@),
            match r {
                None => old(self)@.len() == 0 && final(self)@ == old(self)@,
                Some(id) => {
                    &&& old(self)@.contains(id)
                    &&& !final(self)@.contains(id)
                    &&& forall|x: usize| old(self)@.contains(x) ==> before(nodes@, id, x)
                    &&& final(self)@.len() == old(self)@.len() - 1
                    &&& forall|x: usize|
                        old(self)@.contains(x) && x != id ==> final(self)@.contains(x)
                    &&& forall|x: usize| final(self)@.contains(x) ==> old(self)@.contains(x)
                },
            },
    {
        let n: usize = self.heap.len();
        if n == 0 {
            return None;
        }
        let top: usize = self.heap[0];
        let last: usize = self.heap[n - 1];
        proof {
            assert forall|x: usize| old(self)@.contains(x) implies before(nodes@, top, x) by {
                let j = choose|j: int| 0 <= j < old(self)@.len() && old(self)@[j] == x;
                lemma_top_first(nodes@, old(self)@, j);
            }
        }
        self.heap.pop();
        let len: usize = n - 1;
        if len == 0 {
            assert(!self@.contains(top));
            return Some(top);
        }
        self.heap.set(0, last);
        proof {
            let now = self@;
            let was = old(self)@;
            assert forall|x: usize| was.contains(x) && x != top implies now.contains(x) by {
                let j = choose|j: int| 0 <= j < was.len() && was[j] == x;
                if j == n - 1 {
                    assert(now[0] == x);
                } else {
                    assert(now[j] == x);
                }
            }
            assert forall|x: usize| now.contains(x) implies was.contains(x) && x != top by {
                let j = choose|j: int| 0 <= j < now.len() && now[j] == x;
                if j == 0 {
                    assert(was[n - 1] == x);
                    assert(was[0] != was[n - 1]);
                } else {
                    assert(was[j] == x);
                    assert(was[0] != was[j]);
                }
            }
            assert forall|a: int, b: int| 0 <= a < b < now.len() implies now[a] != now[b] by {
                if a == 0 {
                    assert(was[b] != was[n - 1]);
                } else {
                    assert(was[a] != was[b]);
                }
            }
            assert forall|j: int| 0 < j < now.len() && (j - 1) / 2 != 0 implies #[trigger] edge_ok(
                nodes@,
                now,
                j,
            ) by {
                assert(edge_ok(nodes@, was, j));
            }
        }
        let mut i: usize = 0;
        while i < len / 2
            invariant
                len == self@.len(),
                len >= 1,
                i < len,
                ids_ok(nodes@, self@),
                distinct(self@),
                forall|x: usize| old(self)@.contains(x) && x != top ==> self@.contains(x),
                forall|x: usize| self@.contains(x) ==> old(self)@.contains(x) && x != top,
                forall|j: int|
                    0 < j < self@.len() && (j - 1) / 2 != i ==> #[trigger] edge_ok(nodes@, self@, j),
                forall|j: int|
                    0 < j < self@.len() && (j - 1) / 2 == i && i > 0 ==> before(
                        nodes@,
                        self@[(i - 1) / 2],
                        #[trigger] self@[j],
                    ),
            ensures
                len == self@.len(),
                ids_ok(nodes@, self@),
                distinct(self@),
                forall|x: usize| old(self)@.contains(x) && x != top ==> self@.contains(x),
                forall|x: usize| self@.contains(x) ==> old(self)@.contains(x) && x != top,
                heap_ordered(nodes@, self@),
            decreases len - i,
        {
            let left: usize = 2 * i + 1;
            let right: usize = left + 1;
            let child: usize = if right < len && !comes_before(
                nodes,
                self.heap[left],
                self.heap[right],
            ) {
                right
            } else {
                left
            };
            if comes_before(nodes, self.heap[i], self.heap[child]) {
                proof {
                    assert forall|j: int| 0 < j < self@.len() implies #[trigger] edge_ok(
                        nodes@,
                        self@,
                        j,
                    ) by {
                        if (j - 1) / 2 == i {
                            assert(j == left || j == right);
                        }
                    }
                }
                break ;
            }
            let ghost was = self@;
            proof {
                lemma_exchange(was, i as int, child as int);
            }
            self.exchange(i, child);
            proof {
                let now = self@;
                assert forall|x: usize| now.contains(x) implies old(self)@.contains(x) && x
                    != top by {
                    assert(was.contains(x));
                }
                assert forall|j: int| 0 < j < now.len() && (j - 1) / 2 != child implies #[trigger] edge_ok(
                    nodes@,
                    now,
                    j,
                ) by {
                    if (j - 1) / 2 == i {
                        assert(j == left || j == right);
                    } else if j == i {
                        assert(before(nodes@, was[(i - 1) / 2], was[child as int]));
                    } else {
                        assert(edge_ok(nodes@, was, j));
                    }
                }
                assert forall|j: int| 0 < j < now.len() && (j - 1) / 2 == child implies before(
                    nodes@,
                    now[(child - 1) / 2],
                    #[trigger] now[j],
                ) by {
                    assert(edge_ok(nodes@, was, j));
                }
            }
            i = child;
        }
        proof {
            assert forall|j: int| 0 < j < self@.len() implies #[trigger] edge_ok(nodes@, self@, j) by {
                if (j - 1) / 2 == i && i >= len / 2 {
                }
            }
        }
        Some(top)
    }
}

/// A frontier stays in order when nodes are added after those it holds, and
/// it does not hold the index of a node that is yet to be added.
pub proof fn lemma_frontier_grows(frontier: Seq<usize>, nodes: Seq<Node>, more: Seq<Node>)
    requires
        ids_ok(nodes, frontier),
        heap_ordered(nodes, frontier),
        nodes.len() <= more.len(),
        forall|i: int| 0 <= i < nodes.len() ==> more[i] == nodes[i],
    ensures
        ids_ok(more, frontier),
        heap_ordered(more, frontier),
        forall|x: usize| x >= nodes.len() ==> !frontier.contains(x),
{
    assert forall|i: int| 0 < i < frontier.len() implies #[trigger] edge_ok(more, frontier, i) by {
        assert(edge_ok(nodes, frontier, i));
    }
}

} // verus!
