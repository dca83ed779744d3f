//! A deduplicating arena of board states with forward and reverse
//! adjacency: the state graph that lets counting run over states instead
//! of paths, and lets every tiling be rebuilt by walking reverse edges.

use vstd::prelude::*;
use crate::board::RectangularBoard;

verus! {

/// Appending to a sequence adds exactly one member.
proof fn lemma_push_contains<A>(s: Seq<A>, x: A, y: A)
    ensures
        s.push(x).contains(y) <==> (s.contains(y) || y == x),
{
    if s.push(x).contains(y) {
        let m = choose|m: int| 0 <= m < s.push(x).len() && s.push(x)[m] == y;
        if m < s.len() {
            assert(s[m] == y);
        }
    }
    if s.contains(y) {
        let m = choose|m: int| 0 <= m < s.len() && s[m] == y;
        assert(s.push(x)[m] == y);
    }
    assert(s.push(x)[s.len() as int] == x);
}

/// The search graph: nodes are board states (index 0 is the initial
/// board), an edge (s, t) records that one tile placement turns board s
/// into board t, and completed (fully marked) nodes are listed apart.
#[derive(Debug)]
pub struct BoardGraph {
    pub nodes_arena: Vec<RectangularBoard>,
    pub nodes_arena_index: usize,
    pub edges: Vec<Vec<usize>>,
    pub rev_edges: Vec<Vec<usize>>,
    pub complete_indices: Vec<usize>,
}

impl BoardGraph {
    /// Whether the graph records an edge from node `s` to node `t`.
    pub open spec fn has_edge(self, s: int, t: int) -> bool {
        0 <= s < self.edges@.len() && 0 <= t < self.edges@.len() && self.edges@[s]@.contains(
            t as usize,
        )
    }

    /// The structural invariant: adjacency vectors sized to the arena,
    /// every endpoint in bounds, forward and reverse edges in exact
    /// correspondence, no duplicate edges, and completed indices valid.
    pub open spec fn wf(self) -> bool {
        &&& self.nodes_arena_index == self.nodes_arena@.len()
        &&& self.edges@.len() == self.nodes_arena@.len()
        &&& self.rev_edges@.len() == self.nodes_arena@.len()
        &&& forall|s: int, k: int|
            0 <= s < self.edges@.len() && 0 <= k < self.edges@[s]@.len() ==> (
            #[trigger] self.edges@[s]@[k] as int) < self.nodes_arena@.len()
        &&& forall|t: int, k: int|
            0 <= t < self.rev_edges@.len() && 0 <= k < self.rev_edges@[t]@.len() ==> (
            #[trigger] self.rev_edges@[t]@[k] as int) < self.nodes_arena@.len()
        &&& forall|s: int, t: int|
            0 <= s < self.edges@.len() && 0 <= t < self.edges@.len() ==> ((
            #[trigger] self.edges@[s]@.contains(t as usize)) <==> self.rev_edges@[t]@.contains(
                s as usize,
            ))
        &&& forall|s: int|
            0 <= s < self.edges@.len() ==> (#[trigger] self.edges@[s])@.no_duplicates()
        &&& forall|t: int|
            0 <= t < self.rev_edges@.len() ==> (#[trigger] self.rev_edges@[t])@.no_duplicates()
        &&& forall|k: int|
            0 <= k < self.complete_indices@.len() ==> (#[trigger] self.complete_indices@[k] as int)
                < self.nodes_arena@.len()
    }

    pub fn new() -> (r: BoardGraph)
        ensures
            r.wf(),
            r.nodes_arena@.len() == 0,
            r.complete_indices@.len() == 0,
    {
        BoardGraph {
            nodes_arena: Vec::new(),
            nodes_arena_index: 0,
            edges: Vec::new(),
            rev_edges: Vec::new(),
            complete_indices: Vec::new(),
        }
    }

    /// One completed index, if any tiling completed: the first recorded,
    /// a deterministic tie-break when several exist.
    pub fn get_complete_index(&self) -> (r: Option<usize>)
        ensures
            match r {
                Some(i) => self.complete_indices@.len() > 0 && i == self.complete_indices@[0],
                None => self.complete_indices@.len() == 0,
            },
    {
        if self.complete_indices.len() > 0 {
            Some(self.complete_indices[0])
        } else {
            None
        }
    }

    /// Records that node `i` holds a fully marked board.
    pub fn mark_node_as_complete(&mut self, i: usize)
        requires
            old(self).wf(),
            i < old(self).nodes_arena@.len(),
        ensures
            final(self).wf(),
            final(self).nodes_arena == old(self).nodes_arena,
            final(self).edges == old(self).edges,
            final(self).rev_edges == old(self).rev_edges,
            forall|k: usize|
                (#[trigger] final(self).complete_indices@.contains(k)) <==> (old(
                    self,
                ).complete_indices@.contains(k) || k == i),
            final(self).complete_indices@ == old(self).complete_indices@
                || final(self).complete_indices@ == old(self).complete_indices@.push(i),
    {
        let mut found = false;
        let n = self.complete_indices.len();
        let mut m: usize = 0;
        while m < n
            invariant
                n == self.complete_indices@.len(),
                m <= n,
                found == exists|k: int| 0 <= k < m && self.complete_indices@[k] == i,
            decreases n - m,
        {
            if self.complete_indices[m] == i {
                found = true;
            }
            m += 1;
        }
        if !found {
            let ghost old_ci = self.complete_indices@;
            self.complete_indices.push(i);
            proof {
                assert forall|k: usize|
                    (#[trigger] self.complete_indices@.contains(k)) <==> (old_ci.contains(k) || k
                        == i) by {
                    lemma_push_contains(old_ci, i, k);
                }
            }
        } else {
            proof {
                assert(self.complete_indices@.contains(i));
            }
        }
    }

    /// The index of the first node equal (as a board state) to `v`.
    pub fn find_node(&self, v: &RectangularBoard) -> (r: Option<usize>)
        ensures
            match r {
                Some(i) => i < self.nodes_arena@.len() && self.nodes_arena@[i as int]@.grid
                    == v@.grid && forall|k: int|
                    0 <= k < i ==> (#[trigger] self.nodes_arena@[k])@.grid != v@.grid,
                None => forall|k: int|
                    0 <= k < self.nodes_arena@.len() ==> (#[trigger] self.nodes_arena@[k])@.grid
                        != v@.grid,
            },
    {
        let n = self.nodes_arena.len();
        let mut i: usize = 0;
        while i < n
            invariant
                n == self.nodes_arena@.len(),
                i <= n,
                forall|k: int|
                    0 <= k < i ==> (#[trigger] self.nodes_arena@[k])@.grid != v@.grid,
            decreases n - i,
        {
            if self.nodes_arena[i].eq(v) {
                return Some(i);
            }
            i += 1;
        }
        None
    }

    /// The children recorded for node `i`, if any.
    pub fn get_edges(&self, i: usize) -> (r: Option<&Vec<usize>>)
        ensures
            match r {
                Some(v) => i < self.edges@.len() && v@ == self.edges@[i as int]@ && v@.len() > 0,
                None => i >= self.edges@.len() || self.edges@[i as int]@.len() == 0,
            },
    {
        if i < self.edges.len() && self.edges[i].len() > 0 {
            Some(&self.edges[i])
        } else {
            None
        }
    }

    /// The parents recorded for node `i`, if any.
    pub fn get_rev_edges(&self, i: usize) -> (r: Option<&Vec<usize>>)
        ensures
            match r {
                Some(v) => i < self.rev_edges@.len() && v@ == self.rev_edges@[i as int]@
                    && v@.len() > 0,
                None => i >= self.rev_edges@.len() || self.rev_edges@[i as int]@.len() == 0,
            },
    {
        if i < self.rev_edges.len() && self.rev_edges[i].len() > 0 {
            Some(&self.rev_edges[i])
        } else {
            None
        }
    }

    /// The board stored at node `i`.
    pub fn get_node(&self, i: usize) -> (r: Option<&RectangularBoard>)
        ensures
            match r {
                Some(v) => i < self.nodes_arena@.len() && *v == self.nodes_arena@[i as int],
                None => i >= self.nodes_arena@.len(),
            },
    {
        if i < self.nodes_arena.len() {
            Some(&self.nodes_arena[i])
        } else {
            None
        }
    }

    /// Appends a board to the arena and returns its index.
    pub fn add_node(&mut self, v: RectangularBoard) -> (idx: usize)
        requires
            old(self).wf(),
        ensures
            final(self).wf(),
            idx == old(self).nodes_arena@.len(),
            final(self).nodes_arena@ == old(self).nodes_arena@.push(v),
            final(self).complete_indices == old(self).complete_indices,
            forall|s: int, t: int| final(self).has_edge(s, t) <==> old(self).has_edge(s, t),
            forall|s: int|
                0 <= s < old(self).edges@.len() ==> final(self).edges@[s] == old(self).edges@[s]
                    && final(self).rev_edges@[s] == old(self).rev_edges@[s],
            final(self).edges@[old(self).nodes_arena@.len() as int]@.len() == 0,
            final(self).rev_edges@[old(self).nodes_arena@.len() as int]@.len() == 0,
    {
        self.nodes_arena.push(v);
        self.edges.push(Vec::new());
        self.rev_edges.push(Vec::new());
        let l = self.nodes_arena.len();
        proof {
            assert(l == old(self).nodes_arena@.len() + 1);
        }
        self.nodes_arena_index = l;
        proof {
            assert forall|s: int, t: int| self.has_edge(s, t) implies old(self).has_edge(
                s,
                t,
            ) by {
                if s < old(self).edges@.len() {
                } else {
                    assert(self.edges@[s]@.len() == 0);
                }
            }
        }
        l - 1
    }

    /// Records the edge (s, t) in both adjacency directions; both nodes
    /// must already be in the arena.
    #[verifier::rlimit(100)]
    #[verifier::spinoff_prover]
    pub fn add_edge(&mut self, s: usize, t: usize)
        requires
            old(self).wf(),
            s < old(self).nodes_arena_index,
            t < old(self).nodes_arena_index,
        ensures
            final(self).wf(),
            final(self).nodes_arena == old(self).nodes_arena,
            final(self).complete_indices == old(self).complete_indices,
            forall|s2: int, t2: int|
                #[trigger] final(self).has_edge(s2, t2) ==> (old(self).has_edge(s2, t2) || (s2
                    == s && t2 == t)),
            forall|s2: int, t2: int|
                #[trigger] old(self).has_edge(s2, t2) ==> final(self).has_edge(s2, t2),
            final(self).has_edge(s as int, t as int),
            forall|s2: int|
                0 <= s2 < old(self).edges@.len() && s2 != s ==> final(self).edges@[s2] == old(
                    self,
                ).edges@[s2],
            old(self).edges@[s as int]@.contains(t) ==> final(self).edges@[s as int] == old(
                self,
            ).edges@[s as int],
            !old(self).edges@[s as int]@.contains(t) ==> final(self).edges@[s as int]@ == old(
                self,
            ).edges@[s as int]@.push(t),
            forall|t2: int|
                0 <= t2 < old(self).rev_edges@.len() && t2 != t ==> final(self).rev_edges@[t2]
                    == old(self).rev_edges@[t2],
            final(self).rev_edges@[t as int]@.len() >= old(self).rev_edges@[t as int]@.len(),
            final(self).rev_edges@[t as int]@.len() >= 1,
    {
        let dup = {
            let row = &self.edges[s];
            let n = row.len();
            let mut m: usize = 0;
            let mut found = false;
            while m < n
                invariant
                    n == row@.len(),
                    m <= n,
                    found == exists|k: int| 0 <= k < m && row@[k] == t,
                decreases n - m,
            {
                if row[m] == t {
                    found = true;
                }
                m += 1;
            }
            found
        };
        proof {
            assert(dup == self.edges@[s as int]@.contains(t));
        }
        if !dup {
            let ghost g0 = *self;
            self.edges[s].push(t);
            self.rev_edges[t].push(s);
            proof {
                assert(self.edges@[s as int]@ == g0.edges@[s as int]@.push(t));
                assert(self.rev_edges@[t as int]@ == g0.rev_edges@[t as int]@.push(s));
                assert(((t as int) as usize) == t);
                assert(((s as int) as usize) == s);
                assert(!g0.edges@[s as int]@.contains((t as int) as usize));
                assert(!g0.rev_edges@[t as int]@.contains((s as int) as usize));
                assert forall|s2: int, t2: int|
                    0 <= s2 < self.edges@.len() && 0 <= t2 < self.edges@.len() implies ((
                #[trigger] self.edges@[s2]@.contains(t2 as usize))
                    <==> self.rev_edges@[t2]@.contains(s2 as usize)) by {
                    lemma_push_contains(g0.edges@[s as int]@, t, t2 as usize);
                    lemma_push_contains(g0.rev_edges@[t as int]@, s, s2 as usize);
                    if s2 != s as int {
                        assert(self.edges@[s2] == g0.edges@[s2]);
                    }
                    if t2 != t as int {
                        assert(self.rev_edges@[t2] == g0.rev_edges@[t2]);
                    }
                }
                assert(self.edges@[s as int]@.no_duplicates());
                assert(self.rev_edges@[t as int]@.no_duplicates());
                assert forall|s2: int, t2: int|
                    self.has_edge(s2, t2) <==> (g0.has_edge(s2, t2) || (s2 == s as int && t2
                        == t as int)) by {
                    if 0 <= s2 < self.edges@.len() && 0 <= t2 < self.edges@.len() {
                        lemma_push_contains(g0.edges@[s as int]@, t, t2 as usize);
                        if s2 != s as int {
                            assert(self.edges@[s2] == g0.edges@[s2]);
                        }
                        if t2 == t as int {
                            assert((t2 as usize) == t);
                        }
                    }
                }
                assert(g0 == *old(self));
                assert(self.edges@[s as int]@[g0.edges@[s as int]@.len() as int] == t);
                assert(self.edges@[s as int]@.contains(t));
                assert(t < self.edges@.len());
                assert(self.has_edge(s as int, t as int));
            }
        } else {
            proof {
                assert(t < self.edges@.len());
                assert(self.has_edge(s as int, t as int));
                assert(self.rev_edges@[t as int]@.contains(s)) by {
                    assert(((t as int) as usize) == t);
                    assert(((s as int) as usize) == s);
                    assert(self.edges@[s as int]@.contains((t as int) as usize));
                }
                assert(self.rev_edges@[t as int]@.len() >= 1) by {
                    let j = choose|j: int|
                        0 <= j < self.rev_edges@[t as int]@.len() && self.rev_edges@[t as int]@[j]
                            == s;
                }
                assert forall|s2: int, t2: int|
                    self.has_edge(s2, t2) <==> (old(self).has_edge(s2, t2) || (s2 == s as int
                        && t2 == t as int)) by {}
            }
        }
    }
}

} // verus!
