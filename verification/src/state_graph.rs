use vstd::prelude::*;
use crate::cell::Cell;
use crate::grid::{
    fill_reachable_cells, filled, lemma_reach_only_unreachable, lemma_reach_refl,
    lemma_step_in_bounds, lemma_step_values, move_one, step_spec, Direction,
};
use crate::shortest_path::ShortestGraph;
use std::collections::HashSet;

verus! {

broadcast use vstd::std_specs::hash::group_hash_axioms;

/// The directed graph of all discovered configurations: node `i` holds the
/// `i`-th distinct configuration, in discovery order, and its ordered list
/// of successor ids, one entry per legal push that produces the successor.
pub struct StateGraph {
    states: Vec<Vec<Cell>>,
    neighbors: Vec<Vec<usize>>,
}

impl StateGraph {
    /// How many distinct configurations the graph holds; ids are exactly
    /// `0 .. len - 1`, in insertion order.
    pub closed spec fn spec_len(self) -> nat {
        self.states@.len()
    }

    /// The configuration with id `id`.
    pub closed spec fn spec_state(self, id: int) -> Seq<Cell> {
        self.states@[id]@
    }

    /// The ordered successor ids of node `id`.
    pub closed spec fn spec_neighbors(self, id: int) -> Seq<usize> {
        self.neighbors@[id]@
    }

    /// `id` names an inserted configuration.
    pub open spec fn spec_contains_id(self, id: usize) -> bool {
        (id as int) < self.spec_len()
    }

    /// Some node holds the configuration `s`.
    pub open spec fn spec_contains_state(self, s: Seq<Cell>) -> bool {
        exists|i: int| 0 <= i < self.spec_len() && self.spec_state(i) == s
    }

    /// The id of the node holding `s`; meaningful when the graph contains
    /// `s`, and then unique by well-formedness.
    pub open spec fn spec_id_of(self, s: Seq<Cell>) -> int {
        choose|i: int| 0 <= i < self.spec_len() && self.spec_state(i) == s
    }

    /// Well-formed graph: one neighbour list per node, no configuration
    /// stored twice, and every recorded successor a valid id.
    pub closed spec fn wf(self) -> bool {
        &&& self.states@.len() == self.neighbors@.len()
        &&& (forall|i: int, j: int|
            #![trigger self.spec_state(i), self.spec_state(j)]
            0 <= i < self.spec_len() && 0 <= j < self.spec_len() && i != j ==> self.spec_state(i)
                != self.spec_state(j))
        &&& (forall|i: int, k: int|
            #![trigger self.spec_neighbors(i)[k]]
            0 <= i < self.spec_len() && 0 <= k < self.spec_neighbors(i).len()
                ==> self.spec_neighbors(i)[k] < self.spec_len())
    }

    /// A graph holding only the root configuration, under id 0.
    pub fn new(root: Vec<Cell>) -> (r: StateGraph)
        ensures
            r.wf(),
            r.spec_len() == 1,
            r.spec_state(0) == root@,
            r.spec_neighbors(0) == Seq::<usize>::empty(),
    {
        let mut graph = StateGraph { states: Vec::new(), neighbors: Vec::new() };
        graph.set_root(root);
        graph
    }

    /// Installs the root configuration in an otherwise empty graph.
    fn set_root(&mut self, state: Vec<Cell>)
        requires
            old(self).wf(),
            old(self).spec_len() == 0,
        ensures
            final(self).wf(),
            final(self).spec_len() == 1,
            final(self).spec_state(0) == state@,
            final(self).spec_neighbors(0) == Seq::<usize>::empty(),
    {
        self.insert_state(state);
    }

    /// The ordered successor ids of node `id`, or `None` for an unknown id.
    pub fn get_neighbors(&self, id: &usize) -> (r: Option<&Vec<usize>>)
        requires
            self.wf(),
        ensures
            match r {
                Some(v) => (*id as int) < self.spec_len() && v@ == self.spec_neighbors(*id as int),
                None => (*id as int) >= self.spec_len(),
            },
    {
        if *id < self.neighbors.len() {
            Some(&self.neighbors[*id])
        } else {
            None
        }
    }

    /// The configuration with id `id`, or `None` for an unknown id.
    pub fn get_state(&self, id: &usize) -> (r: Option<&Vec<Cell>>)
        ensures
            match r {
                Some(v) => (*id as int) < self.spec_len() && v@ == self.spec_state(*id as int),
                None => (*id as int) >= self.spec_len(),
            },
    {
        if *id < self.states.len() {
            Some(&self.states[*id])
        } else {
            None
        }
    }

    /// Whether `id` names an inserted configuration.
    pub fn contains_id(&self, id: &usize) -> (r: bool)
        ensures
            r == self.spec_contains_id(*id),
    {
        *id < self.states.len()
    }

    /// The id of the node holding `state`, scanning in id order.
    fn find_state(&self, state: &Vec<Cell>) -> (r: Option<usize>)
        ensures
            match r {
                Some(i) => (i as int) < self.spec_len() && self.spec_state(i as int) == state@,
                None => !self.spec_contains_state(state@),
            },
    {
        let mut i: usize = 0;
        while i < self.states.len()
            invariant
                i <= self.spec_len(),
                forall|k: int| 0 <= k < i ==> #[trigger] self.spec_state(k) != state@,
            decreases self.spec_len() - i,
        {
            if states_equal(&self.states[i], state) {
                return Some(i);
            }
            i = i + 1;
        }
        None
    }

    /// Whether some node holds the configuration `state`.
    pub fn contains_state(&self, state: &Vec<Cell>) -> (r: bool)
        ensures
            r == self.spec_contains_state(state@),
    {
        match self.find_state(state) {
            Some(_) => true,
            None => false,
        }
    }

    /// Inserts a configuration that is not yet present and returns its id,
    /// the next unused one; its neighbour list starts empty.
    pub fn insert_state(&mut self, state: Vec<Cell>) -> (id: usize)
        requires
            old(self).wf(),
            !old(self).spec_contains_state(state@),
        ensures
            final(self).wf(),
            id == old(self).spec_len(),
            final(self).spec_len() == old(self).spec_len() + 1,
            final(self).spec_len() <= usize::MAX,
            forall|i: int|
                0 <= i < old(self).spec_len() ==> #[trigger] final(self).spec_state(i) == old(
                    self,
                ).spec_state(i) && final(self).spec_neighbors(i) == old(self).spec_neighbors(i),
            final(self).spec_state(id as int) == state@,
            final(self).spec_neighbors(id as int) == Seq::<usize>::empty(),
            forall|s: Seq<Cell>|
                #[trigger] old(self).spec_contains_state(s) ==> final(self).spec_contains_state(s),
    {
        let id = self.states.len();
        self.states.push(state);
        self.neighbors.push(Vec::new());
        proof {
            vstd::std_specs::vec::axiom_spec_len(&self.states);
            assert forall|s: Seq<Cell>| #[trigger]
                old(self).spec_contains_state(s) implies self.spec_contains_state(s) by {
                let i = choose|i: int|
                    0 <= i < old(self).spec_len() && old(self).spec_state(i) == s;
                assert(self.spec_state(i) == s);
            }
            assert forall|i: int| 0 <= i < old(self).spec_len() implies self.spec_state(i)
                != state@ by {
                if old(self).spec_state(i) == state@ {
                    assert(old(self).spec_contains_state(state@));
                }
            }
            assert forall|i: int, j: int|
                #![trigger self.spec_state(i), self.spec_state(j)]
                0 <= i < self.spec_len() && 0 <= j < self.spec_len() && i != j implies self.spec_state(
                i,
            ) != self.spec_state(j) by {
                if i < old(self).spec_len() && j < old(self).spec_len() {
                    assert(old(self).spec_state(i) != old(self).spec_state(j));
                }
            }
            assert forall|i: int, k: int|
                #![trigger self.spec_neighbors(i)[k]]
                0 <= i < self.spec_len() && 0 <= k < self.spec_neighbors(i).len() implies self.spec_neighbors(
                i,
            )[k] < self.spec_len() by {
                if i < old(self).spec_len() {
                    assert(self.spec_neighbors(i) == old(self).spec_neighbors(i));
                    assert(old(self).spec_neighbors(i)[k] < old(self).spec_len());
                } else {
                    assert(self.spec_neighbors(i) == Seq::<usize>::empty());
                }
            }
        }
        id
    }

    /// Appends the id of configuration `to` to the neighbour list of
    /// configuration `from`; both must already be inserted.
    pub fn connect_states(&mut self, from: &Vec<Cell>, to: &Vec<Cell>)
        requires
            old(self).wf(),
            old(self).spec_contains_state(from@),
            old(self).spec_contains_state(to@),
        ensures
            final(self).wf(),
            final(self).spec_len() == old(self).spec_len(),
            forall|i: int|
                0 <= i < old(self).spec_len() ==> #[trigger] final(self).spec_state(i) == old(
                    self,
                ).spec_state(i),
            final(self).spec_neighbors(old(self).spec_id_of(from@)) == old(self).spec_neighbors(
                old(self).spec_id_of(from@),
            ).push(old(self).spec_id_of(to@) as usize),
            forall|i: int|
                0 <= i < old(self).spec_len() && i != old(self).spec_id_of(from@)
                    ==> #[trigger] final(self).spec_neighbors(i) == old(self).spec_neighbors(i),
            forall|s: Seq<Cell>|
                #[trigger] old(self).spec_contains_state(s) ==> final(self).spec_contains_state(s),
    {
        let from_id = self.find_state(from).unwrap();
        let to_id = self.find_state(to).unwrap();
        proof {
            let f = old(self).spec_id_of(from@);
            assert(0 <= f < old(self).spec_len() && old(self).spec_state(f) == from@);
            assert(from_id as int == f);
            let t = old(self).spec_id_of(to@);
            assert(0 <= t < old(self).spec_len() && old(self).spec_state(t) == to@);
            assert(to_id as int == t);
        }
        let lst = &mut self.neighbors[from_id];
        lst.push(to_id);
        proof {
            assert forall|s: Seq<Cell>| #[trigger]
                old(self).spec_contains_state(s) implies self.spec_contains_state(s) by {
                let i = choose|i: int|
                    0 <= i < old(self).spec_len() && old(self).spec_state(i) == s;
                assert(self.spec_state(i) == s);
            }
            assert(self.spec_neighbors(from_id as int) == old(self).spec_neighbors(
                from_id as int,
            ).push(to_id));
            assert forall|i: int, j: int|
                #![trigger self.spec_state(i), self.spec_state(j)]
                0 <= i < self.spec_len() && 0 <= j < self.spec_len() && i != j implies self.spec_state(
                i,
            ) != self.spec_state(j) by {
                assert(self.spec_state(i) == old(self).spec_state(i));
                assert(self.spec_state(j) == old(self).spec_state(j));
                assert(old(self).spec_state(i) != old(self).spec_state(j));
            }
            assert forall|i: int, k: int|
                #![trigger self.spec_neighbors(i)[k]]
                0 <= i < self.spec_len() && 0 <= k < self.spec_neighbors(i).len() implies self.spec_neighbors(
                i,
            )[k] < self.spec_len() by {
                if i == from_id as int {
                    if k < self.spec_neighbors(i).len() - 1 {
                        assert(self.spec_neighbors(i)[k] == old(self).spec_neighbors(i)[k]);
                    } else {
                        assert(self.spec_neighbors(i)[k] == to_id);
                    }
                } else {
                    assert(self.spec_neighbors(i) == old(self).spec_neighbors(i));
                }
            }
        }
    }

    /// How many distinct configurations the graph holds.
    pub fn len(&self) -> (r: usize)
        ensures
            r == self.spec_len(),
    {
        self.states.len()
    }

    /// Builds, by breadth-first traversal over the directed edges, the
    /// shortest-path tree rooted at `from`. The tree holds exactly the ids
    /// reachable from `from`; every recorded parent edge is an edge of
    /// this graph; and every recorded distance is the true minimum edge
    /// count: it is realised by some walk from `from`, and no walk from
    /// `from` is shorter.
    #[verifier::rlimit(80)]
    pub fn build_shortest_path_from(&self, from: &usize) -> (r: ShortestGraph)
        requires
            self.wf(),
        ensures
            r.wf(),
            r.spec_source() == *from,
            forall|c: usize| #[trigger] r.spec_contains(c) <==> sg_reach(*self, *from, c),
            forall|c: usize| #[trigger]
                r.spec_parent().contains_key(c) ==> (r.spec_parent()[c] as int) < self.spec_len()
                    && self.spec_neighbors(r.spec_parent()[c] as int).contains(c),
            forall|c: usize| #[trigger]
                r.spec_contains(c) ==> sg_dist_at_most(
                    *self,
                    *from,
                    c,
                    r.spec_distance()[c] as int,
                ),
            forall|p: Seq<usize>|
                #[trigger] sg_path_ok(*self, p) && p[0] == *from ==> r.spec_contains(p.last())
                    && r.spec_distance()[p.last()] <= p.len() - 1,
    {
        let mut queue: Vec<usize> = Vec::new();
        let mut head: usize = 0;
        let mut visited: HashSet<usize> = HashSet::new();
        queue.push(*from);
        visited.insert(*from);
        let mut shortest = ShortestGraph::new(*from);
        proof {
            assert(vstd::std_specs::hash::spec_hash_set_len(&visited) == visited@.len());
            assert(visited@ =~= shortest.spec_distance().dom());
            lemma_sg_reach_refl(*self, *from);
            lemma_sg_dist_refl(*self, *from);
            assert(queue@[0] == *from);
            assert(queue@.skip(0) =~= queue@);
            assert(queue@.contains(*from));
        }
        while head < queue.len()
            invariant
                self.wf(),
                shortest.wf(),
                shortest.spec_source() == *from,
                visited@ == shortest.spec_distance().dom(),
                visited@.finite(),
                visited@.len() <= usize::MAX,
                visited@.contains(*from),
                shortest.spec_distance()[*from] == 0,
                head <= queue@.len(),
                forall|k: int| 0 <= k < queue@.len() ==> visited@.contains(#[trigger] queue@[k]),
                forall|v: usize| #[trigger] visited@.contains(v) ==> queue@.contains(v),
                forall|k1: int, k2: int|
                    #![trigger queue@[k1], queue@[k2]]
                    0 <= k1 < k2 < queue@.len() ==> queue@[k1] != queue@[k2],
                forall|k1: int, k2: int|
                    #![trigger queue@[k1], queue@[k2]]
                    0 <= k1 <= k2 < queue@.len() ==> shortest.spec_distance()[queue@[k1]]
                        <= shortest.spec_distance()[queue@[k2]],
                forall|k: int|
                    head < queue@.len() && head <= k < queue@.len()
                        ==> shortest.spec_distance()[#[trigger] queue@[k]]
                        <= shortest.spec_distance()[queue@[head as int]] + 1,
                forall|v: usize| #[trigger] visited@.contains(v) ==> sg_reach(*self, *from, v),
                forall|v: usize| #[trigger]
                    visited@.contains(v) ==> sg_dist_at_most(
                        *self,
                        *from,
                        v,
                        shortest.spec_distance()[v] as int,
                    ),
                forall|a: usize, b: usize|
                    visited@.contains(a) && !queue@.skip(head as int).contains(a)
                        && #[trigger] sg_edge(*self, a, b) ==> visited@.contains(b)
                        && shortest.spec_distance()[b] <= shortest.spec_distance()[a] + 1,
                forall|c: usize| #[trigger]
                    shortest.spec_parent().contains_key(c) ==> (shortest.spec_parent()[c] as int)
                        < self.spec_len() && self.spec_neighbors(
                        shortest.spec_parent()[c] as int,
                    ).contains(c),
            decreases usize::MAX - visited@.len(), queue@.len() - head,
        {
            let ghost v_top = visited@;
            let ghost q_top = queue@;
            let ghost d_top = shortest.spec_distance();
            let ghost head_top = head as int;
            let cur = queue[head];
            head = head + 1;
            if cur < self.neighbors.len() {
                let nbs = &self.neighbors[cur];
                let mut j: usize = 0;
                while j < nbs.len()
                    invariant
                        self.wf(),
                        shortest.wf(),
                        shortest.spec_source() == *from,
                        visited@ == shortest.spec_distance().dom(),
                        visited@.finite(),
                        visited@.len() <= usize::MAX,
                        visited@.contains(*from),
                        shortest.spec_distance()[*from] == 0,
                        head <= queue@.len(),
                        head == head_top + 1,
                        (cur as int) < self.spec_len(),
                        nbs@ == self.spec_neighbors(cur as int),
                        j <= nbs@.len(),
                        visited@.contains(cur),
                        0 <= head_top && head_top < q_top.len(),
                        q_top[head_top] == cur,
                        queue@[head_top] == cur,
                        sg_reach(*self, *from, cur),
                        forall|k: int|
                            0 <= k < queue@.len() ==> visited@.contains(#[trigger] queue@[k]),
                        forall|v: usize| #[trigger] visited@.contains(v) ==> queue@.contains(v),
                        forall|k1: int, k2: int|
                            #![trigger queue@[k1], queue@[k2]]
                            0 <= k1 < k2 < queue@.len() ==> queue@[k1] != queue@[k2],
                        forall|k1: int, k2: int|
                            #![trigger queue@[k1], queue@[k2]]
                            0 <= k1 <= k2 < queue@.len() ==> shortest.spec_distance()[queue@[k1]]
                                <= shortest.spec_distance()[queue@[k2]],
                        forall|k: int|
                            head <= k < queue@.len()
                                ==> shortest.spec_distance()[#[trigger] queue@[k]]
                                <= shortest.spec_distance()[cur] + 1,
                        forall|v: usize| #[trigger]
                            visited@.contains(v) ==> sg_reach(*self, *from, v),
                        forall|v: usize| #[trigger]
                            visited@.contains(v) ==> sg_dist_at_most(
                                *self,
                                *from,
                                v,
                                shortest.spec_distance()[v] as int,
                            ),
                        forall|v: usize| #[trigger] v_top.contains(v) ==> visited@.contains(v),
                        q_top.len() <= queue@.len(),
                        forall|k: int| 0 <= k < q_top.len() ==> queue@[k] == #[trigger] q_top[k],
                        forall|v: usize| #[trigger]
                            visited@.contains(v) && !v_top.contains(v) ==> queue@.skip(
                                q_top.len() as int,
                            ).contains(v),
                        forall|a: usize, b: usize|
                            v_top.contains(a) && !q_top.skip(head_top).contains(a)
                                && #[trigger] sg_edge(*self, a, b) ==> v_top.contains(b)
                                && d_top[b] <= d_top[a] + 1,
                        forall|v: usize| #[trigger]
                            v_top.contains(v) ==> shortest.spec_distance()[v] == d_top[v],
                        forall|k: int|
                            0 <= k < j ==> visited@.contains(#[trigger] nbs@[k])
                                && shortest.spec_distance()[nbs@[k]]
                                <= shortest.spec_distance()[cur] + 1,
                        forall|c: usize| #[trigger]
                            shortest.spec_parent().contains_key(c) ==> (
                            shortest.spec_parent()[c] as int) < self.spec_len()
                                && self.spec_neighbors(shortest.spec_parent()[c] as int).contains(
                                c,
                            ),
                        (visited@ == v_top && queue@ == q_top) || visited@.len() > v_top.len(),
                    decreases nbs@.len() - j,
                {
                    let nb = nbs[j];
                    if !visited.contains(&nb) {
                        let ghost q_before = queue@;
                        let ghost d_before = shortest.spec_distance();
                        proof {
                            crate::shortest_path::lemma_distance_bounded(shortest, cur);
                            assert(d_before[cur] < visited@.len());
                        }
                        shortest.insert(&cur, nb);
                        visited.insert(nb);
                        queue.push(nb);
                        proof {
                            assert(vstd::std_specs::hash::spec_hash_set_len(&visited)
                                == visited@.len());
                            assert(visited@ =~= shortest.spec_distance().dom());
                            assert(self.spec_neighbors(cur as int)[j as int] == nb);
                            assert(self.spec_neighbors(cur as int).contains(nb));
                            assert(sg_edge(*self, cur, nb));
                            lemma_sg_reach_extend(*self, *from, cur, nb);
                            assert(shortest.spec_distance()[nb] == d_before[cur] + 1);
                            assert forall|v: usize| #[trigger]
                                visited@.contains(v) implies queue@.contains(v) by {
                                if v == nb {
                                    assert(queue@[queue@.len() - 1] == nb);
                                } else {
                                    let kv = choose|kv: int|
                                        0 <= kv < q_before.len() && q_before[kv] == v;
                                    assert(queue@[kv] == v);
                                }
                            }
                            lemma_sg_dist_extend(*self, *from, cur, nb, d_before[cur] as int);
                            assert forall|v: usize| #[trigger]
                                visited@.contains(v) implies sg_dist_at_most(
                                *self,
                                *from,
                                v,
                                shortest.spec_distance()[v] as int,
                            ) by {
                                if v != nb {
                                    assert(shortest.spec_distance()[v] == d_before[v]);
                                }
                            }
                            assert forall|k1: int, k2: int|
                                #![trigger queue@[k1], queue@[k2]]
                                0 <= k1 < k2 < queue@.len() implies queue@[k1] != queue@[k2] by {
                                if k2 == queue@.len() - 1 {
                                    assert(queue@[k1] == q_before[k1]);
                                }
                            }
                            assert forall|k1: int, k2: int|
                                #![trigger queue@[k1], queue@[k2]]
                                0 <= k1 <= k2 < queue@.len() implies shortest.spec_distance()[
                                queue@[k1]] <= shortest.spec_distance()[queue@[k2]] by {
                                if k2 == queue@.len() - 1 {
                                    assert(queue@[k2] == nb);
                                    if k1 < k2 {
                                        assert(queue@[k1] == q_before[k1]);
                                        assert(queue@[k1] != nb);
                                        assert(shortest.spec_distance()[queue@[k1]]
                                            == d_before[queue@[k1]]);
                                        if k1 <= head_top {
                                            assert(d_before[queue@[k1]] <= d_before[cur]);
                                        } else {
                                            assert(d_before[queue@[k1]] <= d_before[cur] + 1);
                                        }
                                    }
                                } else {
                                    assert(queue@[k1] == q_before[k1]
                                        && queue@[k2] == q_before[k2]);
                                    assert(queue@[k1] != nb && queue@[k2] != nb);
                                }
                            }
                            assert forall|k: int|
                                head <= k < queue@.len() implies shortest.spec_distance()[
                                #[trigger] queue@[k]] <= shortest.spec_distance()[cur] + 1 by {
                                if k == queue@.len() - 1 {
                                    assert(queue@[k] == nb);
                                    assert(cur != nb);
                                    assert(shortest.spec_distance()[cur] == d_before[cur]);
                                } else {
                                    assert(queue@[k] == q_before[k]);
                                    assert(queue@[k] != nb);
                                }
                            }
                            assert forall|v: usize| #[trigger]
                                visited@.contains(v) && !v_top.contains(v) implies queue@.skip(
                                q_top.len() as int,
                            ).contains(v) by {
                                if v == nb {
                                    assert(queue@[queue@.len() - 1] == nb);
                                    assert(queue@.skip(q_top.len() as int)[queue@.len() - 1
                                        - q_top.len()] == nb);
                                } else {
                                    let i0 = choose|i0: int|
                                        0 <= i0 < q_before.skip(q_top.len() as int).len()
                                            && q_before.skip(q_top.len() as int)[i0] == v;
                                    assert(queue@.skip(q_top.len() as int)[i0] == v);
                                }
                            }
                        }
                    } else {
                        proof {
                            assert(visited@.contains(nb));
                            assert(queue@.contains(nb));
                            let kb = choose|kb: int|
                                0 <= kb < queue@.len() && queue@[kb] == nb;
                            if kb <= head_top {
                                assert(shortest.spec_distance()[queue@[kb]]
                                    <= shortest.spec_distance()[queue@[head_top]]);
                            } else {
                                assert(shortest.spec_distance()[queue@[kb]]
                                    <= shortest.spec_distance()[cur] + 1);
                            }
                            assert(shortest.spec_distance()[nb]
                                <= shortest.spec_distance()[cur] + 1);
                        }
                    }
                    j = j + 1;
                }
                proof {
                    assert forall|a: usize, b: usize|
                        visited@.contains(a) && !queue@.skip(head as int).contains(a)
                            && #[trigger] sg_edge(*self, a, b) implies visited@.contains(b)
                        && shortest.spec_distance()[b] <= shortest.spec_distance()[a] + 1 by {
                        if a == cur {
                            assert(self.spec_neighbors(cur as int).contains(b));
                            let k = choose|k: int|
                                0 <= k < nbs@.len() && nbs@[k] == b;
                            assert(visited@.contains(nbs@[k]));
                        } else if v_top.contains(a) {
                            if q_top.skip(head_top).contains(a) {
                                let k = choose|k: int|
                                    0 <= k < q_top.skip(head_top).len() && q_top.skip(
                                        head_top,
                                    )[k] == a;
                                assert(q_top[k + head_top] == a);
                                if k == 0 {
                                    assert(a == cur);
                                } else {
                                    assert(queue@[k + head_top] == a);
                                    assert(queue@.skip(head as int)[k + head_top - head] == a);
                                    assert(queue@.skip(head as int).contains(a));
                                }
                                assert(false);
                            }
                            assert(v_top.contains(b) && d_top[b] <= d_top[a] + 1);
                            assert(shortest.spec_distance()[b] == d_top[b]
                                && shortest.spec_distance()[a] == d_top[a]);
                        } else {
                            assert(queue@.skip(q_top.len() as int).contains(a));
                            let k = choose|k: int|
                                0 <= k < queue@.skip(q_top.len() as int).len() && queue@.skip(
                                    q_top.len() as int,
                                )[k] == a;
                            assert(queue@[k + q_top.len()] == a);
                            assert(queue@.skip(head as int)[k + q_top.len() - head] == a);
                            assert(queue@.skip(head as int).contains(a));
                            assert(false);
                        }
                    }
                    assert forall|k: int|
                        head < queue@.len() && head <= k < queue@.len() implies shortest.spec_distance()[
                        #[trigger] queue@[k]] <= shortest.spec_distance()[queue@[head as int]]
                        + 1 by {
                        assert(shortest.spec_distance()[queue@[k]]
                            <= shortest.spec_distance()[cur] + 1);
                        assert(queue@[head_top] == cur);
                        assert(shortest.spec_distance()[cur]
                            <= shortest.spec_distance()[queue@[head as int]]);
                    }
                }
            } else {
                proof {
                    assert forall|a: usize, b: usize|
                        visited@.contains(a) && !queue@.skip(head as int).contains(a)
                            && #[trigger] sg_edge(*self, a, b) implies visited@.contains(b)
                        && shortest.spec_distance()[b] <= shortest.spec_distance()[a] + 1 by {
                        if a == cur {
                            assert((cur as int) < self.spec_len());
                            assert(false);
                        } else {
                            if q_top.skip(head_top).contains(a) {
                                let k = choose|k: int|
                                    0 <= k < q_top.skip(head_top).len() && q_top.skip(
                                        head_top,
                                    )[k] == a;
                                assert(q_top[k + head_top] == a);
                                if k == 0 {
                                    assert(a == cur);
                                } else {
                                    assert(queue@.skip(head as int)[k - 1] == a);
                                    assert(queue@.skip(head as int).contains(a));
                                }
                                assert(false);
                            }
                        }
                    }
                    assert forall|k: int|
                        head < queue@.len() && head <= k < queue@.len() implies shortest.spec_distance()[
                        #[trigger] queue@[k]] <= shortest.spec_distance()[queue@[head as int]]
                        + 1 by {
                        assert(shortest.spec_distance()[queue@[k]]
                            <= shortest.spec_distance()[queue@[head_top]] + 1);
                        assert(shortest.spec_distance()[queue@[head_top]]
                            <= shortest.spec_distance()[queue@[head as int]]);
                    }
                }
            }
        }
        proof {
            assert(queue@.skip(head as int) =~= Seq::<usize>::empty());
            assert forall|t: usize| sg_reach(*self, *from, t) implies visited@.contains(t) by {
                let p = choose|p: Seq<usize>|
                    sg_path_ok(*self, p) && p[0] == *from && p.last() == t;
                assert forall|a: usize, b: usize|
                    visited@.contains(a) && #[trigger] sg_edge(*self, a, b) implies visited@.contains(
                    b,
                ) by {
                    assert(!queue@.skip(head as int).contains(a));
                }
                lemma_sg_path_covered(*self, visited@, p);
            }
            assert forall|p: Seq<usize>|
                #[trigger] sg_path_ok(*self, p) && p[0] == *from implies shortest.spec_contains(
                p.last(),
            ) && shortest.spec_distance()[p.last()] <= p.len() - 1 by {
                assert forall|a: usize, b: usize|
                    visited@.contains(a) && #[trigger] sg_edge(*self, a, b) implies visited@.contains(
                    b,
                ) && shortest.spec_distance().contains_key(b)
                    && shortest.spec_distance().contains_key(a) && shortest.spec_distance()[b]
                    <= shortest.spec_distance()[a] + 1 by {
                    assert(!queue@.skip(head as int).contains(a));
                }
                lemma_bfs_dist_lower(*self, *from, shortest.spec_distance(), visited@, p);
            }
        }
        shortest
    }
}

/// There is a directed edge from node `a` to node `b` of the graph.
pub open spec fn sg_edge(g: StateGraph, a: usize, b: usize) -> bool {
    (a as int) < g.spec_len() && g.spec_neighbors(a as int).contains(b)
}

/// A walk along directed edges of the graph.
pub open spec fn sg_path_ok(g: StateGraph, p: Seq<usize>) -> bool {
    p.len() > 0 && (forall|k: int| 1 <= k < p.len() ==> sg_edge(g, p[k - 1], #[trigger] p[k]))
}

/// `t` can be reached from `start` along directed edges; every id reaches
/// itself.
pub open spec fn sg_reach(g: StateGraph, start: usize, t: usize) -> bool {
    exists|p: Seq<usize>| sg_path_ok(g, p) && p[0] == start && p.last() == t
}

pub proof fn lemma_sg_reach_refl(g: StateGraph, start: usize)
    ensures
        sg_reach(g, start, start),
{
    let p = seq![start];
    assert(sg_path_ok(g, p) && p[0] == start && p.last() == start);
}

pub proof fn lemma_sg_reach_extend(g: StateGraph, start: usize, a: usize, b: usize)
    requires
        sg_reach(g, start, a),
        sg_edge(g, a, b),
    ensures
        sg_reach(g, start, b),
{
    let p = choose|p: Seq<usize>| sg_path_ok(g, p) && p[0] == start && p.last() == a;
    let q = p.push(b);
    assert forall|k: int| 1 <= k < q.len() implies sg_edge(g, q[k - 1], #[trigger] q[k]) by {
        if k < q.len() - 1 {
            assert(q[k - 1] == p[k - 1] && q[k] == p[k]);
        } else {
            assert(q[k - 1] == a && q[k] == b);
        }
    }
    assert(sg_path_ok(g, q) && q[0] == start && q.last() == b);
}

/// `t` can be reached from `start` by a walk of at most `d` edges.
pub open spec fn sg_dist_at_most(g: StateGraph, start: usize, t: usize, d: int) -> bool {
    exists|p: Seq<usize>|
        sg_path_ok(g, p) && p[0] == start && p.last() == t && p.len() <= d + 1
}

pub proof fn lemma_sg_dist_refl(g: StateGraph, start: usize)
    ensures
        sg_dist_at_most(g, start, start, 0),
{
    let p = seq![start];
    assert(sg_path_ok(g, p) && p[0] == start && p.last() == start && p.len() <= 1);
}

pub proof fn lemma_sg_dist_extend(g: StateGraph, start: usize, a: usize, b: usize, d: int)
    requires
        sg_dist_at_most(g, start, a, d),
        sg_edge(g, a, b),
    ensures
        sg_dist_at_most(g, start, b, d + 1),
{
    let p = choose|p: Seq<usize>|
        sg_path_ok(g, p) && p[0] == start && p.last() == a && p.len() <= d + 1;
    let q = p.push(b);
    assert forall|k: int| 1 <= k < q.len() implies sg_edge(g, q[k - 1], #[trigger] q[k]) by {
        if k < q.len() - 1 {
            assert(q[k - 1] == p[k - 1] && q[k] == p[k]);
        } else {
            assert(q[k - 1] == a && q[k] == b);
        }
    }
    assert(sg_path_ok(g, q) && q[0] == start && q.last() == b && q.len() <= d + 2);
}

/// Breadth-first lower bound: when a recorded distance map is closed under
/// the graph's edges with a growth of at most one per edge, no walk beats
/// it: the end of every walk from the source is discovered, at a recorded
/// distance no larger than the walk's edge count.
proof fn lemma_bfs_dist_lower(
    g: StateGraph,
    from: usize,
    dist: Map<usize, usize>,
    vis: Set<usize>,
    p: Seq<usize>,
)
    requires
        sg_path_ok(g, p),
        p[0] == from,
        vis.contains(from),
        dist.contains_key(from),
        dist[from] == 0,
        forall|a: usize, b: usize|
            vis.contains(a) && #[trigger] sg_edge(g, a, b) ==> vis.contains(b)
                && dist.contains_key(b) && dist.contains_key(a) && dist[b] <= dist[a] + 1,
    ensures
        vis.contains(p.last()),
        dist.contains_key(p.last()),
        dist[p.last()] <= p.len() - 1,
    decreases p.len(),
{
    if p.len() > 1 {
        let q = p.drop_last();
        assert(sg_path_ok(g, q));
        lemma_bfs_dist_lower(g, from, dist, vis, q);
        assert(sg_edge(g, p[p.len() - 2], p.last()));
    }
}

/// A set of ids that contains the head of a walk and is closed under the
/// graph's edges contains the walk's last id.
proof fn lemma_sg_path_covered(g: StateGraph, vis: Set<usize>, p: Seq<usize>)
    requires
        sg_path_ok(g, p),
        vis.contains(p[0]),
        forall|a: usize, b: usize| vis.contains(a) && #[trigger] sg_edge(g, a, b) ==> vis.contains(
            b,
        ),
    ensures
        vis.contains(p.last()),
    decreases p.len(),
{
    if p.len() > 1 {
        let q = p.drop_last();
        assert(sg_path_ok(g, q));
        lemma_sg_path_covered(g, vis, q);
        assert(sg_edge(g, p[p.len() - 2], p.last()));
    }
}

/// Every node of the graph can be reached from the root, id 0, along
/// recorded edges.
pub open spec fn all_reachable_from_root(g: StateGraph) -> bool {
    forall|i: usize| (i as int) < g.spec_len() ==> #[trigger] sg_reach(g, 0usize, i)
}

/// A walk survives growing the graph: adding nodes or appending edges
/// never removes an edge.
proof fn lemma_sg_reach_monotone(prev: StateGraph, cur: StateGraph, start: usize, t: usize)
    requires
        sg_reach(prev, start, t),
        prev.spec_len() <= cur.spec_len(),
        forall|a: usize, b: usize| #[trigger] sg_edge(prev, a, b) ==> sg_edge(cur, a, b),
    ensures
        sg_reach(cur, start, t),
{
    let p = choose|p: Seq<usize>| sg_path_ok(prev, p) && p[0] == start && p.last() == t;
    assert forall|k: int| 1 <= k < p.len() implies sg_edge(cur, p[k - 1], #[trigger] p[k]) by {
        assert(sg_edge(prev, p[k - 1], p[k]));
    }
    assert(sg_path_ok(cur, p) && p[0] == start && p.last() == t);
}

/// Element-wise equality of two configurations.
fn states_equal(a: &Vec<Cell>, b: &Vec<Cell>) -> (r: bool)
    ensures
        r == (a@ == b@),
{
    if a.len() != b.len() {
        return false;
    }
    let mut i: usize = 0;
    while i < a.len()
        invariant
            a@.len() == b@.len(),
            i <= a@.len(),
            forall|k: int| 0 <= k < i ==> a@[k] == b@[k],
        decreases a@.len() - i,
    {
        if a[i] != b[i] {
            return false;
        }
        i = i + 1;
    }
    proof {
        assert(a@ =~= b@);
    }
    true
}

/// What the boulder's old cell becomes once the boulder is pushed off it:
/// a plain boulder leaves an empty cell, a seated boulder re-exposes the
/// hole.
pub open spec fn vacated(c: Cell) -> Cell {
    if c == Cell::Boulder {
        Cell::Unreachable
    } else if c == Cell::BoulderInHole {
        Cell::Hole
    } else {
        c
    }
}

/// The grid with every transient `Reachable` marker reset to empty, as
/// must happen before the next reachability pass.
pub open spec fn cleared(g: Seq<Cell>) -> Seq<Cell> {
    Seq::new(
        g.len(),
        |i: int| if g[i] == Cell::Reachable {
            Cell::Unreachable
        } else {
            g[i]
        },
    )
}

/// A push of the boulder at `boulder` one step in `dir` is legal: the
/// landing cell and the cell beyond it (where the tractor ends up) are
/// both in bounds and reachable in the current configuration.
pub open spec fn push_legal(g: Seq<Cell>, boulder: int, dir: Direction, size: int) -> bool {
    match step_spec(boulder, dir, size) {
        Some(nb) => g[nb] == Cell::Reachable && (match step_spec(nb, dir, size) {
            Some(nt) => g[nt] == Cell::Reachable,
            None => false,
        }),
        None => false,
    }
}

/// The configuration a legal push produces: the boulder's cell is vacated,
/// the landing cell holds the boulder, stale `Reachable` markers are
/// cleared, and reachability is recomputed from the tractor's new cell.
pub open spec fn push_result(g: Seq<Cell>, boulder: int, dir: Direction, size: int) -> Seq<Cell> {
    match step_spec(boulder, dir, size) {
        Some(nb) => match step_spec(nb, dir, size) {
            Some(nt) => filled(
                cleared(g.update(boulder, vacated(g[boulder])).update(nb, Cell::Boulder)),
                size,
                nt,
            ),
            None => g,
        },
        None => g,
    }
}

/// Attempts to push the boulder at `boulder` one step in `dir`: `None`
/// when the push is illegal, otherwise the configuration it produces.
pub fn extend_state(boulder: usize, dir: Direction, grid: &Vec<Cell>, size: usize) -> (r: Option<
    Vec<Cell>,
>)
    requires
        grid@.len() == size * size,
        size * size <= usize::MAX,
        boulder < grid@.len(),
        grid@[boulder as int] == Cell::Boulder || grid@[boulder as int] == Cell::BoulderInHole,
    ensures
        match r {
            Some(g2) => push_legal(grid@, boulder as int, dir, size as int) && g2@ == push_result(
                grid@,
                boulder as int,
                dir,
                size as int,
            ) && g2@.len() == grid@.len(),
            None => !push_legal(grid@, boulder as int, dir, size as int),
        },
{
    proof {
        assert(size >= 1) by (nonlinear_arith)
            requires
                0 < size * size,
        ;
    }
    if let Some(new_boulder) = move_one(boulder, dir, size) {
        if grid[new_boulder] != Cell::Reachable {
            return None;
        }
        if let Some(new_tractor) = move_one(new_boulder, dir, size) {
            if grid[new_tractor] != Cell::Reachable {
                return None;
            }
            let mut new_grid = grid.clone();
            proof {
                assert(new_grid@ =~= grid@);
            }
            if new_grid[boulder] == Cell::Boulder {
                new_grid.set(boulder, Cell::Unreachable);
            } else if new_grid[boulder] == Cell::BoulderInHole {
                new_grid.set(boulder, Cell::Hole);
            }
            new_grid.set(new_boulder, Cell::Boulder);
            let ghost moved = grid@.update(boulder as int, vacated(grid@[boulder as int])).update(
                new_boulder as int,
                Cell::Boulder,
            );
            proof {
                assert(new_grid@ =~= moved);
            }
            let mut i: usize = 0;
            while i < new_grid.len()
                invariant
                    new_grid@.len() == moved.len(),
                    i <= moved.len(),
                    forall|k: int| 0 <= k < i ==> new_grid@[k] == cleared(moved)[k],
                    forall|k: int| i <= k < moved.len() ==> new_grid@[k] == moved[k],
                decreases moved.len() - i,
            {
                if new_grid[i] == Cell::Reachable {
                    new_grid.set(i, Cell::Unreachable);
                }
                i = i + 1;
            }
            proof {
                assert(new_grid@ =~= cleared(moved));
            }
            fill_reachable_cells(new_tractor, &mut new_grid, size);
            return Some(new_grid);
        }
        return None;
    }
    None
}

/// A legal push from cell `boulder` in direction `dir` lands the boulder
/// on `nb`, the cell one step away, and leaves the tractor on `nt`, the
/// cell one step beyond `nb`, which is reachable in the new configuration.
pub proof fn lemma_push_shape(
    g: Seq<Cell>,
    boulder: int,
    dir: Direction,
    size: int,
    nb: int,
    nt: int,
)
    requires
        size >= 1,
        g.len() == size * size,
        0 <= boulder < g.len(),
        g[boulder] == Cell::Boulder || g[boulder] == Cell::BoulderInHole,
        push_legal(g, boulder, dir, size),
        step_spec(boulder, dir, size) == Some(nb),
        step_spec(nb, dir, size) == Some(nt),
    ensures
        push_result(g, boulder, dir, size).len() == g.len(),
        push_result(g, boulder, dir, size)[nb] == Cell::Boulder,
        push_result(g, boulder, dir, size)[nt] == Cell::Reachable,
{
    lemma_step_in_bounds(boulder, dir, size);
    lemma_step_in_bounds(nb, dir, size);
    lemma_step_values(boulder, dir, size);
    lemma_step_values(nb, dir, size);
    assert(nb != boulder && nt != nb && nt != boulder);
    let moved = g.update(boulder, vacated(g[boulder])).update(nb, Cell::Boulder);
    let cg = cleared(moved);
    assert(cg[nb] == Cell::Boulder);
    assert(moved[nt] == g[nt]);
    assert(cg[nt] == Cell::Unreachable);
    lemma_reach_refl(cg, size, nt);
    assert(push_result(g, boulder, dir, size)[nt] == Cell::Reachable);
    lemma_reach_only_unreachable(cg, size, nt, nb);
    assert(push_result(g, boulder, dir, size)[nb] == cg[nb]);
}

/// The fixed scan order of push directions.
pub open spec fn dir_order(k: int) -> Direction {
    if k == 0 {
        Direction::Up
    } else if k == 1 {
        Direction::Down
    } else if k == 2 {
        Direction::Left
    } else {
        Direction::Right
    }
}

/// The `k`-th direction in the fixed scan order Up, Down, Left, Right.
fn dir_from(k: usize) -> (r: Direction)
    requires
        k < 4,
    ensures
        r == dir_order(k as int),
{
    match k {
        0 => Direction::Up,
        1 => Direction::Down,
        2 => Direction::Left,
        _ => Direction::Right,
    }
}

/// The edge from node `i` to node `t` is explained by a legal push: some
/// boulder cell and scan direction turn configuration `i` into
/// configuration `t`.
pub open spec fn edge_explained(g: StateGraph, i: int, t: int, size: int) -> bool {
    exists|b: int, dk: int|
        0 <= b < g.spec_state(i).len() && 0 <= dk < 4 && (g.spec_state(i)[b] == Cell::Boulder
            || g.spec_state(i)[b] == Cell::BoulderInHole) && push_legal(
            g.spec_state(i),
            b,
            dir_order(dk),
            size,
        ) && g.spec_state(t) == push_result(g.spec_state(i), b, dir_order(dk), size)
}

/// Every recorded edge of `g` is explained by a legal push between its
/// endpoint configurations.
pub open spec fn edges_sound(g: StateGraph, size: int) -> bool {
    forall|i: int, k: int|
        0 <= i < g.spec_len() && 0 <= k < g.spec_neighbors(i).len() ==> edge_explained(
            g,
            i,
            #[trigger] g.spec_neighbors(i)[k] as int,
            size,
        )
}

/// Growing a graph by nodes with empty neighbour lists keeps its edges
/// sound.
proof fn lemma_edges_sound_after_grow(prev: StateGraph, cur: StateGraph, size: int)
    requires
        prev.wf(),
        edges_sound(prev, size),
        prev.spec_len() <= cur.spec_len(),
        forall|i: int|
            0 <= i < prev.spec_len() ==> #[trigger] cur.spec_state(i) == prev.spec_state(i),
        forall|i: int|
            0 <= i < prev.spec_len() ==> #[trigger] cur.spec_neighbors(i) == prev.spec_neighbors(
                i,
            ),
        forall|i: int|
            prev.spec_len() <= i < cur.spec_len() ==> #[trigger] cur.spec_neighbors(i)
                == Seq::<usize>::empty(),
    ensures
        edges_sound(cur, size),
{
    assert forall|i: int, k: int|
        0 <= i < cur.spec_len() && 0 <= k < cur.spec_neighbors(i).len() implies edge_explained(
        cur,
        i,
        #[trigger] cur.spec_neighbors(i)[k] as int,
        size,
    ) by {
        if i >= prev.spec_len() {
            assert(cur.spec_neighbors(i) == Seq::<usize>::empty());
        }
        assert(i < prev.spec_len());
        let tt = prev.spec_neighbors(i)[k] as int;
        assert(edge_explained(prev, i, tt, size));
        let (bb, dd) = choose|bb: int, dd: int|
            0 <= bb < prev.spec_state(i).len() && 0 <= dd < 4 && (prev.spec_state(i)[bb]
                == Cell::Boulder || prev.spec_state(i)[bb] == Cell::BoulderInHole) && push_legal(
                prev.spec_state(i),
                bb,
                dir_order(dd),
                size,
            ) && prev.spec_state(tt) == push_result(prev.spec_state(i), bb, dir_order(dd), size);
        assert(0 <= tt < prev.spec_len());
        assert(cur.spec_state(tt) == prev.spec_state(tt));
        assert(push_legal(cur.spec_state(i), bb, dir_order(dd), size));
        assert(cur.spec_state(tt) == push_result(cur.spec_state(i), bb, dir_order(dd), size));
        assert(edge_explained(cur, i, tt, size));
    }
}

/// Appending one edge that a legal push explains keeps a graph's edges
/// sound.
proof fn lemma_edges_sound_after_connect(
    prev: StateGraph,
    cur: StateGraph,
    st: Seq<Cell>,
    ns: Seq<Cell>,
    size: int,
    b: int,
    dk: int,
)
    requires
        prev.wf(),
        prev.spec_len() <= usize::MAX,
        edges_sound(prev, size),
        prev.spec_contains_state(st),
        prev.spec_contains_state(ns),
        cur.spec_len() == prev.spec_len(),
        forall|i: int|
            0 <= i < prev.spec_len() ==> #[trigger] cur.spec_state(i) == prev.spec_state(i),
        cur.spec_neighbors(prev.spec_id_of(st)) == prev.spec_neighbors(prev.spec_id_of(st)).push(
            prev.spec_id_of(ns) as usize,
        ),
        forall|i: int|
            0 <= i < prev.spec_len() && i != prev.spec_id_of(st)
                ==> #[trigger] cur.spec_neighbors(i) == prev.spec_neighbors(i),
        0 <= b < st.len(),
        0 <= dk < 4,
        st[b] == Cell::Boulder || st[b] == Cell::BoulderInHole,
        push_legal(st, b, dir_order(dk), size),
        ns == push_result(st, b, dir_order(dk), size),
    ensures
        edges_sound(cur, size),
{
    let f = prev.spec_id_of(st);
    let t = prev.spec_id_of(ns);
    assert(0 <= f < prev.spec_len() && prev.spec_state(f) == st);
    assert(0 <= t < prev.spec_len() && prev.spec_state(t) == ns);
    assert forall|i: int, k: int|
        0 <= i < cur.spec_len() && 0 <= k < cur.spec_neighbors(i).len() implies edge_explained(
        cur,
        i,
        #[trigger] cur.spec_neighbors(i)[k] as int,
        size,
    ) by {
        if i == f && k == cur.spec_neighbors(i).len() - 1 {
            assert(cur.spec_neighbors(i)[k] == t as usize);
            assert(cur.spec_state(f) == st && cur.spec_state(t) == ns);
            assert(push_legal(cur.spec_state(i), b, dir_order(dk), size));
            assert(cur.spec_state(t) == push_result(cur.spec_state(i), b, dir_order(dk), size));
            assert(edge_explained(cur, i, t, size));
        } else {
            assert(cur.spec_neighbors(i)[k] == prev.spec_neighbors(i)[k]);
            let tt = prev.spec_neighbors(i)[k] as int;
            assert(edge_explained(prev, i, tt, size));
            let (bb, dd) = choose|bb: int, dd: int|
                0 <= bb < prev.spec_state(i).len() && 0 <= dd < 4 && (prev.spec_state(i)[bb]
                    == Cell::Boulder || prev.spec_state(i)[bb] == Cell::BoulderInHole)
                    && push_legal(prev.spec_state(i), bb, dir_order(dd), size) && prev.spec_state(
                    tt,
                ) == push_result(prev.spec_state(i), bb, dir_order(dd), size);
            assert(0 <= tt < prev.spec_len());
            assert(cur.spec_state(tt) == prev.spec_state(tt));
            assert(push_legal(cur.spec_state(i), bb, dir_order(dd), size));
            assert(cur.spec_state(tt) == push_result(cur.spec_state(i), bb, dir_order(dd), size));
            assert(edge_explained(cur, i, tt, size));
        }
    }
}

/// The graph is closed under pushes: every legal push from a stored
/// configuration produces a configuration the graph already holds.
pub open spec fn push_closed(g: StateGraph, size: int) -> bool {
    forall|i: int, b: int, dk: int|
        0 <= i < g.spec_len() && 0 <= b < g.spec_state(i).len() && 0 <= dk < 4 && (g.spec_state(
            i,
        )[b] == Cell::Boulder || g.spec_state(i)[b] == Cell::BoulderInHole)
            && #[trigger] push_legal(g.spec_state(i), b, dir_order(dk), size)
            ==> g.spec_contains_state(push_result(g.spec_state(i), b, dir_order(dk), size))
}

/// The push of boulder `b` in scan direction `dk` from configuration `s`
/// has not been scanned yet: a worklist frame holds `s` with a scan
/// position at or before it.
spec fn pending(s: Seq<Cell>, frames: Seq<(Vec<Cell>, usize, usize)>, b: int, dk: int) -> bool {
    exists|k: int|
        0 <= k < frames.len() && (#[trigger] frames[k]).0@ == s && (frames[k].1 < b || (
        frames[k].1 == b && frames[k].2 <= dk))
}

/// The graph is closed under every legal push that is not still pending on
/// the worklist.
spec fn closed_except(g: StateGraph, frames: Seq<(Vec<Cell>, usize, usize)>, size: int) -> bool {
    forall|i: int, b: int, dk: int|
        0 <= i < g.spec_len() && 0 <= b < g.spec_state(i).len() && 0 <= dk < 4 && (g.spec_state(
            i,
        )[b] == Cell::Boulder || g.spec_state(i)[b] == Cell::BoulderInHole)
            && #[trigger] push_legal(g.spec_state(i), b, dir_order(dk), size) && !pending(
            g.spec_state(i),
            frames,
            b,
            dk,
        ) ==> g.spec_contains_state(push_result(g.spec_state(i), b, dir_order(dk), size))
}

/// Every worklist frame holds a configuration of the right length that is
/// already registered in the graph, with a valid scan position to resume
/// at.
spec fn frames_ok(g: StateGraph, frames: Seq<(Vec<Cell>, usize, usize)>, size: int) -> bool {
    forall|k: int|
        #![trigger frames[k]]
        0 <= k < frames.len() ==> {
            &&& frames[k].0@.len() == size * size
            &&& g.spec_contains_state(frames[k].0@)
            &&& frames[k].1 <= size * size
            &&& frames[k].2 <= 4
        }
}

/// The scan loop's progress phase: suspension for a newly found
/// configuration ends the scan of the current frame.
spec fn scan_phase(suspended: bool) -> int {
    if suspended {
        0
    } else {
        1
    }
}

/// Explores, depth first, every configuration reachable by pushes from
/// `state`, which must already be registered in `found`, inserting each
/// newly discovered configuration and recording one edge per legal push.
fn handle_next_state(state: Vec<Cell>, size: usize, found: &mut StateGraph)
    requires
        old(found).wf(),
        size * size <= usize::MAX,
        state@.len() == size * size,
        old(found).spec_contains_state(state@),
        old(found).spec_len() <= usize::MAX,
        edges_sound(*old(found), size as int),
        all_reachable_from_root(*old(found)),
        closed_except(*old(found), seq![(state, 0usize, 0usize)], size as int),
        forall|i: int|
            0 <= i < old(found).spec_len() ==> (#[trigger] old(found).spec_state(i)).len() == size
                * size,
    ensures
        final(found).wf(),
        old(found).spec_len() <= final(found).spec_len(),
        final(found).spec_len() <= usize::MAX,
        forall|i: int|
            0 <= i < old(found).spec_len() ==> #[trigger] final(found).spec_state(i) == old(
                found,
            ).spec_state(i),
        forall|i: int|
            0 <= i < final(found).spec_len() ==> (#[trigger] final(found).spec_state(i)).len()
                == size * size,
        edges_sound(*final(found), size as int),
        all_reachable_from_root(*final(found)),
        push_closed(*final(found), size as int),
{
    let ghost found0 = *old(found);
    let mut stack: Vec<(Vec<Cell>, usize, usize)> = Vec::new();
    stack.push((state, 0, 0));
    proof {
        assert(stack@ =~= seq![(state, 0usize, 0usize)]);
    }
    while stack.len() != 0
        invariant
            found.wf(),
            size * size <= usize::MAX,
            found.spec_len() <= usize::MAX,
            found0.spec_len() <= found.spec_len(),
            forall|i: int|
                0 <= i < found0.spec_len() ==> #[trigger] found.spec_state(i) == found0.spec_state(
                    i,
                ),
            forall|i: int|
                0 <= i < found.spec_len() ==> (#[trigger] found.spec_state(i)).len() == size * size,
            frames_ok(*found, stack@, size as int),
            edges_sound(*found, size as int),
            all_reachable_from_root(*found),
            closed_except(*found, stack@, size as int),
        decreases usize::MAX - found.spec_len(), stack@.len(),
    {
        let ghost len_top = found.spec_len();
        let ghost stack_len_top = stack@.len();
        let ghost s_whole = stack@;
        let frame = stack.pop().unwrap();
        let st = frame.0;
        let mut idx: usize = frame.1;
        let mut dir_k: usize = frame.2;
        let mut suspended = false;
        proof {
            assert((st, idx, dir_k) == s_whole.last());
            assert(stack@.push((st, idx, dir_k)) =~= s_whole);
            assert(closed_except(*found, stack@.push((st, idx, dir_k)), size as int));
        }
        while idx < st.len() && !suspended
            invariant
                found.wf(),
                size * size <= usize::MAX,
                found.spec_len() <= usize::MAX,
                found0.spec_len() <= found.spec_len(),
                st@.len() == size * size,
                found.spec_contains_state(st@),
                forall|i: int|
                    0 <= i < found0.spec_len() ==> #[trigger] found.spec_state(i)
                        == found0.spec_state(i),
                forall|i: int|
                    0 <= i < found.spec_len() ==> (#[trigger] found.spec_state(i)).len() == size
                        * size,
                frames_ok(*found, stack@, size as int),
                edges_sound(*found, size as int),
                all_reachable_from_root(*found),
                !suspended ==> closed_except(*found, stack@.push((st, idx, dir_k)), size as int),
                suspended ==> closed_except(*found, stack@, size as int),
                idx <= size * size,
                dir_k <= 4,
                !suspended ==> found.spec_len() == len_top && stack@.len() == stack_len_top - 1,
                suspended ==> found.spec_len() == len_top + 1 && stack@.len() == stack_len_top + 1,
            decreases scan_phase(suspended), st@.len() - idx,
        {
            let ghost idx0 = idx as int;
            let ghost boulder_cell = (st@[idx as int] == Cell::Boulder || st@[idx as int]
                == Cell::BoulderInHole);
            let cell = st[idx];
            if cell == Cell::Boulder || cell == Cell::BoulderInHole {
                while dir_k < 4 && !suspended
                    invariant
                        found.wf(),
                        size * size <= usize::MAX,
                        found.spec_len() <= usize::MAX,
                        found0.spec_len() <= found.spec_len(),
                        st@.len() == size * size,
                        found.spec_contains_state(st@),
                        idx < st@.len(),
                        st@[idx as int] == Cell::Boulder || st@[idx as int] == Cell::BoulderInHole,
                        forall|i: int|
                            0 <= i < found0.spec_len() ==> #[trigger] found.spec_state(i)
                                == found0.spec_state(i),
                        forall|i: int|
                            0 <= i < found.spec_len() ==> (#[trigger] found.spec_state(i)).len()
                                == size * size,
                        frames_ok(*found, stack@, size as int),
                        edges_sound(*found, size as int),
                        all_reachable_from_root(*found),
                        !suspended ==> closed_except(
                            *found,
                            stack@.push((st, idx, dir_k)),
                            size as int,
                        ),
                        suspended ==> closed_except(*found, stack@, size as int),
                        dir_k <= 4,
                        !suspended ==> found.spec_len() == len_top && stack@.len() == stack_len_top
                            - 1,
                        suspended ==> found.spec_len() == len_top + 1 && stack@.len()
                            == stack_len_top + 1,
                    decreases 4 - dir_k,
                {
                    let ghost found_prev = *found;
                    let ghost stack_prev = stack@;
                    let ghost dk0 = dir_k as int;
                    let ghost legal0 = push_legal(st@, idx as int, dir_order(dk0), size as int);
                    let ghost res0 = push_result(st@, idx as int, dir_order(dk0), size as int);
                    let dir = dir_from(dir_k);
                    match extend_state(idx, dir, &st, size) {
                        Some(new_state) => {
                            if found.contains_state(&new_state) {
                                found.connect_states(&st, &new_state);
                                proof {
                                    lemma_edges_sound_after_connect(
                                        found_prev,
                                        *found,
                                        st@,
                                        new_state@,
                                        size as int,
                                        idx as int,
                                        dir_k as int,
                                    );
                                    broadcast use vstd::seq_lib::lemma_seq_contains_after_push;

                                    assert forall|a: usize, b: usize| #[trigger]
                                        sg_edge(found_prev, a, b) implies sg_edge(
                                        *found,
                                        a,
                                        b,
                                    ) by {
                                        if a as int == found_prev.spec_id_of(st@) {
                                            assert(found.spec_neighbors(a as int)
                                                == found_prev.spec_neighbors(a as int).push(
                                                found_prev.spec_id_of(new_state@) as usize,
                                            ));
                                        } else {
                                            assert(found.spec_neighbors(a as int)
                                                == found_prev.spec_neighbors(a as int));
                                        }
                                    }
                                    assert forall|i: usize|
                                        (i as int) < found.spec_len() implies #[trigger] sg_reach(
                                        *found,
                                        0usize,
                                        i,
                                    ) by {
                                        lemma_sg_reach_monotone(found_prev, *found, 0usize, i);
                                    }
                                    assert forall|i: int|
                                        0 <= i < found0.spec_len() implies #[trigger] found.spec_state(
                                        i,
                                    ) == found0.spec_state(i) by {
                                        assert(found.spec_state(i) == found_prev.spec_state(i));
                                    }
                                    assert forall|k: int|
                                        #![trigger stack@[k]]
                                        0 <= k < stack@.len() implies {
                                        &&& stack@[k].0@.len() == size * size
                                        &&& found.spec_contains_state(stack@[k].0@)
                                        &&& stack@[k].1 <= size * size
                                        &&& stack@[k].2 <= 4
                                    } by {
                                        assert(stack@[k] == stack_prev[k]);
                                        assert(found_prev.spec_contains_state(stack_prev[k].0@));
                                    }
                                }
                            } else {
                                let fresh = new_state.clone();
                                proof {
                                    assert(fresh@ =~= new_state@);
                                }
                                found.insert_state(fresh);
                                let ghost found_mid = *found;
                                found.connect_states(&st, &new_state);
                                let resume = st.clone();
                                proof {
                                    assert(resume@ =~= st@);
                                }
                                stack.push((resume, idx, dir_k + 1));
                                stack.push((new_state, 0, 0));
                                suspended = true;
                                proof {
                                    assert forall|i: int|
                                        0 <= i < found_prev.spec_len() implies #[trigger] found_mid.spec_neighbors(
                                        i,
                                    ) == found_prev.spec_neighbors(i) by {
                                        assert(found_mid.spec_state(i) == found_prev.spec_state(
                                            i,
                                        ));
                                    }
                                    assert forall|i: int|
                                        found_prev.spec_len() <= i < found_mid.spec_len() implies #[trigger] found_mid.spec_neighbors(
                                        i,
                                    ) == Seq::<usize>::empty() by {
                                        assert(i == found_prev.spec_len() as int);
                                    }
                                    lemma_edges_sound_after_grow(
                                        found_prev,
                                        found_mid,
                                        size as int,
                                    );
                                    lemma_edges_sound_after_connect(
                                        found_mid,
                                        *found,
                                        st@,
                                        new_state@,
                                        size as int,
                                        idx as int,
                                        dir_k as int,
                                    );
                                    broadcast use vstd::seq_lib::lemma_seq_contains_after_push;

                                    let ghost f = found_mid.spec_id_of(st@);
                                    let ghost t = found_mid.spec_id_of(new_state@);
                                    assert(0 <= t < found_mid.spec_len()
                                        && found_mid.spec_state(t) == new_state@);
                                    assert forall|a: usize, b: usize| #[trigger]
                                        sg_edge(found_prev, a, b) implies sg_edge(
                                        *found,
                                        a,
                                        b,
                                    ) by {
                                        assert(found_mid.spec_neighbors(a as int)
                                            == found_prev.spec_neighbors(a as int));
                                        if a as int == f {
                                            assert(found.spec_neighbors(a as int)
                                                == found_mid.spec_neighbors(a as int).push(
                                                t as usize,
                                            ));
                                        } else {
                                            assert(found.spec_neighbors(a as int)
                                                == found_mid.spec_neighbors(a as int));
                                        }
                                    }
                                    assert forall|i: usize|
                                        (i as int) < found.spec_len() implies #[trigger] sg_reach(
                                        *found,
                                        0usize,
                                        i,
                                    ) by {
                                        if (i as int) < found_prev.spec_len() {
                                            lemma_sg_reach_monotone(
                                                found_prev,
                                                *found,
                                                0usize,
                                                i,
                                            );
                                        } else {
                                            assert(i as int == t);
                                            assert(0 <= f < found_prev.spec_len());
                                            lemma_sg_reach_monotone(
                                                found_prev,
                                                *found,
                                                0usize,
                                                f as usize,
                                            );
                                            assert(found.spec_neighbors(f)
                                                == found_mid.spec_neighbors(f).push(t as usize));
                                            assert(found.spec_neighbors(f).contains(t as usize));
                                            assert(sg_edge(*found, f as usize, t as usize));
                                            lemma_sg_reach_extend(
                                                *found,
                                                0usize,
                                                f as usize,
                                                t as usize,
                                            );
                                        }
                                    }
                                    assert forall|i: int|
                                        0 <= i < found0.spec_len() implies #[trigger] found.spec_state(
                                        i,
                                    ) == found0.spec_state(i) by {
                                        assert(found.spec_state(i) == found_mid.spec_state(i));
                                        assert(found_mid.spec_state(i) == found_prev.spec_state(
                                            i,
                                        ));
                                    }
                                    assert(found_mid.spec_state(found_prev.spec_len() as int)
                                        == new_state@);
                                    assert(found.spec_state(found_prev.spec_len() as int)
                                        == new_state@);
                                    assert(found.spec_contains_state(new_state@));
                                    assert forall|k: int|
                                        #![trigger stack@[k]]
                                        0 <= k < stack@.len() implies {
                                        &&& stack@[k].0@.len() == size * size
                                        &&& found.spec_contains_state(stack@[k].0@)
                                        &&& stack@[k].1 <= size * size
                                        &&& stack@[k].2 <= 4
                                    } by {
                                        if k < stack_prev.len() {
                                            assert(stack@[k] == stack_prev[k]);
                                            assert(found_prev.spec_contains_state(
                                                stack_prev[k].0@,
                                            ));
                                            assert(found_mid.spec_contains_state(
                                                stack_prev[k].0@,
                                            ));
                                        } else if k == stack_prev.len() {
                                            assert(stack@[k].0@ == st@);
                                            assert(found_prev.spec_contains_state(st@));
                                            assert(found_mid.spec_contains_state(st@));
                                        } else {
                                            assert(stack@[k].0@ == new_state@);
                                        }
                                    }
                                }
                            }
                        },
                        None => {},
                    }
                    dir_k = dir_k + 1;
                    proof {
                        if suspended {
                            assert forall|i: int, b: int, dk: int|
                                0 <= i < found.spec_len() && 0 <= b < found.spec_state(i).len()
                                    && 0 <= dk < 4 && (found.spec_state(i)[b] == Cell::Boulder
                                    || found.spec_state(i)[b] == Cell::BoulderInHole)
                                    && #[trigger] push_legal(
                                    found.spec_state(i),
                                    b,
                                    dir_order(dk),
                                    size as int,
                                ) && !pending(
                                    found.spec_state(i),
                                    stack@,
                                    b,
                                    dk,
                                ) implies found.spec_contains_state(
                                push_result(found.spec_state(i), b, dir_order(dk), size as int),
                            ) by {
                                let s0 = found.spec_state(i);
                                assert(stack@[stack@.len() - 2].0@ == st@);
                                assert(stack@[stack@.len() - 1].1 == 0);
                                if i < found_prev.spec_len() {
                                    assert(s0 == found_prev.spec_state(i));
                                    if s0 == st@ {
                                        if b > idx as int || (b == idx as int && dk >= dk0 + 1) {
                                            assert(pending(s0, stack@, b, dk));
                                        } else if b == idx as int && dk == dk0 {
                                            assert(found.spec_contains_state(res0));
                                        } else {
                                            if pending(s0, stack_prev.push((st, idx, dk0 as usize)), b, dk) {
                                                let k = choose|k: int|
                                                    0 <= k < stack_prev.len() + 1 && (#[trigger] stack_prev.push(
                                                        (st, idx, dk0 as usize),
                                                    )[k]).0@ == s0 && (stack_prev.push(
                                                        (st, idx, dk0 as usize),
                                                    )[k].1 < b || (stack_prev.push(
                                                        (st, idx, dk0 as usize),
                                                    )[k].1 == b && stack_prev.push(
                                                        (st, idx, dk0 as usize),
                                                    )[k].2 <= dk));
                                                if k < stack_prev.len() {
                                                    assert(stack@[k] == stack_prev[k]);
                                                    assert(pending(s0, stack@, b, dk));
                                                } else {
                                                    assert(b > idx as int || (b == idx as int
                                                        && dk >= dk0));
                                                }
                                                assert(false);
                                            }
                                            assert(found_prev.spec_contains_state(
                                                push_result(s0, b, dir_order(dk), size as int),
                                            ));
                                        }
                                    } else {
                                        if pending(s0, stack_prev.push((st, idx, dk0 as usize)), b, dk) {
                                            let k = choose|k: int|
                                                0 <= k < stack_prev.len() + 1 && (#[trigger] stack_prev.push(
                                                    (st, idx, dk0 as usize),
                                                )[k]).0@ == s0 && (stack_prev.push(
                                                    (st, idx, dk0 as usize),
                                                )[k].1 < b || (stack_prev.push(
                                                    (st, idx, dk0 as usize),
                                                )[k].1 == b && stack_prev.push(
                                                    (st, idx, dk0 as usize),
                                                )[k].2 <= dk));
                                            assert(k < stack_prev.len());
                                            assert(stack@[k] == stack_prev[k]);
                                            assert(pending(s0, stack@, b, dk));
                                            assert(false);
                                        }
                                        assert(found_prev.spec_contains_state(
                                            push_result(s0, b, dir_order(dk), size as int),
                                        ));
                                    }
                                } else {
                                    assert(s0 == stack@[stack@.len() - 1].0@);
                                    assert(pending(s0, stack@, b, dk));
                                }
                            }
                        } else {
                            assert forall|i: int, b: int, dk: int|
                                0 <= i < found.spec_len() && 0 <= b < found.spec_state(i).len()
                                    && 0 <= dk < 4 && (found.spec_state(i)[b] == Cell::Boulder
                                    || found.spec_state(i)[b] == Cell::BoulderInHole)
                                    && #[trigger] push_legal(
                                    found.spec_state(i),
                                    b,
                                    dir_order(dk),
                                    size as int,
                                ) && !pending(
                                    found.spec_state(i),
                                    stack@.push((st, idx, dir_k)),
                                    b,
                                    dk,
                                ) implies found.spec_contains_state(
                                push_result(found.spec_state(i), b, dir_order(dk), size as int),
                            ) by {
                                let s0 = found.spec_state(i);
                                assert(s0 == found_prev.spec_state(i));
                                if s0 == st@ && b == idx as int && dk == dk0 {
                                    assert(legal0);
                                    assert(found.spec_contains_state(res0));
                                } else {
                                    if pending(s0, stack_prev.push((st, idx, dk0 as usize)), b, dk) {
                                        let k = choose|k: int|
                                            0 <= k < stack_prev.len() + 1 && (#[trigger] stack_prev.push(
                                                (st, idx, dk0 as usize),
                                            )[k]).0@ == s0 && (stack_prev.push(
                                                (st, idx, dk0 as usize),
                                            )[k].1 < b || (stack_prev.push(
                                                (st, idx, dk0 as usize),
                                            )[k].1 == b && stack_prev.push(
                                                (st, idx, dk0 as usize),
                                            )[k].2 <= dk));
                                        if k < stack_prev.len() {
                                            assert(stack@.push((st, idx, dir_k))[k]
                                                == stack_prev[k]);
                                            assert(pending(
                                                s0,
                                                stack@.push((st, idx, dir_k)),
                                                b,
                                                dk,
                                            ));
                                        } else {
                                            assert(s0 == st@);
                                            assert(b > idx as int || (b == idx as int && dk
                                                >= dk0));
                                            assert(stack@.push((st, idx, dir_k)).last() == (
                                            st,
                                            idx,
                                            (dk0 + 1) as usize,
                                            ));
                                            assert(pending(
                                                s0,
                                                stack@.push((st, idx, dir_k)),
                                                b,
                                                dk,
                                            ));
                                        }
                                        assert(false);
                                    }
                                    assert(found_prev.spec_contains_state(
                                        push_result(s0, b, dir_order(dk), size as int),
                                    ));
                                }
                            }
                        }
                    }
                }
            }
            if !suspended {
                let ghost dk_end = dir_k as int;
                idx = idx + 1;
                dir_k = 0;
                proof {
                    let ghost fr_old = (st, idx0 as usize, dk_end as usize);
                    assert forall|i: int, b: int, dk: int|
                        0 <= i < found.spec_len() && 0 <= b < found.spec_state(i).len() && 0 <= dk
                            < 4 && (found.spec_state(i)[b] == Cell::Boulder || found.spec_state(
                            i,
                        )[b] == Cell::BoulderInHole) && #[trigger] push_legal(
                            found.spec_state(i),
                            b,
                            dir_order(dk),
                            size as int,
                        ) && !pending(
                            found.spec_state(i),
                            stack@.push((st, idx, dir_k)),
                            b,
                            dk,
                        ) implies found.spec_contains_state(
                        push_result(found.spec_state(i), b, dir_order(dk), size as int),
                    ) by {
                        let s0 = found.spec_state(i);
                        if s0 == st@ && b == idx0 && dk >= dk_end {
                            if boulder_cell {
                                assert(dk_end == 4);
                            }
                            assert(false);
                        } else {
                            if pending(s0, stack@.push(fr_old), b, dk) {
                                let k = choose|k: int|
                                    0 <= k < stack@.len() + 1 && (#[trigger] stack@.push(
                                        fr_old,
                                    )[k]).0@ == s0 && (stack@.push(fr_old)[k].1 < b || (
                                    stack@.push(fr_old)[k].1 == b && stack@.push(fr_old)[k].2
                                        <= dk));
                                if k < stack@.len() {
                                    assert(stack@.push((st, idx, dir_k))[k] == stack@[k]);
                                    assert(pending(s0, stack@.push((st, idx, dir_k)), b, dk));
                                } else {
                                    assert(s0 == st@);
                                    assert(b > idx0);
                                    assert(stack@.push((st, idx, dir_k)).last() == (
                                    st,
                                    (idx0 + 1) as usize,
                                    0usize,
                                    ));
                                    assert(pending(s0, stack@.push((st, idx, dir_k)), b, dk));
                                }
                                assert(false);
                            }
                            assert(found.spec_contains_state(
                                push_result(s0, b, dir_order(dk), size as int),
                            ));
                        }
                    }
                }
            }
        }
        proof {
            if !suspended {
                assert forall|i: int, b: int, dk: int|
                    0 <= i < found.spec_len() && 0 <= b < found.spec_state(i).len() && 0 <= dk < 4
                        && (found.spec_state(i)[b] == Cell::Boulder || found.spec_state(i)[b]
                        == Cell::BoulderInHole) && #[trigger] push_legal(
                        found.spec_state(i),
                        b,
                        dir_order(dk),
                        size as int,
                    ) && !pending(found.spec_state(i), stack@, b, dk) implies found.spec_contains_state(
                    push_result(found.spec_state(i), b, dir_order(dk), size as int),
                ) by {
                    let s0 = found.spec_state(i);
                    if pending(s0, stack@.push((st, idx, dir_k)), b, dk) {
                        let k = choose|k: int|
                            0 <= k < stack@.len() + 1 && (#[trigger] stack@.push(
                                (st, idx, dir_k),
                            )[k]).0@ == s0 && (stack@.push((st, idx, dir_k))[k].1 < b || (
                            stack@.push((st, idx, dir_k))[k].1 == b && stack@.push(
                                (st, idx, dir_k),
                            )[k].2 <= dk));
                        if k < stack@.len() {
                            assert(pending(s0, stack@, b, dk));
                        } else {
                            assert(s0 == st@);
                            assert(idx >= st@.len());
                            assert(b < s0.len());
                        }
                        assert(false);
                    }
                    assert(found.spec_contains_state(
                        push_result(s0, b, dir_order(dk), size as int),
                    ));
                }
            }
        }
    }
    proof {
        assert forall|i: int, b: int, dk: int|
            0 <= i < found.spec_len() && 0 <= b < found.spec_state(i).len() && 0 <= dk < 4 && (
            found.spec_state(i)[b] == Cell::Boulder || found.spec_state(i)[b]
                == Cell::BoulderInHole) && #[trigger] push_legal(
                found.spec_state(i),
                b,
                dir_order(dk),
                size as int,
            ) implies found.spec_contains_state(
            push_result(found.spec_state(i), b, dir_order(dk), size as int),
        ) by {
            assert(!pending(found.spec_state(i), stack@, b, dk));
        }
    }
}

/// Builds the full graph of configurations reachable by pushes from
/// `initial_state`, which becomes the root, id 0.
fn walk_states_graph_from(initial_state: Vec<Cell>, size: usize) -> (r: StateGraph)
    requires
        initial_state@.len() == size * size,
        size * size <= usize::MAX,
    ensures
        r.wf(),
        r.spec_len() >= 1,
        r.spec_state(0) == initial_state@,
        forall|i: int|
            0 <= i < r.spec_len() ==> (#[trigger] r.spec_state(i)).len() == size * size,
        edges_sound(r, size as int),
        all_reachable_from_root(r),
        push_closed(r, size as int),
{
    let root = initial_state.clone();
    proof {
        assert(root@ =~= initial_state@);
    }
    let mut found = StateGraph::new(root);
    proof {
        assert(found.spec_state(0) == initial_state@);
        assert(found.spec_contains_state(initial_state@));
        assert forall|i: int, k: int|
            0 <= i < found.spec_len() && 0 <= k < found.spec_neighbors(i).len() implies edge_explained(
            found,
            i,
            #[trigger] found.spec_neighbors(i)[k] as int,
            size as int,
        ) by {
            assert(found.spec_neighbors(0) == Seq::<usize>::empty());
        }
        assert forall|i: usize| (i as int) < found.spec_len() implies #[trigger] sg_reach(
            found,
            0usize,
            i,
        ) by {
            assert(i == 0);
            lemma_sg_reach_refl(found, 0usize);
        }
        let ghost start_frames = seq![(initial_state, 0usize, 0usize)];
        assert forall|i: int, b: int, dk: int|
            0 <= i < found.spec_len() && 0 <= b < found.spec_state(i).len() && 0 <= dk < 4 && (
            found.spec_state(i)[b] == Cell::Boulder || found.spec_state(i)[b]
                == Cell::BoulderInHole) && #[trigger] push_legal(
                found.spec_state(i),
                b,
                dir_order(dk),
                size as int,
            ) && !pending(found.spec_state(i), start_frames, b, dk) implies found.spec_contains_state(
            push_result(found.spec_state(i), b, dir_order(dk), size as int),
        ) by {
            assert(i == 0);
            assert(start_frames[0].0@ == found.spec_state(0));
            assert(start_frames[0].1 == 0 && start_frames[0].2 == 0);
            assert(pending(found.spec_state(i), start_frames, b, dk));
            assert(false);
        }
    }
    handle_next_state(initial_state, size, &mut found);
    found
}

/// Explores the whole space of configurations reachable from `grid` with
/// the tractor standing at `tractor`: the tractor's cell is emptied, the
/// reachable cells are marked, and the resulting configuration becomes the
/// root of the returned graph, which then grows by one node per distinct
/// configuration a sequence of legal pushes can produce.
pub fn find_solvable_states(tractor: usize, grid: Vec<Cell>, size: usize) -> (r: StateGraph)
    requires
        grid@.len() == size * size,
        tractor < grid@.len(),
        size * size <= usize::MAX,
    ensures
        r.wf(),
        r.spec_len() >= 1,
        r.spec_state(0) == filled(
            grid@.update(tractor as int, Cell::Unreachable),
            size as int,
            tractor as int,
        ),
        forall|i: int|
            0 <= i < r.spec_len() ==> (#[trigger] r.spec_state(i)).len() == size * size,
        edges_sound(r, size as int),
        all_reachable_from_root(r),
        push_closed(r, size as int),
{
    let mut grid = grid;
    grid.set(tractor, Cell::Unreachable);
    fill_reachable_cells(tractor, &mut grid, size);
    walk_states_graph_from(grid, size)
}

/// No duplicate configurations: two distinct ids of a well-formed graph
/// always hold distinct configurations.
pub proof fn lemma_no_duplicate_states(g: StateGraph, i: int, j: int)
    requires
        g.wf(),
        0 <= i < g.spec_len(),
        0 <= j < g.spec_len(),
        i != j,
    ensures
        g.spec_state(i) != g.spec_state(j),
{
}

/// Id density: the ids of a graph are exactly `0 .. len - 1`, with no
/// gaps.
pub proof fn lemma_id_density(g: StateGraph, id: usize)
    ensures
        g.spec_contains_id(id) <==> (id as int) < g.spec_len(),
{
}

} // verus!
