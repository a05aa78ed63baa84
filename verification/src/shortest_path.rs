use vstd::prelude::*;
use std::collections::HashMap;

verus! {

broadcast use vstd::std_specs::hash::group_hash_axioms;

/// A breadth-first shortest-path tree rooted at a source node id. For
/// every discovered node it records the parent through which the node was
/// first reached and its distance, in edges, from the source.
pub struct ShortestGraph {
    source: usize,
    parent: HashMap<usize, usize>,
    distance: HashMap<usize, usize>,
}

impl ShortestGraph {
    /// The id the tree is rooted at.
    pub closed spec fn spec_source(self) -> usize {
        self.source
    }

    /// The recorded parent of each discovered node other than the source.
    pub closed spec fn spec_parent(self) -> Map<usize, usize> {
        self.parent@
    }

    /// The recorded distance from the source of each discovered node.
    pub closed spec fn spec_distance(self) -> Map<usize, usize> {
        self.distance@
    }

    /// The node has been discovered: the source, or a node inserted later.
    pub open spec fn spec_contains(self, id: usize) -> bool {
        self.spec_distance().contains_key(id)
    }

    /// Well-formed tree: the source is at distance zero and has no parent;
    /// every other discovered node has a discovered parent one edge closer
    /// to the source.
    pub closed spec fn wf(self) -> bool {
        &&& self.distance@.contains_key(self.source)
        &&& self.distance@[self.source] == 0
        &&& self.distance@.dom().finite()
        &&& (forall|c: usize| #[trigger]
            self.parent@.contains_key(c) <==> (self.distance@.contains_key(c) && c
                != self.source))
        &&& (forall|c: usize| #[trigger]
            self.parent@.contains_key(c) ==> self.distance@.contains_key(self.parent@[c])
                && self.distance@[c] == self.distance@[self.parent@[c]] + 1)
        &&& (forall|c: usize| #[trigger]
            self.distance@.contains_key(c) ==> self.distance@[c] < self.distance@.dom().len())
    }

    /// A fresh tree holding only its source, at distance zero.
    pub fn new(source: usize) -> (r: ShortestGraph)
        ensures
            r.wf(),
            r.spec_source() == source,
            r.spec_distance() == Map::<usize, usize>::empty().insert(source, 0usize),
            r.spec_parent() == Map::<usize, usize>::empty(),
    {
        let mut distance: HashMap<usize, usize> = HashMap::new();
        distance.insert(source, 0);
        let r = ShortestGraph { source, parent: HashMap::new(), distance };
        proof {
            assert(r.distance@.dom() =~= Set::<usize>::empty().insert(source));
        }
        r
    }

    /// Records that `child` was first reached over the edge from `parent`.
    pub fn insert(&mut self, parent: &usize, child: usize)
        requires
            old(self).wf(),
            old(self).spec_contains(*parent),
            !old(self).spec_contains(child),
        ensures
            final(self).wf(),
            final(self).spec_source() == old(self).spec_source(),
            final(self).spec_parent() == old(self).spec_parent().insert(child, *parent),
            final(self).spec_distance() == old(self).spec_distance().insert(
                child,
                (old(self).spec_distance()[*parent] + 1) as usize,
            ),
    {
        let d = *self.distance.get(parent).unwrap();
        proof {
            assert(vstd::std_specs::hash::spec_hash_map_len(&self.distance)
                == self.distance@.len());
            assert(self.distance@.len() == self.distance@.dom().len());
            assert(d < self.distance@.dom().len());
        }
        let dc = d + 1;
        self.distance.insert(child, dc);
        self.parent.insert(child, *parent);
        proof {
            assert(self.distance@.dom() =~= old(self).distance@.dom().insert(child));
        }
    }

    /// The id the tree is rooted at.
    pub fn source(&self) -> (r: usize)
        ensures
            r == self.spec_source(),
    {
        self.source
    }

    /// Whether `id` has been discovered.
    pub fn contains(&self, id: &usize) -> (r: bool)
        ensures
            r == self.spec_contains(*id),
    {
        self.distance.contains_key(id)
    }

    /// The parent over which `id` was first reached, if `id` was discovered
    /// and is not the source.
    pub fn get_parent(&self, id: &usize) -> (r: Option<usize>)
        ensures
            match r {
                Some(p) => self.spec_parent().contains_key(*id) && p == self.spec_parent()[*id],
                None => !self.spec_parent().contains_key(*id),
            },
    {
        match self.parent.get(id) {
            Some(p) => Some(*p),
            None => None,
        }
    }

    /// The recorded distance of `id` from the source, if `id` was
    /// discovered.
    pub fn get_distance(&self, id: &usize) -> (r: Option<usize>)
        ensures
            match r {
                Some(d) => self.spec_distance().contains_key(*id) && d == self.spec_distance()[*id],
                None => !self.spec_distance().contains_key(*id),
            },
    {
        match self.distance.get(id) {
            Some(d) => Some(*d),
            None => None,
        }
    }

    /// How many nodes have been discovered, the source included.
    pub fn len(&self) -> (r: usize)
        ensures
            r == self.spec_distance().len(),
    {
        self.distance.len()
    }
}

/// Recorded distances are bounded by the number of discovered nodes.
pub proof fn lemma_distance_bounded(t: ShortestGraph, c: usize)
    requires
        t.wf(),
        t.spec_contains(c),
    ensures
        t.spec_distance()[c] < t.spec_distance().dom().len(),
{
}

/// The source of a well-formed tree is discovered, at distance zero, and
/// has no recorded parent.
pub proof fn lemma_source_distance(t: ShortestGraph)
    requires
        t.wf(),
    ensures
        t.spec_contains(t.spec_source()),
        t.spec_distance()[t.spec_source()] == 0,
        !t.spec_parent().contains_key(t.spec_source()),
{
}

/// Every discovered node other than the source has a discovered parent and
/// sits exactly one edge further from the source than that parent.
pub proof fn lemma_parent_distance(t: ShortestGraph, c: usize)
    requires
        t.wf(),
        t.spec_contains(c),
        c != t.spec_source(),
    ensures
        t.spec_parent().contains_key(c),
        t.spec_contains(t.spec_parent()[c]),
        t.spec_distance()[c] == t.spec_distance()[t.spec_parent()[c]] + 1,
{
}

} // verus!
