//! The store of regions already advanced, keyed by their whole content.
use vstd::prelude::*;
use crate::cell::Cell;
use crate::grid::next_generation;
use crate::node::{Node, node_eq};

verus! {

/// Maps regions, compared by content, to their next generation.
///
/// Only correct entries get in: `put` asks for the next generation of the
/// region, so a hit can be handed out as the answer. Entries stay until
/// `clear` is called.
pub struct EvolutionCache {
    entries: Vec<(Node, Vec<Cell>)>,
    contents: Ghost<Map<Node, Seq<Cell>>>,
}

impl View for EvolutionCache {
    type V = Map<Node, Seq<Cell>>;

    closed spec fn view(&self) -> Map<Node, Seq<Cell>> {
        self.contents@
    }
}

impl EvolutionCache {
    /// The entries are exactly the contents, and each maps a well-formed
    /// region of side at least 4 to its next generation.
    pub closed spec fn wf(&self) -> bool {
        &&& self.contents@.dom().finite()
        &&& self.entries@.len() == self.contents@.len()
        &&& forall|i: int| 0 <= i < self.entries@.len() ==>
            self.contents@.contains_key(#[trigger] self.entries@[i].0)
                && self.contents@[self.entries@[i].0] == self.entries@[i].1@
        &&& forall|k: Node| #[trigger] self.contents@.contains_key(k) ==>
            exists|i: int| 0 <= i < self.entries@.len() && self.entries@[i].0 == k
        &&& forall|k: Node| #[trigger] self.contents@.contains_key(k) ==>
            k.wf() && k.side() >= 4 && self.contents@[k] == next_generation(k.cells(), k.side())
    }

    /// Every entry is the next generation of a well-formed region of side
    /// at least 4.
    pub proof fn lemma_entry(&self, k: Node)
        requires
            self.wf(),
            self@.contains_key(k),
        ensures
            k.wf(),
            k.side() >= 4,
            self@[k] == next_generation(k.cells(), k.side()),
    {
    }

    /// An empty cache.
    pub fn new() -> (c: EvolutionCache)
        ensures
            c.wf(),
            c@ == Map::<Node, Seq<Cell>>::empty(),
    {
        EvolutionCache { entries: Vec::new(), contents: Ghost(Map::empty()) }
    }

    /// The number of regions stored, one for each region that was computed
    /// rather than found.
    pub fn len(&self) -> (n: usize)
        requires
            self.wf(),
        ensures
            n == self@.len(),
    {
        self.entries.len()
    }

    /// The place of the entry for the content of `node`, if there is one.
    fn find(&self, node: &Node) -> (r: Option<usize>)
        requires
            self.wf(),
        ensures
            match r {
                Some(i) => i < self.entries@.len() && self.entries@[i as int].0 == *node,
                None => !self@.contains_key(*node),
            },
    {
        let mut i: usize = 0;
        while i < self.entries.len()
            invariant
                self.wf(),
                i <= self.entries@.len(),
                forall|j: int| 0 <= j < i ==> self.entries@[j].0 != *node,
            decreases self.entries@.len() - i,
        {
            if node_eq(&self.entries[i].0, node) {
                return Some(i);
            }
            i = i + 1;
        }
        None
    }

    /// The stored next generation of a region with the content of `node`.
    pub fn get(&self, node: &Node) -> (r: Option<Vec<Cell>>)
        requires
            self.wf(),
        ensures
            match r {
                Some(v) => self@.contains_key(*node) && v@ == self@[*node],
                None => !self@.contains_key(*node),
            },
    {
        match self.find(node) {
            Some(i) => Some(copy_cells(&self.entries[i].1)),
            None => None,
        }
    }

    /// Stores `v` as the next generation of `node`, replacing what was stored
    /// for that content.
    pub fn put(&mut self, node: Node, v: Vec<Cell>)
        requires
            old(self).wf(),
            node.wf(),
            node.side() >= 4,
            v@ == next_generation(node.cells(), node.side()),
        ensures
            final(self).wf(),
            final(self)@ == old(self)@.insert(node, v@),
    {
        let ghost key = node;
        let ghost value = v@;
        match self.find(&node) {
            Some(i) => {
                self.entries.set(i, (node, v));
                assert(self.contents@.dom().insert(key) =~= self.contents@.dom());
                self.contents = Ghost(self.contents@.insert(key, value));
                assert(self.entries@[i as int].0 == key);
            },
            None => {
                self.entries.push((node, v));
                self.contents = Ghost(self.contents@.insert(key, value));
                assert(self.entries@[self.entries@.len() - 1].0 == key);
            },
        }
        assert forall|k: Node| #[trigger] self.contents@.contains_key(k) && k != key implies
            exists|i: int| 0 <= i < self.entries@.len() && self.entries@[i].0 == k by {
            let i = choose|i: int| 0 <= i < old(self).entries@.len() && old(self).entries@[i].0 == k;
            assert(self.entries@[i].0 == k);
        }
    }

    /// Drops every entry.
    pub fn clear(&mut self)
        ensures
            final(self).wf(),
            final(self)@ == Map::<Node, Seq<Cell>>::empty(),
    {
        self.entries = Vec::new();
        self.contents = Ghost(Map::empty());
    }
}

/// A copy of a board.
pub fn copy_cells(v: &Vec<Cell>) -> (r: Vec<Cell>)
    ensures
        r@ == v@,
{
    let mut r: Vec<Cell> = Vec::new();
    let mut i: usize = 0;
    while i < v.len()
        invariant
            i <= v@.len(),
            r@ == v@.subrange(0, i as int),
        decreases v@.len() - i,
    {
        r.push(v[i]);
        i = i + 1;
        assert(r@ =~= v@.subrange(0, i as int));
    }
    assert(r@ =~= v@);
    r
}

} // verus!
