//! The ledger: blocks are accepted one at a time, each only after the
//! blocks it builds on, and each only with an authentic signature.

use crate::tangle::block::BlockView;
use crate::tangle::block::TangleBlock;
use crate::tangle::canonical::ids_of;
use crate::tangle::graph::children_in;
use crate::tangle::graph::Graph;
use crate::tangle::ledger::ids_in;
use crate::tangle::ledger::lemma_accept_keeps_sound;
use crate::tangle::ledger::lemma_accept_keeps_tidy;
use crate::tangle::ledger::lemma_first_absent;
use crate::tangle::ledger::lemma_list_counts_store;
use crate::tangle::ledger::lemma_list_replays;
use crate::tangle::ledger::lemma_replay_is_tidy;
use crate::tangle::ledger::lemma_replay_push;
use crate::tangle::ledger::linked;
use crate::tangle::ledger::replaced;
use crate::tangle::ledger::same_id_same_parents;
use crate::tangle::ledger::LedgerView;
use vstd::hash_map::StringHashMap;
use vstd::hash_set::StringHashSet;
use vstd::prelude::*;

verus! {

/// Why a block was not accepted.
#[derive(Debug)]
pub enum TangleError {
    /// No block is stored under this parent, the first such parent of the block.
    MissingParent(String),
    /// The block's public key does not accept the block's signature.
    InvalidSignature,
}

/// The blocks of a vector as mathematical values.
pub open spec fn views_of(blocks: Seq<TangleBlock>) -> Seq<BlockView> {
    Seq::new(blocks.len(), |i: int| blocks[i]@)
}

/// The ledger.
///
/// It keeps one block under each identifier it has accepted, in the order
/// in which the identifiers were first accepted, and finds a block by its
/// identifier. The children of each block are kept in a graph that only
/// the ledger fills.
pub struct Tangle {
    graph: Graph,
    index: StringHashMap<usize>,
    accepted: Vec<TangleBlock>,
}

impl View for Tangle {
    type V = LedgerView;

    closed spec fn view(&self) -> LedgerView {
        LedgerView {
            stored: views_of(self.accepted@),
            blocks: Map::new(
                |id: Seq<char>| self.index@.contains_key(id),
                |id: Seq<char>| self.accepted@[self.index@[id] as int]@,
            ),
            edges: self.graph@.edges,
        }
    }
}

impl Tangle {
    /// The index leads from each identifier to the place of its block, and
    /// the ledger is sound.
    pub closed spec fn wf(&self) -> bool {
        &&& self.graph.wf()
        &&& self.index@.dom().finite()
        &&& forall|i: int|
            0 <= i < self.accepted@.len() ==> self.index@.contains_key((#[trigger] self.accepted@[i])@.id)
                && self.index@[self.accepted@[i]@.id] == i
        &&& forall|id: Seq<char>| #[trigger]
            self.index@.contains_key(id) ==> self.index@[id] < self.accepted@.len()
                && self.accepted@[self.index@[id] as int]@.id == id
        &&& self@.is_sound()
    }

    /// A well-formed ledger is sound.
    pub proof fn lemma_sound(&self)
        requires
            self.wf(),
        ensures
            self@.is_sound(),
    {
    }

    /// Referential integrity: in a well-formed ledger a block is stored
    /// under every parent of a stored block. In a tidy ledger every parent
    /// of a stored block stands before it in the list.
    pub proof fn lemma_referential_integrity(&self)
        requires
            self.wf(),
        ensures
            self@.is_closed(),
            self@.is_tidy() ==> self@.is_ordered(),
    {
    }

    /// Round trip: a ledger built from the snapshot of a well-formed and
    /// tidy ledger is that ledger. It stores the same blocks under the same
    /// identifiers and records the same children. A ledger is tidy as long
    /// as no block was replaced by one that names other parents.
    pub proof fn lemma_round_trip(&self, saved: Seq<TangleBlock>, restored: &Tangle)
        requires
            self.wf(),
            self@.is_tidy(),
            views_of(saved) == self@.stored,
            restored@ == LedgerView::replay(views_of(saved)),
        ensures
            restored@ == self@,
    {
        lemma_list_replays(self@);
    }

    /// The ledger that has accepted nothing.
    pub fn new() -> (tangle: Tangle)
        ensures
            tangle.wf(),
            tangle@ == LedgerView::empty(),
            tangle@.is_tidy(),
    {
        let tangle = Tangle { graph: Graph::new(), index: StringHashMap::new(), accepted: Vec::new() };
        proof {
            assert(tangle@.stored =~= Seq::<BlockView>::empty());
            assert(tangle@.blocks =~= Map::<Seq<char>, BlockView>::empty());
            assert(tangle@.edges.dom() =~= tangle@.blocks.dom());
        }
        tangle
    }

    /// The first of `parents` under which the ledger stores no block.
    pub fn first_missing_parent(&self, parents: &Vec<String>) -> (missing: Option<String>)
        ensures
            match missing {
                Some(parent) => self@.first_absent(ids_of(parents@)) == Some(parent@),
                None => self@.first_absent(ids_of(parents@)) is None,
            },
    {
        let ghost ids = ids_of(parents@);
        let count = parents.len();
        let mut i: usize = 0;
        proof {
            assert(ids.skip(0) =~= ids);
        }
        while i < count
            invariant
                count == parents@.len(),
                i <= count,
                ids == ids_of(parents@),
                self@.first_absent(ids) == self@.first_absent(ids.skip(i as int)),
            decreases count - i,
        {
            proof {
                assert(ids.skip(i as int).first() == parents@[i as int]@);
                assert(ids.skip(i as int).drop_first() =~= ids.skip(i as int + 1));
            }
            if !self.index.contains_key(parents[i].as_str()) {
                return Some(parents[i].clone());
            }
            i += 1;
        }
        None
    }

    /// Records `child` in the graph as a node and as a child of each of
    /// `parents`.
    fn link(&mut self, parents: &Vec<String>, child: &String)
        requires
            old(self).graph.wf(),
        ensures
            final(self).graph.wf(),
            final(self).index == old(self).index,
            final(self).accepted == old(self).accepted,
            final(self).graph@.edges == linked(old(self).graph@.edges, ids_of(parents@), child@),
    {
        let ghost before = self.graph@.edges;
        let ghost ids = ids_of(parents@);
        self.graph.add_node(child.clone());
        let count = parents.len();
        let mut i: usize = 0;
        proof {
            assert(ids.take(0) =~= Seq::<Seq<char>>::empty());
            assert(self.graph@.edges =~= linked(before, ids.take(0), child@));
        }
        while i < count
            invariant
                count == parents@.len(),
                i <= count,
                ids == ids_of(parents@),
                self.graph.wf(),
                self.index == old(self).index,
                self.accepted == old(self).accepted,
                self.graph@.edges == linked(before, ids.take(i as int), child@),
            decreases count - i,
        {
            let ghost linked_before = self.graph@.edges;
            self.graph.add_edge(parents[i].clone(), child.clone());
            proof {
                let parent = ids[i as int];
                assert(ids.take(i as int + 1) =~= ids.take(i as int).push(parent));
                assert forall|other: Seq<char>|
                    ids.take(i as int + 1).contains(other) <==> (ids.take(i as int).contains(other) || other
                        == parent) by {
                    if ids.take(i as int).contains(other) {
                        let k = choose|k: int| 0 <= k < i && ids.take(i as int)[k] == other;
                        assert(ids.take(i as int + 1)[k] == other);
                    }
                    if other == parent {
                        assert(ids.take(i as int + 1)[i as int] == other);
                    }
                }
                let target = linked(before, ids.take(i as int + 1), child@);
                assert(self.graph@.edges == linked_before.insert(
                    parent,
                    children_in(linked_before, parent).insert(child@),
                ));
                assert forall|key: Seq<char>| target.contains_key(key) implies self.graph@.edges.contains_key(key)
                    && #[trigger] self.graph@.edges[key] =~= target[key] by {
                    if key == parent {
                        assert(children_in(linked_before, parent).insert(child@) =~= children_in(
                            before,
                            parent,
                        ).insert(child@));
                    }
                }
                assert(self.graph@.edges =~= target);
            }
            i += 1;
        }
        proof {
            assert(ids.take(count as int) =~= ids);
        }
    }

    /// Stores a block that the ledger admits.
    fn record(&mut self, block: TangleBlock)
        requires
            old(self).wf(),
            old(self)@.admits(block@),
        ensures
            final(self).wf(),
            final(self)@ == old(self)@.accept(block@),
    {
        let ghost before = self@;
        let ghost entry = block@;
        let id = block.id.clone();
        self.link(&block.parents, &id);
        let known = match self.index.get(id.as_str()) {
            Some(at) => Some(*at),
            None => None,
        };
        match known {
            Some(at) => {
                self.accepted[at] = block;
                proof {
                    assert forall|i: int| 0 <= i < self.accepted@.len() implies (#[trigger] self.accepted@[i])@.id
                        == old(self).accepted@[i]@.id by {
                        if i != at {
                            assert(self.accepted@[i] == old(self).accepted@[i]);
                        }
                    }
                    assert(self@.stored =~= replaced(before.stored, entry)) by {
                        assert forall|i: int| 0 <= i < before.stored.len() implies #[trigger] self@.stored[i]
                            == replaced(before.stored, entry)[i] by {
                            assert(old(self).index@[old(self).accepted@[i]@.id] == i);
                            if i != at {
                                assert(self.accepted@[i] == old(self).accepted@[i]);
                            }
                        }
                    }
                }
            },
            None => {
                let at = self.accepted.len();
                self.index.insert(id, at);
                self.accepted.push(block);
                proof {
                    assert(self@.stored =~= before.stored.push(entry));
                    assert forall|k: int| 0 <= k < self.accepted@.len() implies self.index@.contains_key(
                        (#[trigger] self.accepted@[k])@.id,
                    ) && self.index@[self.accepted@[k]@.id] == k by {
                        if k < at {
                            assert(self.accepted@[k] == old(self).accepted@[k]);
                        }
                    }
                }
            },
        }
        proof {
            let after = self@;
            let target = before.accept(entry);
            assert(after.stored == target.stored);
            assert(after.blocks =~= target.blocks) by {
                assert forall|key: Seq<char>| after.blocks.contains_key(key) implies #[trigger] after.blocks[key]
                    == target.blocks[key] by {
                    if key != entry.id {
                        assert(old(self).index@.contains_key(key));
                        assert(old(self).accepted@[old(self).index@[key] as int]@.id == key);
                    }
                }
            }
            assert(after.edges == target.edges);
            lemma_accept_keeps_sound(before, entry);
        }
    }

    /// Offers a block whose signature has been judged: `authentic` says
    /// whether the block's public key accepts it.
    ///
    /// The parents are looked up in their order, and the first one that is
    /// not stored is reported. If all are stored, the block is accepted or
    /// refused as `authentic` says. An accepted block is stored under the
    /// identifier it declares, in place of any block stored there before,
    /// and recorded as a child of each of its parents. A refused block
    /// changes nothing.
    pub fn insert_with_verdict(&mut self, block: TangleBlock, authentic: bool) -> (result: Result<(), TangleError>)
        requires
            old(self).wf(),
            authentic ==> block@.is_authentic(),
        ensures
            final(self).wf(),
            match result {
                Ok(_) => old(self)@.has_all(block@.parents) && authentic && final(self)@ == old(self)@.accept(
                    block@,
                ),
                Err(TangleError::MissingParent(parent)) => !old(self)@.has_all(block@.parents) && old(
                    self,
                )@.first_absent(block@.parents) == Some(parent@) && final(self)@ == old(self)@,
                Err(TangleError::InvalidSignature) => old(self)@.has_all(block@.parents) && !authentic
                    && final(self)@ == old(self)@,
            },
            old(self)@.is_tidy() && old(self)@.keeps_parents(block@) ==> final(self)@.is_tidy(),
    {
        proof {
            lemma_first_absent(self@, block@.parents);
        }
        if let Some(parent) = self.first_missing_parent(&block.parents) {
            return Err(TangleError::MissingParent(parent));
        }
        if !authentic {
            return Err(TangleError::InvalidSignature);
        }
        proof {
            if self@.is_tidy() && self@.keeps_parents(block@) {
                lemma_accept_keeps_tidy(self@, block@);
            }
        }
        self.record(block);
        Ok(())
    }

    /// Offers a block to the ledger.
    ///
    /// The parents are looked up in their order, and the first one that is
    /// not stored is reported. Only if all are stored is the signature
    /// checked, against the block's own public key, parents and payload;
    /// the identifier that the block declares is taken as it is. A block
    /// that passes both is stored under its identifier, in place of any
    /// block stored there before, and recorded as a child of each of its
    /// parents. A refused block changes nothing.
    pub fn insert(&mut self, block: TangleBlock) -> (result: Result<(), TangleError>)
        requires
            old(self).wf(),
        ensures
            final(self).wf(),
            match result {
                Ok(_) => old(self)@.has_all(block@.parents) && block@.is_authentic() && final(self)@ == old(
                    self,
                )@.accept(block@),
                Err(TangleError::MissingParent(parent)) => !old(self)@.has_all(block@.parents) && old(
                    self,
                )@.first_absent(block@.parents) == Some(parent@) && final(self)@ == old(self)@,
                Err(TangleError::InvalidSignature) => old(self)@.has_all(block@.parents) && !block@.is_authentic()
                    && final(self)@ == old(self)@,
            },
            final(self)@ == old(self)@.step(block@),
            old(self)@.is_tidy() && old(self)@.keeps_parents(block@) ==> final(self)@.is_tidy(),
    {
        proof {
            lemma_first_absent(self@, block@.parents);
        }
        if let Some(parent) = self.first_missing_parent(&block.parents) {
            return Err(TangleError::MissingParent(parent));
        }
        let authentic = block.verify();
        self.insert_with_verdict(block, authentic)
    }

    /// The stored blocks, each once, in the order in which their
    /// identifiers were first accepted: what has to be kept to build the
    /// ledger again.
    pub fn snapshot(&self) -> (blocks: &Vec<TangleBlock>)
        requires
            self.wf(),
        ensures
            views_of(blocks@) == self@.stored,
            blocks@.len() == self@.blocks.dom().len(),
            ids_in(views_of(blocks@)).no_duplicates(),
            ids_in(views_of(blocks@)).to_set() == self@.blocks.dom(),
            forall|i: int|
                0 <= i < blocks@.len() ==> self@.blocks.contains_key((#[trigger] blocks@[i])@.id)
                    && self@.blocks[blocks@[i]@.id] == blocks@[i]@,
    {
        proof {
            lemma_list_counts_store(self@);
        }
        &self.accepted
    }

    /// Builds a ledger by offering `blocks` to the empty ledger, in their
    /// order. A block that is refused is dropped, and so is every later
    /// block that builds on it.
    pub fn restore(blocks: Vec<TangleBlock>) -> (tangle: Tangle)
        ensures
            tangle.wf(),
            tangle@ == LedgerView::replay(views_of(blocks@)),
            same_id_same_parents(views_of(blocks@)) ==> tangle@.is_tidy(),
    {
        let mut tangle = Tangle::new();
        let ghost all = views_of(blocks@);
        proof {
            assert(all.take(0) =~= Seq::<BlockView>::empty());
        }
        for block in it: blocks.into_iter()
            invariant
                tangle.wf(),
                views_of(it.seq()) == all,
                tangle@ == LedgerView::replay(all.take(it.index() as int)),
        {
            proof {
                assert(all.take(it.index() + 1) =~= all.take(it.index() as int).push(block@));
                lemma_replay_push(all.take(it.index() as int), block@);
            }
            let _ = tangle.insert(block);
        }
        proof {
            assert(all.take(all.len() as int) =~= all);
            if same_id_same_parents(all) {
                lemma_replay_is_tidy(all);
            }
        }
        tangle
    }

    /// One line for each stored block, in the order in which the
    /// identifiers were first accepted: as many lines as blocks are stored,
    /// each the label of its block.
    pub fn describe(&self) -> (lines: Vec<String>)
        requires
            self.wf(),
        ensures
            lines@.len() == self@.stored.len(),
            lines@.len() == self@.blocks.dom().len(),
            forall|i: int| 0 <= i < lines@.len() ==> (#[trigger] lines@[i])@ == self@.stored[i].label(),
    {
        proof {
            lemma_list_counts_store(self@);
        }
        let mut lines: Vec<String> = Vec::new();
        let count = self.accepted.len();
        let mut i: usize = 0;
        while i < count
            invariant
                count == self.accepted@.len(),
                i <= count,
                lines@.len() == i,
                forall|k: int| 0 <= k < i ==> (#[trigger] lines@[k])@ == self@.stored[k].label(),
            decreases count - i,
        {
            lines.push(self.accepted[i].label());
            i += 1;
        }
        lines
    }

    /// The block stored under `id`.
    pub fn get(&self, id: &str) -> (found: Option<&TangleBlock>)
        requires
            self.wf(),
        ensures
            match found {
                Some(block) => self@.blocks.contains_key(id@) && block@ == self@.blocks[id@],
                None => !self@.blocks.contains_key(id@),
            },
    {
        match self.index.get(id) {
            Some(at) => Some(&self.accepted[*at]),
            None => None,
        }
    }

    /// The number of blocks stored.
    pub fn len(&self) -> (count: usize)
        requires
            self.wf(),
        ensures
            count == self@.blocks.dom().len(),
            count == self@.stored.len(),
            self@.blocks.dom().finite(),
    {
        proof {
            assert(self@.blocks.dom() =~= self.index@.dom());
            lemma_list_counts_store(self@);
        }
        self.index.len()
    }

    /// The blocks that name `id` as a parent, if a block is stored under `id`.
    pub fn children(&self, id: &str) -> (found: Option<&StringHashSet>)
        requires
            self.wf(),
        ensures
            match found {
                Some(set) => self@.blocks.contains_key(id@) && set@ == self@.edges[id@],
                None => !self@.blocks.contains_key(id@),
            },
    {
        proof {
            assert(self@.edges.dom().contains(id@) <==> self@.blocks.dom().contains(id@));
        }
        self.graph.children(id)
    }
}

} // verus!
