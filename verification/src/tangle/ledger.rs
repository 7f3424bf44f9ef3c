//! The ledger as a mathematical value, and the rules by which it grows.
//!
//! A ledger holds one block under each identifier it has accepted. It lists
//! the stored blocks in the order in which their identifiers were first
//! accepted, and records the children of each block. A block is accepted
//! when every parent it names is stored and its signature is authentic;
//! accepting is the only change there is.

use crate::tangle::block::BlockView;
use crate::tangle::graph::children_in;
use vstd::prelude::*;

verus! {

/// The adjacency map after `child` has been made a node and a child of each
/// of `parents`.
pub open spec fn linked(
    edges: Map<Seq<char>, Set<Seq<char>>>,
    parents: Seq<Seq<char>>,
    child: Seq<char>,
) -> Map<Seq<char>, Set<Seq<char>>> {
    Map::new(
        |id: Seq<char>| edges.contains_key(id) || id == child || parents.contains(id),
        |id: Seq<char>|
            if parents.contains(id) {
                children_in(edges, id).insert(child)
            } else {
                children_in(edges, id)
            },
    )
}

/// The identifiers of the blocks of a sequence.
pub open spec fn ids_in(blocks: Seq<BlockView>) -> Seq<Seq<char>> {
    Seq::new(blocks.len(), |i: int| blocks[i].id)
}

/// The sequence in which `block` stands wherever a block of its identifier
/// stood.
pub open spec fn replaced(blocks: Seq<BlockView>, block: BlockView) -> Seq<BlockView> {
    Seq::new(
        blocks.len(),
        |i: int|
            if blocks[i].id == block.id {
                block
            } else {
                blocks[i]
            },
    )
}

/// No two blocks of the sequence have one identifier.
pub open spec fn distinct_ids(blocks: Seq<BlockView>) -> bool {
    forall|i: int, j: int|
        0 <= i < j < blocks.len() ==> (#[trigger] blocks[i]).id != (#[trigger] blocks[j]).id
}

/// One of the first `upto` blocks of the sequence has the identifier `id`.
pub open spec fn stands_before(blocks: Seq<BlockView>, id: Seq<char>, upto: int) -> bool {
    exists|j: int| 0 <= j < upto && j < blocks.len() && (#[trigger] blocks[j]).id == id
}

/// Every parent of a block of the sequence is the identifier of a block
/// that stands earlier in the sequence.
pub open spec fn parents_come_first(blocks: Seq<BlockView>) -> bool {
    forall|i: int, k: int|
        0 <= i < blocks.len() && 0 <= k < blocks[i].parents.len() ==> #[trigger] stands_before(
            blocks,
            blocks[i].parents[k],
            i,
        )
}

/// Every block of the sequence carries an authentic signature.
pub open spec fn all_authentic(blocks: Seq<BlockView>) -> bool {
    forall|i: int| 0 <= i < blocks.len() ==> (#[trigger] blocks[i]).is_authentic()
}

/// Blocks of the sequence that have one identifier name the same parents.
pub open spec fn same_id_same_parents(blocks: Seq<BlockView>) -> bool {
    forall|i: int, j: int|
        0 <= i < blocks.len() && 0 <= j < blocks.len() && (#[trigger] blocks[i]).id == (#[trigger] blocks[j]).id
            ==> blocks[i].parents == blocks[j].parents
}

/// A block of the sequence has the identifier `child` and names `parent` as
/// one of its parents.
pub open spec fn names_parent(blocks: Seq<BlockView>, parent: Seq<char>, child: Seq<char>) -> bool {
    exists|i: int| 0 <= i < blocks.len() && (#[trigger] blocks[i]).id == child && blocks[i].parents.contains(parent)
}

/// A ledger as a mathematical value.
pub struct LedgerView {
    /// The stored blocks, in the order in which their identifiers were
    /// first accepted.
    pub stored: Seq<BlockView>,
    /// The block stored under each identifier.
    pub blocks: Map<Seq<char>, BlockView>,
    /// The children of each block.
    pub edges: Map<Seq<char>, Set<Seq<char>>>,
}

impl LedgerView {
    /// The ledger that has accepted nothing.
    pub open spec fn empty() -> LedgerView {
        LedgerView { stored: Seq::empty(), blocks: Map::empty(), edges: Map::empty() }
    }

    /// The first of `parents`, in their order, under which no block is
    /// stored; `None` if each of them is stored.
    pub open spec fn first_absent(self, parents: Seq<Seq<char>>) -> Option<Seq<char>>
        decreases parents.len(),
    {
        if parents.len() == 0 {
            None
        } else if !self.blocks.contains_key(parents.first()) {
            Some(parents.first())
        } else {
            self.first_absent(parents.drop_first())
        }
    }

    /// A block is stored under each of `parents`.
    pub open spec fn has_all(self, parents: Seq<Seq<char>>) -> bool {
        forall|i: int| 0 <= i < parents.len() ==> self.blocks.contains_key(#[trigger] parents[i])
    }

    /// The ledger accepts `block`: its parents are stored and its signature
    /// is authentic.
    pub open spec fn admits(self, block: BlockView) -> bool {
        self.first_absent(block.parents) is None && block.is_authentic()
    }

    /// The ledger stores no block under the identifier of `block`, or one
    /// that names the same parents.
    pub open spec fn keeps_parents(self, block: BlockView) -> bool {
        self.blocks.contains_key(block.id) ==> self.blocks[block.id].parents == block.parents
    }

    /// The ledger after it has accepted `block`. The block is stored under
    /// its identifier: in place of the block stored there before, or at the
    /// end of the list if the identifier is new. It is recorded as a child
    /// of each of its parents.
    pub open spec fn accept(self, block: BlockView) -> LedgerView {
        LedgerView {
            stored: if self.blocks.contains_key(block.id) {
                replaced(self.stored, block)
            } else {
                self.stored.push(block)
            },
            blocks: self.blocks.insert(block.id, block),
            edges: linked(self.edges, block.parents, block.id),
        }
    }

    /// The ledger after `block` has been offered to it: accepted if the
    /// ledger admits it, and without effect if not.
    pub open spec fn step(self, block: BlockView) -> LedgerView {
        if self.admits(block) {
            self.accept(block)
        } else {
            self
        }
    }

    /// The ledger that results from offering `blocks`, in their order, to the
    /// empty ledger.
    pub open spec fn replay(blocks: Seq<BlockView>) -> LedgerView
        decreases blocks.len(),
    {
        if blocks.len() == 0 {
            LedgerView::empty()
        } else {
            LedgerView::replay(blocks.drop_last()).step(blocks.last())
        }
    }

    /// The list holds each stored block once: no identifier stands twice in
    /// it, each of its blocks is the one stored under its identifier, and
    /// every stored identifier stands in it.
    pub open spec fn lists_store(self) -> bool {
        &&& distinct_ids(self.stored)
        &&& forall|i: int|
            0 <= i < self.stored.len() ==> self.blocks.contains_key((#[trigger] self.stored[i]).id)
                && self.blocks[self.stored[i].id] == self.stored[i]
        &&& forall|id: Seq<char>| #[trigger]
            self.blocks.contains_key(id) ==> stands_before(self.stored, id, self.stored.len() as int)
    }

    /// A block is stored under every identifier that a stored block names as
    /// a parent.
    pub open spec fn is_closed(self) -> bool {
        forall|id: Seq<char>, k: int|
            self.blocks.contains_key(id) && 0 <= k < self.blocks[id].parents.len()
                ==> self.blocks.contains_key(#[trigger] self.blocks[id].parents[k])
    }

    /// Every stored block carries an authentic signature.
    pub open spec fn is_authentic(self) -> bool {
        all_authentic(self.stored)
    }

    /// The nodes of the graph are the stored identifiers, every stored block
    /// is recorded as a child of each of its parents, and every recorded
    /// child is a stored identifier.
    pub open spec fn records_links(self) -> bool {
        &&& self.edges.dom() == self.blocks.dom()
        &&& forall|parent: Seq<char>, child: Seq<char>| #[trigger]
            names_parent(self.stored, parent, child) ==> children_in(self.edges, parent).contains(child)
        &&& forall|parent: Seq<char>, child: Seq<char>| #[trigger]
            children_in(self.edges, parent).contains(child) ==> self.blocks.contains_key(child)
    }

    /// What holds of every ledger, whatever it has been offered.
    pub open spec fn is_sound(self) -> bool {
        &&& self.blocks.dom().finite()
        &&& self.lists_store()
        &&& self.is_closed()
        &&& self.is_authentic()
        &&& self.records_links()
    }

    /// Every parent of a stored block stands before it in the list.
    pub open spec fn is_ordered(self) -> bool {
        parents_come_first(self.stored)
    }

    /// The list is ordered, and the graph records no child but those that
    /// the stored blocks name. This holds as long as no block was replaced
    /// by one that names other parents.
    pub open spec fn is_tidy(self) -> bool {
        &&& self.is_ordered()
        &&& forall|parent: Seq<char>, child: Seq<char>| #[trigger]
            children_in(self.edges, parent).contains(child) ==> names_parent(self.stored, parent, child)
    }
}

/// The first absent parent is absent, and every parent before it is stored.
pub proof fn lemma_first_absent(ledger: LedgerView, parents: Seq<Seq<char>>)
    ensures
        ledger.first_absent(parents) is None <==> ledger.has_all(parents),
        ledger.first_absent(parents) matches Some(missing) ==> exists|i: int|
            0 <= i < parents.len() && #[trigger] parents[i] == missing && !ledger.blocks.contains_key(missing)
                && ledger.has_all(parents.take(i)),
    decreases parents.len(),
{
    if parents.len() == 0 {
    } else if !ledger.blocks.contains_key(parents.first()) {
        assert(parents[0] == parents.first());
        assert(ledger.has_all(parents.take(0)));
    } else {
        let rest = parents.drop_first();
        lemma_first_absent(ledger, rest);
        if ledger.has_all(rest) {
            assert forall|i: int| 0 <= i < parents.len() implies ledger.blocks.contains_key(#[trigger] parents[i]) by {
                if i > 0 {
                    assert(parents[i] == rest[i - 1]);
                }
            }
        } else {
            if ledger.has_all(parents) {
                assert forall|i: int| 0 <= i < rest.len() implies ledger.blocks.contains_key(#[trigger] rest[i]) by {
                    assert(rest[i] == parents[i + 1]);
                }
            }
        }
        if let Some(missing) = ledger.first_absent(parents) {
            let i = choose|i: int|
                0 <= i < rest.len() && #[trigger] rest[i] == missing && !ledger.blocks.contains_key(missing)
                    && ledger.has_all(rest.take(i));
            assert(parents[i + 1] == rest[i]);
            assert forall|j: int| 0 <= j < parents.take(i + 1).len() implies ledger.blocks.contains_key(
                #[trigger] parents.take(i + 1)[j],
            ) by {
                if j > 0 {
                    assert(parents.take(i + 1)[j] == rest.take(i)[j - 1]);
                }
            }
        }
    }
}

/// A ledger with a missing parent for a block is left as it is by the block.
pub proof fn lemma_missing_parent_rejected(ledger: LedgerView, block: BlockView)
    requires
        !ledger.has_all(block.parents),
    ensures
        ledger.first_absent(block.parents) is Some,
        ledger.step(block) == ledger,
{
    lemma_first_absent(ledger, block.parents);
}

/// A block whose signature its public key does not accept leaves the ledger
/// as it is.
pub proof fn lemma_forgery_rejected(ledger: LedgerView, block: BlockView)
    requires
        !block.is_authentic(),
    ensures
        ledger.step(block) == ledger,
{
}

/// Nothing is ever taken back: whatever is offered, the identifiers of the
/// list stay where they are, every stored identifier stays stored, and
/// every recorded child stays recorded.
pub proof fn lemma_step_is_append_only(ledger: LedgerView, block: BlockView)
    ensures
        ids_in(ledger.stored).is_prefix_of(ids_in(ledger.step(block).stored)),
        ledger.blocks.dom().subset_of(ledger.step(block).blocks.dom()),
        forall|parent: Seq<char>, child: Seq<char>|
            ledger.edges.contains_key(parent) && #[trigger] ledger.edges[parent].contains(child) ==> ledger.step(
                block,
            ).edges.contains_key(parent) && ledger.step(block).edges[parent].contains(child),
{
    let after = ledger.step(block);
    assert(ids_in(ledger.stored) =~= ids_in(after.stored).subrange(0, ledger.stored.len() as int));
}

/// Offering one more block after others is one step.
pub proof fn lemma_replay_push(blocks: Seq<BlockView>, block: BlockView)
    ensures
        LedgerView::replay(blocks.push(block)) == LedgerView::replay(blocks).step(block),
{
    assert(blocks.push(block).drop_last() =~= blocks);
}

/// Accepting a block keeps the identifiers of the list, and puts the block
/// in the list.
proof fn lemma_accept_list(ledger: LedgerView, block: BlockView)
    requires
        ledger.lists_store(),
    ensures
        ledger.accept(block).stored.len() >= ledger.stored.len(),
        forall|i: int|
            0 <= i < ledger.stored.len() ==> (#[trigger] ledger.accept(block).stored[i]).id == ledger.stored[i].id,
        forall|i: int|
            0 <= i < ledger.stored.len() ==> #[trigger] ledger.accept(block).stored[i] == (if ledger.stored[i].id
                == block.id {
                block
            } else {
                ledger.stored[i]
            }),
        !ledger.blocks.contains_key(block.id) ==> ledger.accept(block).stored == ledger.stored.push(block),
        ledger.blocks.contains_key(block.id) ==> ledger.accept(block).stored.len() == ledger.stored.len(),
        stands_before(ledger.accept(block).stored, block.id, ledger.accept(block).stored.len() as int),
        forall|i: int|
            0 <= i < ledger.accept(block).stored.len() && (#[trigger] ledger.accept(block).stored[i]).id == block.id
                ==> ledger.accept(block).stored[i] == block,
{
    let after = ledger.accept(block);
    let n = ledger.stored.len() as int;
    if ledger.blocks.contains_key(block.id) {
        assert(stands_before(ledger.stored, block.id, n));
        let j = choose|j: int| 0 <= j < n && j < ledger.stored.len() && (#[trigger] ledger.stored[j]).id == block.id;
        assert(after.stored[j].id == block.id);
    } else {
        assert(after.stored[n] == block);
        assert forall|i: int| 0 <= i < n implies (#[trigger] ledger.stored[i]).id != block.id by {
            assert(ledger.blocks.contains_key(ledger.stored[i].id));
        }
    }
}

/// Accepting a block keeps the list in step with the store.
proof fn lemma_accept_lists_store(ledger: LedgerView, block: BlockView)
    requires
        ledger.lists_store(),
    ensures
        ledger.accept(block).lists_store(),
{
    let after = ledger.accept(block);
    let n = ledger.stored.len() as int;
    lemma_accept_list(ledger, block);
    assert forall|i: int, j: int| 0 <= i < j < after.stored.len() implies (#[trigger] after.stored[i]).id != (
    #[trigger] after.stored[j]).id by {
        if j < n {
            assert(ledger.stored[i].id != ledger.stored[j].id);
        } else {
            assert(after.stored[j] == block);
            assert(ledger.blocks.contains_key(ledger.stored[i].id));
        }
    }
    assert forall|i: int| 0 <= i < after.stored.len() implies after.blocks.contains_key(
        (#[trigger] after.stored[i]).id,
    ) && after.blocks[after.stored[i].id] == after.stored[i] by {
        if i < n {
            assert(ledger.blocks.contains_key(ledger.stored[i].id));
            assert(ledger.blocks[ledger.stored[i].id] == ledger.stored[i]);
        }
    }
    assert forall|id: Seq<char>| #[trigger] after.blocks.contains_key(id) implies stands_before(
        after.stored,
        id,
        after.stored.len() as int,
    ) by {
        if id != block.id {
            assert(ledger.blocks.contains_key(id));
            assert(stands_before(ledger.stored, id, n));
            let j = choose|j: int| 0 <= j < n && j < ledger.stored.len() && (#[trigger] ledger.stored[j]).id == id;
            assert(after.stored[j].id == id);
        }
    }
}

/// Accepting a block whose parents are stored keeps the store closed.
proof fn lemma_accept_is_closed(ledger: LedgerView, block: BlockView)
    requires
        ledger.is_closed(),
        ledger.has_all(block.parents),
    ensures
        ledger.accept(block).is_closed(),
{
    let after = ledger.accept(block);
    assert forall|id: Seq<char>, k: int|
        after.blocks.contains_key(id) && 0 <= k < after.blocks[id].parents.len() implies after.blocks.contains_key(
        #[trigger] after.blocks[id].parents[k],
    ) by {
        if id == block.id {
            assert(ledger.blocks.contains_key(block.parents[k]));
        } else {
            assert(ledger.blocks.contains_key(ledger.blocks[id].parents[k]));
        }
    }
}

/// Accepting an authentic block keeps the stored blocks authentic.
proof fn lemma_accept_is_authentic(ledger: LedgerView, block: BlockView)
    requires
        ledger.lists_store(),
        ledger.is_authentic(),
        block.is_authentic(),
    ensures
        ledger.accept(block).is_authentic(),
{
    let after = ledger.accept(block);
    let n = ledger.stored.len() as int;
    lemma_accept_list(ledger, block);
    assert forall|i: int| 0 <= i < after.stored.len() implies (#[trigger] after.stored[i]).is_authentic() by {
        if i < n {
            assert(ledger.stored[i].is_authentic());
        } else {
            assert(after.stored[i] == block);
        }
    }
}

/// A block of the list after accepting is the accepted block or a block of
/// the list before, with its identifier.
proof fn lemma_accept_entry(ledger: LedgerView, block: BlockView, i: int)
    requires
        ledger.lists_store(),
        0 <= i < ledger.accept(block).stored.len(),
    ensures
        ledger.accept(block).stored[i] == block || (i < ledger.stored.len() && ledger.accept(block).stored[i]
            == ledger.stored[i]),
        i < ledger.stored.len() ==> ledger.accept(block).stored[i].id == ledger.stored[i].id,
{
    lemma_accept_list(ledger, block);
    if i >= ledger.stored.len() {
        assert(ledger.accept(block).stored == ledger.stored.push(block));
    }
}

/// Accepting a block whose parents are stored keeps the graph in step with
/// the store.
proof fn lemma_accept_records_links(ledger: LedgerView, block: BlockView)
    requires
        ledger.lists_store(),
        ledger.records_links(),
        ledger.has_all(block.parents),
    ensures
        ledger.accept(block).records_links(),
{
    let after = ledger.accept(block);
    assert(after.edges.dom() =~= after.blocks.dom()) by {
        assert forall|id: Seq<char>| after.edges.dom().contains(id) <==> after.blocks.dom().contains(id) by {
            if block.parents.contains(id) {
                let k = choose|k: int| 0 <= k < block.parents.len() && block.parents[k] == id;
                assert(ledger.blocks.contains_key(block.parents[k]));
            }
            assert(ledger.edges.dom().contains(id) <==> ledger.blocks.dom().contains(id));
        }
    }
    assert forall|parent: Seq<char>, child: Seq<char>| #[trigger]
        names_parent(after.stored, parent, child) implies children_in(after.edges, parent).contains(child) by {
        let i = choose|i: int|
            0 <= i < after.stored.len() && (#[trigger] after.stored[i]).id == child
                && after.stored[i].parents.contains(parent);
        lemma_accept_entry(ledger, block, i);
        if after.stored[i] == block {
            assert(after.edges.contains_key(parent));
        } else {
            assert(ledger.stored[i].id == child && ledger.stored[i].parents.contains(parent));
            assert(names_parent(ledger.stored, parent, child));
            assert(children_in(ledger.edges, parent).contains(child));
        }
    }
    assert forall|parent: Seq<char>, child: Seq<char>| #[trigger]
        children_in(after.edges, parent).contains(child) implies after.blocks.contains_key(child) by {
        if children_in(ledger.edges, parent).contains(child) {
            assert(ledger.blocks.contains_key(child));
        }
    }
}

/// Accepting an admitted block keeps a ledger sound.
pub proof fn lemma_accept_keeps_sound(ledger: LedgerView, block: BlockView)
    requires
        ledger.is_sound(),
        ledger.admits(block),
    ensures
        ledger.accept(block).is_sound(),
{
    lemma_first_absent(ledger, block.parents);
    lemma_accept_lists_store(ledger, block);
    lemma_accept_is_closed(ledger, block);
    lemma_accept_is_authentic(ledger, block);
    lemma_accept_records_links(ledger, block);
}

/// Accepting keeps the list ordered, where a block that is replaced is
/// replaced by one that names the same parents.
proof fn lemma_accept_is_ordered(ledger: LedgerView, block: BlockView)
    requires
        ledger.lists_store(),
        ledger.is_ordered(),
        ledger.has_all(block.parents),
        ledger.keeps_parents(block),
    ensures
        ledger.accept(block).is_ordered(),
{
    let after = ledger.accept(block);
    let n = ledger.stored.len() as int;
    lemma_accept_list(ledger, block);
    assert forall|i: int, k: int|
        0 <= i < after.stored.len() && 0 <= k < after.stored[i].parents.len() implies #[trigger] stands_before(
        after.stored,
        after.stored[i].parents[k],
        i,
    ) by {
        if i < n {
            assert(ledger.blocks[ledger.stored[i].id] == ledger.stored[i]);
            assert(after.stored[i].parents == ledger.stored[i].parents);
            assert(stands_before(ledger.stored, ledger.stored[i].parents[k], i));
            let j = choose|j: int|
                0 <= j < i && j < ledger.stored.len() && (#[trigger] ledger.stored[j]).id
                    == ledger.stored[i].parents[k];
            assert(after.stored[j].id == ledger.stored[j].id);
        } else {
            assert(after.stored[i] == block);
            let parent = block.parents[k];
            assert(ledger.blocks.contains_key(parent));
            assert(stands_before(ledger.stored, parent, n));
            let j = choose|j: int| 0 <= j < n && j < ledger.stored.len() && (#[trigger] ledger.stored[j]).id == parent;
            assert(after.stored[j].id == ledger.stored[j].id);
        }
    }
}

/// Accepting records no child that the stored blocks do not name, where a
/// block that is replaced is replaced by one that names the same parents.
proof fn lemma_accept_records_no_more(ledger: LedgerView, block: BlockView)
    requires
        ledger.lists_store(),
        ledger.is_tidy(),
        ledger.keeps_parents(block),
    ensures
        forall|parent: Seq<char>, child: Seq<char>| #[trigger]
            children_in(ledger.accept(block).edges, parent).contains(child) ==> names_parent(
                ledger.accept(block).stored,
                parent,
                child,
            ),
{
    let after = ledger.accept(block);
    let n = ledger.stored.len() as int;
    lemma_accept_list(ledger, block);
    assert forall|parent: Seq<char>, child: Seq<char>| #[trigger]
        children_in(after.edges, parent).contains(child) implies names_parent(after.stored, parent, child) by {
        if child == block.id && block.parents.contains(parent) {
            let at = choose|at: int|
                0 <= at < after.stored.len() && at < after.stored.len() && (#[trigger] after.stored[at]).id
                    == block.id;
            assert(after.stored[at] == block);
        } else {
            assert(children_in(ledger.edges, parent).contains(child));
            assert(names_parent(ledger.stored, parent, child));
            let i = choose|i: int|
                0 <= i < ledger.stored.len() && (#[trigger] ledger.stored[i]).id == child
                    && ledger.stored[i].parents.contains(parent);
            assert(ledger.blocks[ledger.stored[i].id] == ledger.stored[i]);
            assert(after.stored[i].id == child);
            assert(after.stored[i].parents == ledger.stored[i].parents);
        }
    }
}

/// Accepting an admitted block keeps a ledger tidy, where a block that is
/// replaced is replaced by one that names the same parents.
pub proof fn lemma_accept_keeps_tidy(ledger: LedgerView, block: BlockView)
    requires
        ledger.is_sound(),
        ledger.is_tidy(),
        ledger.admits(block),
        ledger.keeps_parents(block),
    ensures
        ledger.accept(block).is_tidy(),
{
    lemma_first_absent(ledger, block.parents);
    lemma_accept_is_ordered(ledger, block);
    lemma_accept_records_no_more(ledger, block);
}

/// Whatever is offered, the result is sound: the list holds each stored
/// block once, every parent of a stored block is stored, every stored block
/// carries an authentic signature, and the graph records every stored block
/// as a child of its parents. Every stored block is one that was offered.
pub proof fn lemma_replay_is_sound(blocks: Seq<BlockView>)
    ensures
        LedgerView::replay(blocks).is_sound(),
        forall|i: int|
            0 <= i < LedgerView::replay(blocks).stored.len() ==> blocks.contains(
                #[trigger] LedgerView::replay(blocks).stored[i],
            ),
    decreases blocks.len(),
{
    let after = LedgerView::replay(blocks);
    if blocks.len() == 0 {
        assert(after.edges.dom() =~= after.blocks.dom());
    } else {
        let front = blocks.drop_last();
        let before = LedgerView::replay(front);
        lemma_replay_is_sound(front);
        if before.admits(blocks.last()) {
            lemma_accept_keeps_sound(before, blocks.last());
        }
        assert forall|i: int| 0 <= i < after.stored.len() implies blocks.contains(#[trigger] after.stored[i]) by {
            if before.admits(blocks.last()) {
                lemma_accept_entry(before, blocks.last(), i);
            }
            if after.stored[i] == blocks.last() {
                assert(blocks[blocks.len() - 1] == after.stored[i]);
            } else {
                assert(front.contains(before.stored[i]));
                let at = choose|at: int| 0 <= at < front.len() && front[at] == before.stored[i];
                assert(blocks[at] == after.stored[i]);
            }
        }
    }
}

/// Where blocks of one identifier name the same parents, whatever of them
/// is offered leaves the ledger tidy.
pub proof fn lemma_replay_is_tidy(blocks: Seq<BlockView>)
    requires
        same_id_same_parents(blocks),
    ensures
        LedgerView::replay(blocks).is_tidy(),
    decreases blocks.len(),
{
    if blocks.len() > 0 {
        let front = blocks.drop_last();
        let last = blocks.last();
        let before = LedgerView::replay(front);
        assert(same_id_same_parents(front)) by {
            assert forall|i: int, j: int|
                0 <= i < front.len() && 0 <= j < front.len() && (#[trigger] front[i]).id == (#[trigger] front[j]).id
                implies front[i].parents == front[j].parents by {
                assert(blocks[i] == front[i]);
                assert(blocks[j] == front[j]);
            }
        }
        lemma_replay_is_tidy(front);
        lemma_replay_is_sound(front);
        if before.admits(last) {
            if before.blocks.contains_key(last.id) {
                assert(stands_before(before.stored, last.id, before.stored.len() as int));
                let j = choose|j: int|
                    0 <= j < before.stored.len() && j < before.stored.len() && (#[trigger] before.stored[j]).id
                        == last.id;
                assert(before.blocks[before.stored[j].id] == before.stored[j]);
                assert(front.contains(before.stored[j]));
                let at = choose|at: int| 0 <= at < front.len() && front[at] == before.stored[j];
                assert(blocks[at] == front[at]);
                assert(blocks[blocks.len() - 1] == last);
                assert(blocks[at].parents == blocks[blocks.len() - 1].parents);
            }
            lemma_accept_keeps_tidy(before, last);
        }
    }
}

/// A sound and tidy ledger is determined by its list.
pub proof fn lemma_list_determines_ledger(first: LedgerView, second: LedgerView)
    requires
        first.is_sound(),
        first.is_tidy(),
        second.is_sound(),
        second.is_tidy(),
        first.stored == second.stored,
    ensures
        first == second,
{
    assert forall|id: Seq<char>| first.blocks.contains_key(id) <==> second.blocks.contains_key(id) by {
        if first.blocks.contains_key(id) {
            assert(stands_before(first.stored, id, first.stored.len() as int));
            let j = choose|j: int| 0 <= j < first.stored.len() && j < first.stored.len() && (#[trigger] first.stored[j]).id == id;
            assert(second.blocks.contains_key(second.stored[j].id));
        }
        if second.blocks.contains_key(id) {
            assert(stands_before(second.stored, id, second.stored.len() as int));
            let j = choose|j: int|
                0 <= j < second.stored.len() && j < second.stored.len() && (#[trigger] second.stored[j]).id == id;
            assert(first.blocks.contains_key(first.stored[j].id));
        }
    }
    assert forall|id: Seq<char>| first.blocks.contains_key(id) implies first.blocks[id] == second.blocks[id] by {
        assert(stands_before(first.stored, id, first.stored.len() as int));
        let j = choose|j: int| 0 <= j < first.stored.len() && j < first.stored.len() && (#[trigger] first.stored[j]).id == id;
        assert(first.blocks[first.stored[j].id] == first.stored[j]);
        assert(second.blocks[second.stored[j].id] == second.stored[j]);
    }
    assert(first.blocks =~= second.blocks);
    assert(first.edges.dom() =~= second.edges.dom());
    assert forall|parent: Seq<char>| first.edges.contains_key(parent) implies first.edges[parent]
        =~= second.edges[parent] by {
        assert forall|child: Seq<char>| first.edges[parent].contains(child) <==> second.edges[parent].contains(
            child,
        ) by {
            if children_in(first.edges, parent).contains(child) {
                assert(names_parent(second.stored, parent, child));
            }
            if children_in(second.edges, parent).contains(child) {
                assert(names_parent(first.stored, parent, child));
            }
        }
    }
    assert(first.edges =~= second.edges);
}

/// In a sequence in which parents come first, the parents of the block at
/// `at` are identifiers of the blocks before `at`.
proof fn lemma_parents_in_front(blocks: Seq<BlockView>, at: int)
    requires
        parents_come_first(blocks),
        0 <= at < blocks.len(),
    ensures
        forall|k: int|
            0 <= k < blocks[at].parents.len() ==> #[trigger] stands_before(
                blocks.take(at),
                blocks[at].parents[k],
                at,
            ),
{
    assert forall|k: int| 0 <= k < blocks[at].parents.len() implies #[trigger] stands_before(
        blocks.take(at),
        blocks[at].parents[k],
        at,
    ) by {
        assert(stands_before(blocks, blocks[at].parents[k], at));
        let j = choose|j: int| 0 <= j < at && j < blocks.len() && (#[trigger] blocks[j]).id == blocks[at].parents[k];
        assert(blocks.take(at)[j] == blocks[j]);
    }
}

/// Authentic blocks that come after their parents are all accepted: after
/// the first `upto` of them have been offered, a block is stored under the
/// identifier of each.
pub proof fn lemma_ordered_blocks_are_accepted(blocks: Seq<BlockView>, upto: int)
    requires
        parents_come_first(blocks),
        all_authentic(blocks),
        0 <= upto <= blocks.len(),
    ensures
        forall|i: int| 0 <= i < upto ==> LedgerView::replay(blocks.take(upto)).blocks.contains_key((#[trigger] blocks[i]).id),
        distinct_ids(blocks) ==> LedgerView::replay(blocks.take(upto)).stored == blocks.take(upto),
    decreases upto,
{
    if upto == 0 {
        assert(LedgerView::replay(blocks.take(0)).stored =~= blocks.take(0));
    } else {
        let front = blocks.take(upto - 1);
        let block = blocks[upto - 1];
        let before = LedgerView::replay(front);
        let after = LedgerView::replay(blocks.take(upto));
        lemma_ordered_blocks_are_accepted(blocks, upto - 1);
        assert(blocks.take(upto) =~= front.push(block));
        lemma_replay_push(front, block);
        lemma_parents_in_front(blocks, upto - 1);
        assert(before.admits(block)) by {
            assert forall|k: int| 0 <= k < block.parents.len() implies before.blocks.contains_key(
                #[trigger] block.parents[k],
            ) by {
                assert(stands_before(front, block.parents[k], upto - 1));
                let j = choose|j: int|
                    0 <= j < upto - 1 && j < front.len() && (#[trigger] front[j]).id == block.parents[k];
                assert(front[j] == blocks[j]);
                assert(before.blocks.contains_key(blocks[j].id));
            }
            lemma_first_absent(before, block.parents);
        }
        assert(after == before.accept(block));
        if distinct_ids(blocks) {
            assert(!before.blocks.contains_key(block.id)) by {
                lemma_replay_is_sound(front);
                if before.blocks.contains_key(block.id) {
                    assert(stands_before(before.stored, block.id, before.stored.len() as int));
                    let j = choose|j: int|
                        0 <= j < before.stored.len() && j < before.stored.len() && (#[trigger] before.stored[j]).id
                            == block.id;
                    assert(front[j] == blocks[j]);
                    assert(blocks[j].id != blocks[upto - 1].id);
                }
            }
        }
    }
}

/// A sound and tidy ledger is what offering its own list to the empty
/// ledger gives.
pub proof fn lemma_list_replays(ledger: LedgerView)
    requires
        ledger.is_sound(),
        ledger.is_tidy(),
    ensures
        LedgerView::replay(ledger.stored) == ledger,
{
    let list = ledger.stored;
    let again = LedgerView::replay(list);
    lemma_ordered_blocks_are_accepted(list, list.len() as int);
    assert(list.take(list.len() as int) =~= list);
    assert(again.stored == list);
    lemma_replay_is_sound(list);
    assert(same_id_same_parents(list)) by {
        assert forall|i: int, j: int|
            0 <= i < list.len() && 0 <= j < list.len() && (#[trigger] list[i]).id == (#[trigger] list[j]).id
            implies list[i].parents == list[j].parents by {
            if i < j {
                assert(list[i].id != list[j].id);
            }
            if j < i {
                assert(list[j].id != list[i].id);
            }
        }
    }
    lemma_replay_is_tidy(list);
    lemma_list_determines_ledger(again, ledger);
}

/// Round trip: where blocks of one identifier name the same parents, the
/// ledger built from whatever was offered is built again from its own list.
/// It stores the same blocks under the same identifiers and records the
/// same children.
pub proof fn lemma_replay_round_trip(blocks: Seq<BlockView>)
    requires
        same_id_same_parents(blocks),
    ensures
        LedgerView::replay(LedgerView::replay(blocks).stored) == LedgerView::replay(blocks),
{
    lemma_replay_is_sound(blocks);
    lemma_replay_is_tidy(blocks);
    lemma_list_replays(LedgerView::replay(blocks));
}

/// The list is as long as the store is large, and holds the stored
/// identifiers, none of them twice.
pub proof fn lemma_list_counts_store(ledger: LedgerView)
    requires
        ledger.lists_store(),
    ensures
        ids_in(ledger.stored).no_duplicates(),
        ids_in(ledger.stored).to_set() == ledger.blocks.dom(),
        ledger.stored.len() == ledger.blocks.dom().len(),
{
    let ids = ids_in(ledger.stored);
    assert forall|i: int, j: int| 0 <= i < ids.len() && 0 <= j < ids.len() && i != j implies ids[i] != ids[j] by {
        if i < j {
            assert(ledger.stored[i].id != ledger.stored[j].id);
        } else {
            assert(ledger.stored[j].id != ledger.stored[i].id);
        }
    }
    assert forall|id: Seq<char>| ids.to_set().contains(id) <==> ledger.blocks.dom().contains(id) by {
        if ids.to_set().contains(id) {
            let i = choose|i: int| 0 <= i < ids.len() && ids[i] == id;
            assert(ledger.blocks.contains_key(ledger.stored[i].id));
        }
        if ledger.blocks.dom().contains(id) {
            assert(ledger.blocks.contains_key(id));
            assert(stands_before(ledger.stored, id, ledger.stored.len() as int));
            let j = choose|j: int|
                0 <= j < ledger.stored.len() && j < ledger.stored.len() && (#[trigger] ledger.stored[j]).id == id;
            assert(ids[j] == id);
        }
    }
    assert(ids.to_set() =~= ledger.blocks.dom());
    ids.unique_seq_to_set();
}

} // verus!
