//! Sequences of edits replayed on a piece table, and what holds of them.
use vstd::prelude::*;
use crate::editor::piece_table::{
    Buffer,
    TableModel,
    PieceTableEntry,
    lemma_inserted,
    lemma_deleted,
    lemma_locate_model,
    coalescible,
    grown,
    fresh_piece,
    valid_piece,
};

verus! {

/// One edit of a document.
#[derive(Clone, Copy, Debug, PartialEq, Eq, Structural)]
pub enum EditOp {
    /// Insert the character so that it stands at the index.
    Insert(char, usize),
    /// Delete the character at the index.
    Delete(usize),
}

/// The table state after one edit.
pub open spec fn apply_to_table(m: TableModel, op: EditOp) -> TableModel {
    match op {
        EditOp::Insert(c, i) => m.inserted(c, i as nat),
        EditOp::Delete(i) => m.deleted(i as nat),
    }
}

/// The same edit made on a plain character sequence.
pub open spec fn apply_to_text(s: Seq<char>, op: EditOp) -> Seq<char> {
    match op {
        EditOp::Insert(c, i) => s.insert(i as int, c),
        EditOp::Delete(i) => s.remove(i as int),
    }
}

/// The edit's index is in range for a document `s`.
pub open spec fn op_fits(s: Seq<char>, op: EditOp) -> bool {
    match op {
        EditOp::Insert(_, i) => i <= s.len(),
        EditOp::Delete(i) => i < s.len(),
    }
}

pub open spec fn replay_table(m: TableModel, ops: Seq<EditOp>) -> TableModel
    decreases ops.len(),
{
    if ops.len() == 0 {
        m
    } else {
        apply_to_table(replay_table(m, ops.drop_last()), ops.last())
    }
}

pub open spec fn replay_text(s: Seq<char>, ops: Seq<EditOp>) -> Seq<char>
    decreases ops.len(),
{
    if ops.len() == 0 {
        s
    } else {
        apply_to_text(replay_text(s, ops.drop_last()), ops.last())
    }
}

/// Every edit of `ops` is in range for the document it is made on.
pub open spec fn ops_fit(s: Seq<char>, ops: Seq<EditOp>) -> bool
    decreases ops.len(),
{
    ops.len() == 0 || (ops_fit(s, ops.drop_last()) && op_fits(replay_text(s, ops.drop_last()), ops.last()))
}

pub open spec fn insert_count(ops: Seq<EditOp>) -> nat
    decreases ops.len(),
{
    if ops.len() == 0 {
        0
    } else {
        insert_count(ops.drop_last()) + if ops.last() is Insert {
            1nat
        } else {
            0nat
        }
    }
}

pub open spec fn delete_count(ops: Seq<EditOp>) -> nat
    decreases ops.len(),
{
    if ops.len() == 0 {
        0
    } else {
        delete_count(ops.drop_last()) + if ops.last() is Delete {
            1nat
        } else {
            0nat
        }
    }
}

/// The state of a table made from the empty text.
pub open spec fn empty_table() -> TableModel {
    TableModel { pieces: Seq::empty(), original: Seq::empty(), add: Seq::empty() }
}

/// The edits of typing one character after another at the end of a
/// document of `start` characters: each inserts at the position just after
/// the one before it.
pub open spec fn is_typing_at(start: nat, ops: Seq<EditOp>) -> bool {
    forall|k: int| 0 <= k < ops.len() ==> #[trigger] ops[k] is Insert && ops[k]->Insert_1 == start + k
}

/// The machine bounds under which `n` more edits can be made.
pub open spec fn room_for(m: TableModel, n: nat) -> bool {
    &&& m.document().len() + n < usize::MAX
    &&& m.add.len() + n < usize::MAX
    &&& m.original.len() <= usize::MAX
}

/// Replaying in-range edits on a well-formed table keeps it well formed, and
/// its document follows the same edits made on a plain sequence.
pub proof fn lemma_replay(m: TableModel, ops: Seq<EditOp>)
    requires
        m.wf(),
        room_for(m, ops.len()),
        ops_fit(m.document(), ops),
    ensures
        replay_table(m, ops).wf(),
        replay_table(m, ops).document() == replay_text(m.document(), ops),
        replay_table(m, ops).original == m.original,
        replay_table(m, ops).add.len() == m.add.len() + insert_count(ops),
        insert_count(ops) + delete_count(ops) == ops.len(),
        replay_text(m.document(), ops).len() + delete_count(ops) == m.document().len() + insert_count(ops),
    decreases ops.len(),
{
    if ops.len() > 0 {
        let prev = ops.drop_last();
        lemma_replay(m, prev);
        let t = replay_table(m, prev);
        match ops.last() {
            EditOp::Insert(c, i) => {
                lemma_inserted(t, c, i as nat);
            },
            EditOp::Delete(i) => {
                lemma_deleted(t, i as nat);
            },
        }
    }
}

/// Round trip: inserting characters one by one into a table made from the
/// empty text gives the document that the same inserts give on a plain
/// sequence.
pub proof fn lemma_round_trip(ops: Seq<EditOp>)
    requires
        forall|k: int| 0 <= k < ops.len() ==> #[trigger] ops[k] is Insert,
        ops_fit(Seq::empty(), ops),
        ops.len() < usize::MAX,
    ensures
        replay_table(empty_table(), ops).document() == replay_text(Seq::empty(), ops),
{
    let m = empty_table();
    assert(m.document() == Seq::<char>::empty());
    lemma_replay(m, ops);
}

/// After `n` inserts and `d` deletes, all in range, a document of `l`
/// characters has `l + n - d` characters.
pub proof fn lemma_length_invariant(m: TableModel, ops: Seq<EditOp>)
    requires
        m.wf(),
        room_for(m, ops.len()),
        ops_fit(m.document(), ops),
    ensures
        replay_table(m, ops).document().len() == m.document().len() + insert_count(ops) - delete_count(ops),
{
    lemma_replay(m, ops);
}

/// No sequence of in-range edits leaves an empty piece in the table.
pub proof fn lemma_no_empty_pieces(m: TableModel, ops: Seq<EditOp>)
    requires
        m.wf(),
        room_for(m, ops.len()),
        ops_fit(m.document(), ops),
    ensures
        forall|k: int|
            0 <= k < replay_table(m, ops).pieces.len() ==> #[trigger] replay_table(m, ops).pieces[k].length > 0,
{
    lemma_replay(m, ops);
    let t = replay_table(m, ops);
    assert forall|k: int| 0 <= k < t.pieces.len() implies #[trigger] t.pieces[k].length > 0 by {
        assert(valid_piece(t.pieces[k], t.original, t.add));
    }
}

/// Typing characters one after another at the end of the document adds at
/// most one piece: a single `Add` piece that ends at the end of the add
/// buffer and covers every typed character.
pub proof fn lemma_typing_coalesces(m: TableModel, ops: Seq<EditOp>)
    requires
        m.wf(),
        room_for(m, ops.len()),
        is_typing_at(m.document().len(), ops),
    ensures
        ({
            let t = replay_table(m, ops);
            &&& t.wf()
            &&& t.original == m.original
            &&& t.document().len() == m.document().len() + ops.len()
            &&& t.add.len() == m.add.len() + ops.len()
            &&& t.pieces.len() <= m.pieces.len() + 1
            &&& ops.len() > 0 ==> {
                let last = t.pieces.last();
                &&& t.pieces.len() > 0
                &&& last.buffer == Buffer::Add
                &&& last.length >= ops.len()
                &&& last.start_index + last.length == t.add.len()
            }
        }),
    decreases ops.len(),
{
    if ops.len() > 0 {
        let l = m.document().len();
        let n = ops.len();
        let prev = ops.drop_last();
        assert(is_typing_at(l, prev)) by {
            assert forall|k: int| 0 <= k < prev.len() implies #[trigger] prev[k] is Insert && prev[k]->Insert_1
                == l + k by {
                assert(prev[k] == ops[k]);
            }
        }
        lemma_typing_coalesces(m, prev);
        let t = replay_table(m, prev);
        assert(ops[n - 1] is Insert && ops[n - 1]->Insert_1 == l + n - 1);
        let c = ops.last()->Insert_0;
        let index = (l + n - 1) as nat;
        lemma_inserted(t, c, index);
        lemma_locate_model(t, index);
        let u = t.inserted(c, index);
        assert(u == replay_table(m, ops));
        let p = t.pieces;
        if p.len() > 0 && coalescible(p.last(), t.add.len()) {
            assert(u.pieces == p.update(p.len() - 1, grown(p.last())));
        } else {
            assert(p.insert(p.len() as int, fresh_piece(t.add.len())) =~= p.push(fresh_piece(t.add.len())));
        }
    }
}

} // verus!
