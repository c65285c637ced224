use vstd::prelude::*;

verus! {

/// Which backing store a piece draws its characters from.
#[derive(Clone, Copy, Debug, PartialEq, Eq, Structural)]
pub enum Buffer {
    Original,
    Add,
}

/// A run `[start_index, start_index + length)` of one buffer.
#[derive(Clone, Copy, Debug, PartialEq, Eq, Structural)]
pub struct PieceTableEntry {
    pub buffer: Buffer,
    pub start_index: usize,
    pub length: usize,
}

/// Why an edit of the table was refused.
#[derive(Clone, Copy, Debug, PartialEq, Eq, Structural)]
pub enum PieceTableError {
    /// The logical index lies outside the range the operation accepts.
    IndexOutOfBounds,
    /// A replacement piece sequence holds an empty piece, a piece that reaches
    /// past the end of its buffer, or a total length that does not fit in `usize`.
    InvalidRows,
}

/// A document held as a sequence of pieces over an immutable original buffer
/// and an append-only add buffer.
#[derive(Debug)]
pub struct PieceTable {
    rows: Vec<PieceTableEntry>,
    original_buffer: Vec<char>,
    add_buffer: Vec<char>,
}

/// The abstract state of a table: its pieces and its two buffers.
pub struct TableModel {
    pub pieces: Seq<PieceTableEntry>,
    pub original: Seq<char>,
    pub add: Seq<char>,
}

/// The buffer that `b` names.
pub open spec fn source(b: Buffer, original: Seq<char>, add: Seq<char>) -> Seq<char> {
    match b {
        Buffer::Original => original,
        Buffer::Add => add,
    }
}

/// The characters that piece `e` refers to.
pub open spec fn piece_text(e: PieceTableEntry, original: Seq<char>, add: Seq<char>) -> Seq<char> {
    source(e.buffer, original, add).subrange(e.start_index as int, e.start_index + e.length)
}

/// A piece is live when it is non-empty and lies inside its buffer.
pub open spec fn valid_piece(e: PieceTableEntry, original: Seq<char>, add: Seq<char>) -> bool {
    &&& e.length > 0
    &&& e.start_index + e.length <= source(e.buffer, original, add).len()
}

/// The concatenated text of a piece sequence.
pub open spec fn text_of(pieces: Seq<PieceTableEntry>, original: Seq<char>, add: Seq<char>) -> Seq<char>
    decreases pieces.len(),
{
    if pieces.len() == 0 {
        Seq::empty()
    } else {
        text_of(pieces.drop_last(), original, add) + piece_text(pieces.last(), original, add)
    }
}

/// The sum of the piece lengths of a sequence.
pub open spec fn total_len(pieces: Seq<PieceTableEntry>) -> nat
    decreases pieces.len(),
{
    if pieces.len() == 0 {
        0
    } else {
        total_len(pieces.drop_last()) + pieces.last().length as nat
    }
}

/// The logical position at which piece `k` begins.
pub open spec fn offset_of(pieces: Seq<PieceTableEntry>, k: int) -> nat {
    total_len(pieces.take(k))
}

/// Every piece of the sequence is live.
pub open spec fn pieces_live(pieces: Seq<PieceTableEntry>, original: Seq<char>, add: Seq<char>) -> bool {
    forall|k: int| 0 <= k < pieces.len() ==> valid_piece(#[trigger] pieces[k], original, add)
}

/// Every piece is live and the document length fits in `usize`.
pub open spec fn valid_rows(pieces: Seq<PieceTableEntry>, original: Seq<char>, add: Seq<char>) -> bool {
    &&& pieces_live(pieces, original, add)
    &&& total_len(pieces) <= usize::MAX
}

/// The first `n` characters of piece `e`.
pub open spec fn head(e: PieceTableEntry, n: nat) -> PieceTableEntry {
    PieceTableEntry { buffer: e.buffer, start_index: e.start_index, length: n as usize }
}

/// Piece `e` without its first `n` characters.
pub open spec fn tail(e: PieceTableEntry, n: nat) -> PieceTableEntry {
    PieceTableEntry {
        buffer: e.buffer,
        start_index: (e.start_index + n) as usize,
        length: (e.length - n) as usize,
    }
}

/// Piece `e` with one more character at its end.
pub open spec fn grown(e: PieceTableEntry) -> PieceTableEntry {
    PieceTableEntry { buffer: e.buffer, start_index: e.start_index, length: (e.length + 1) as usize }
}

/// The one-character piece for a character appended to an add buffer that
/// held `add_len` characters.
pub open spec fn fresh_piece(add_len: nat) -> PieceTableEntry {
    PieceTableEntry { buffer: Buffer::Add, start_index: add_len as usize, length: 1 }
}

/// Piece `e` ends where the next character appended to an add buffer of
/// `add_len` characters will stand, so it can grow to take that character.
pub open spec fn coalescible(e: PieceTableEntry, add_len: nat) -> bool {
    e.buffer == Buffer::Add && e.start_index + e.length == add_len
}

/// The piece sequence after inserting, at logical index `index`, the
/// character appended to an add buffer of `add_len` characters: a piece that
/// holds the index is split round the new piece; at the boundary after a
/// coalescible piece that piece grows; elsewhere a new piece goes in.
pub open spec fn pieces_after_insert(pieces: Seq<PieceTableEntry>, add_len: nat, index: nat) -> Seq<PieceTableEntry> {
    let i = locate(pieces, index) as int;
    if i < pieces.len() && index > offset_of(pieces, i) {
        let e = pieces[i];
        let off = (index - offset_of(pieces, i)) as nat;
        pieces.take(i) + seq![head(e, off), fresh_piece(add_len), tail(e, off)] + pieces.skip(i + 1)
    } else if i > 0 && coalescible(pieces[i - 1], add_len) {
        pieces.update(i - 1, grown(pieces[i - 1]))
    } else {
        pieces.insert(i, fresh_piece(add_len))
    }
}

/// The piece sequence after removing the character at logical index
/// `index`: a one-character piece goes, a piece loses its first or its last
/// character, or a piece is split round the removed character.
pub open spec fn pieces_after_delete(pieces: Seq<PieceTableEntry>, index: nat) -> Seq<PieceTableEntry> {
    let i = locate(pieces, index) as int;
    let e = pieces[i];
    let off = (index - offset_of(pieces, i)) as nat;
    if e.length == 1 {
        pieces.remove(i)
    } else if off == 0 {
        pieces.update(i, tail(e, 1))
    } else if off + 1 == e.length {
        pieces.update(i, head(e, off))
    } else {
        pieces.take(i) + seq![head(e, off), tail(e, off + 1)] + pieces.skip(i + 1)
    }
}

/// The position of the piece that holds logical index `index`, scanning from
/// piece `k`: the first piece whose end lies past `index`, or the number of
/// pieces when none does.
pub open spec fn find_piece(pieces: Seq<PieceTableEntry>, index: nat, k: nat) -> nat
    decreases pieces.len() - k,
{
    if k >= pieces.len() || index < offset_of(pieces, (k + 1) as int) {
        k
    } else {
        find_piece(pieces, index, k + 1)
    }
}

/// The position of the piece that holds logical index `index`.
pub open spec fn locate(pieces: Seq<PieceTableEntry>, index: nat) -> nat {
    find_piece(pieces, index, 0)
}

/// Text and length distribute over concatenation of piece sequences.
pub proof fn lemma_text_concat(
    a: Seq<PieceTableEntry>,
    b: Seq<PieceTableEntry>,
    original: Seq<char>,
    add: Seq<char>,
)
    ensures
        text_of(a + b, original, add) == text_of(a, original, add) + text_of(b, original, add),
        total_len(a + b) == total_len(a) + total_len(b),
    decreases b.len(),
{
    if b.len() == 0 {
        assert(a + b =~= a);
        assert(text_of(a, original, add) + text_of(b, original, add) =~= text_of(a, original, add));
    } else {
        lemma_text_concat(a, b.drop_last(), original, add);
        assert((a + b).drop_last() =~= a + b.drop_last());
        assert((a + b).last() == b.last());
        assert(text_of(a + b, original, add) =~= text_of(a, original, add) + text_of(b, original, add));
    }
}

/// The text and the length of a single piece.
pub proof fn lemma_text_one(e: PieceTableEntry, original: Seq<char>, add: Seq<char>)
    ensures
        text_of(seq![e], original, add) == piece_text(e, original, add),
        total_len(seq![e]) == e.length,
{
    assert(seq![e].drop_last() =~= Seq::<PieceTableEntry>::empty());
    assert(text_of(seq![e].drop_last(), original, add) =~= Seq::<char>::empty());
    assert(total_len(seq![e].drop_last()) == 0);
    assert(text_of(seq![e], original, add) =~= piece_text(e, original, add));
}

/// The text of live pieces is as long as their lengths add up to.
pub proof fn lemma_text_len(pieces: Seq<PieceTableEntry>, original: Seq<char>, add: Seq<char>)
    requires
        forall|k: int| 0 <= k < pieces.len() ==> valid_piece(#[trigger] pieces[k], original, add),
    ensures
        text_of(pieces, original, add).len() == total_len(pieces),
    decreases pieces.len(),
{
    if pieces.len() > 0 {
        let q = pieces.drop_last();
        assert forall|k: int| 0 <= k < q.len() implies valid_piece(#[trigger] q[k], original, add) by {
            assert(q[k] == pieces[k]);
        }
        lemma_text_len(q, original, add);
        assert(valid_piece(pieces[pieces.len() - 1], original, add));
    }
}

/// Appending to the add buffer leaves the text of live pieces as it was.
pub proof fn lemma_text_add_push(
    pieces: Seq<PieceTableEntry>,
    original: Seq<char>,
    add: Seq<char>,
    c: char,
)
    requires
        forall|k: int| 0 <= k < pieces.len() ==> valid_piece(#[trigger] pieces[k], original, add),
    ensures
        text_of(pieces, original, add.push(c)) == text_of(pieces, original, add),
    decreases pieces.len(),
{
    if pieces.len() > 0 {
        let q = pieces.drop_last();
        assert forall|k: int| 0 <= k < q.len() implies valid_piece(#[trigger] q[k], original, add) by {
            assert(q[k] == pieces[k]);
        }
        lemma_text_add_push(q, original, add, c);
        let e = pieces.last();
        assert(valid_piece(pieces[pieces.len() - 1], original, add));
        assert(piece_text(e, original, add.push(c)) =~= piece_text(e, original, add));
    }
}

/// The text of a sequence split at `i..j`.
pub proof fn lemma_text_split(
    pieces: Seq<PieceTableEntry>,
    i: int,
    j: int,
    original: Seq<char>,
    add: Seq<char>,
)
    requires
        0 <= i <= j <= pieces.len(),
    ensures
        pieces == pieces.take(i) + pieces.subrange(i, j) + pieces.skip(j),
        text_of(pieces, original, add) == text_of(pieces.take(i), original, add) + text_of(
            pieces.subrange(i, j),
            original,
            add,
        ) + text_of(pieces.skip(j), original, add),
        total_len(pieces) == total_len(pieces.take(i)) + total_len(pieces.subrange(i, j))
            + total_len(pieces.skip(j)),
{
    assert(pieces =~= pieces.take(i) + pieces.subrange(i, j) + pieces.skip(j));
    lemma_text_concat(pieces.take(i), pieces.subrange(i, j), original, add);
    lemma_text_concat(pieces.take(i) + pieces.subrange(i, j), pieces.skip(j), original, add);
}

/// The piece offsets grow by the length of each piece.
pub proof fn lemma_offset_step(pieces: Seq<PieceTableEntry>, k: int)
    requires
        0 <= k < pieces.len(),
    ensures
        offset_of(pieces, (k + 1) as int) == offset_of(pieces, k) + pieces[k].length,
        offset_of(pieces, (k + 1) as int) <= total_len(pieces),
{
    assert(pieces.take(k + 1).drop_last() =~= pieces.take(k));
    assert(pieces.take(k + 1).last() == pieces[k]);
    lemma_text_split(pieces, k + 1, pieces.len() as int, Seq::empty(), Seq::empty());
}

/// Where `locate` lands: inside piece `i`, or past the last piece when the
/// index reaches the end of the document.
pub proof fn lemma_locate(pieces: Seq<PieceTableEntry>, index: nat, k: nat)
    requires
        k <= pieces.len(),
        offset_of(pieces, k as int) <= index,
    ensures
        k <= find_piece(pieces, index, k) <= pieces.len(),
        find_piece(pieces, index, k) < pieces.len() ==> {
            let i = find_piece(pieces, index, k) as int;
            offset_of(pieces, i) <= index < offset_of(pieces, i + 1)
        },
        find_piece(pieces, index, k) == pieces.len() ==> index >= total_len(pieces),
    decreases pieces.len() - k,
{
    if k == pieces.len() {
        assert(pieces.take(k as int) =~= pieces);
    } else if index >= offset_of(pieces, (k + 1) as int) {
        lemma_locate(pieces, index, k + 1);
    }
}

/// The text of the first `i` pieces is as long as their lengths add up to.
pub proof fn lemma_prefix_len(pieces: Seq<PieceTableEntry>, i: int, original: Seq<char>, add: Seq<char>)
    requires
        pieces_live(pieces, original, add),
        0 <= i <= pieces.len(),
    ensures
        text_of(pieces.take(i), original, add).len() == offset_of(pieces, i),
{
    let t = pieces.take(i);
    assert forall|k: int| 0 <= k < t.len() implies valid_piece(#[trigger] t[k], original, add) by {
        assert(t[k] == pieces[k]);
    }
    lemma_text_len(t, original, add);
}

/// Live pieces stay live when a character is appended to the add buffer.
pub proof fn lemma_live_push(pieces: Seq<PieceTableEntry>, original: Seq<char>, add: Seq<char>, c: char)
    requires
        pieces_live(pieces, original, add),
    ensures
        pieces_live(pieces, original, add.push(c)),
{
    assert forall|k: int| 0 <= k < pieces.len() implies valid_piece(#[trigger] pieces[k], original, add.push(c)) by {
        assert(valid_piece(pieces[k], original, add));
    }
}

/// Replacing pieces `i..j` by `mid`: the text and the length of the result,
/// and that it stays live when `mid` is.
pub proof fn lemma_splice(
    pieces: Seq<PieceTableEntry>,
    i: int,
    j: int,
    mid: Seq<PieceTableEntry>,
    original: Seq<char>,
    add: Seq<char>,
)
    requires
        0 <= i <= j <= pieces.len(),
    ensures
        text_of(pieces.take(i) + mid + pieces.skip(j), original, add) == text_of(pieces.take(i), original, add)
            + text_of(mid, original, add) + text_of(pieces.skip(j), original, add),
        total_len(pieces.take(i) + mid + pieces.skip(j)) == total_len(pieces.take(i)) + total_len(mid)
            + total_len(pieces.skip(j)),
        pieces_live(pieces, original, add) && pieces_live(mid, original, add) ==> pieces_live(
            pieces.take(i) + mid + pieces.skip(j),
            original,
            add,
        ),
{
    lemma_text_concat(pieces.take(i), mid, original, add);
    lemma_text_concat(pieces.take(i) + mid, pieces.skip(j), original, add);
    let q = pieces.take(i) + mid + pieces.skip(j);
    if pieces_live(pieces, original, add) && pieces_live(mid, original, add) {
        assert forall|k: int| 0 <= k < q.len() implies valid_piece(#[trigger] q[k], original, add) by {
            if k < i {
                assert(q[k] == pieces[k]);
            } else if k < i + mid.len() {
                assert(q[k] == mid[k - i]);
            } else {
                assert(q[k] == pieces[k - i - mid.len() + j]);
            }
        }
    }
}

/// The text and the length of a sequence of two or of three pieces.
pub proof fn lemma_text_few(a: PieceTableEntry, b: PieceTableEntry, c: PieceTableEntry, original: Seq<char>, add: Seq<char>)
    ensures
        text_of(seq![a, b], original, add) == piece_text(a, original, add) + piece_text(b, original, add),
        total_len(seq![a, b]) == a.length + b.length,
        text_of(seq![a, b, c], original, add) == piece_text(a, original, add) + piece_text(b, original, add)
            + piece_text(c, original, add),
        total_len(seq![a, b, c]) == a.length + b.length + c.length,
{
    lemma_text_one(a, original, add);
    lemma_text_one(b, original, add);
    lemma_text_one(c, original, add);
    assert(seq![a, b] =~= seq![a] + seq![b]);
    lemma_text_concat(seq![a], seq![b], original, add);
    assert(seq![a, b, c] =~= seq![a, b] + seq![c]);
    lemma_text_concat(seq![a, b], seq![c], original, add);
}

/// The document around the piece at position `i`: the text before it, its
/// own text, and the text after it.
pub proof fn lemma_text_around(pieces: Seq<PieceTableEntry>, i: int, original: Seq<char>, add: Seq<char>)
    requires
        valid_rows(pieces, original, add),
        0 <= i < pieces.len(),
    ensures
        text_of(pieces, original, add) == text_of(pieces.take(i), original, add) + piece_text(
            pieces[i],
            original,
            add,
        ) + text_of(pieces.skip(i + 1), original, add),
        text_of(pieces.take(i), original, add).len() == offset_of(pieces, i),
        piece_text(pieces[i], original, add).len() == pieces[i].length,
{
    lemma_text_split(pieces, i, i + 1, original, add);
    assert(pieces.subrange(i, i + 1) =~= seq![pieces[i]]);
    lemma_text_one(pieces[i], original, add);
    lemma_prefix_len(pieces, i, original, add);
    assert(valid_piece(pieces[i], original, add));
}

/// Inserting strictly inside piece `i`: the piece is split round a new
/// one-character piece.
pub proof fn lemma_insert_inside(
    p: Seq<PieceTableEntry>,
    i: int,
    index: nat,
    orig: Seq<char>,
    add: Seq<char>,
    c: char,
)
    requires
        valid_rows(p, orig, add),
        total_len(p) < usize::MAX,
        add.len() < usize::MAX,
        orig.len() <= usize::MAX,
        0 <= i < p.len(),
        offset_of(p, i) < index < offset_of(p, i + 1),
    ensures
        ({
            let e = p[i];
            let off = (index - offset_of(p, i)) as nat;
            let q = p.take(i) + seq![head(e, off), fresh_piece(add.len()), tail(e, off)] + p.skip(i + 1);
            &&& valid_rows(q, orig, add.push(c))
            &&& text_of(q, orig, add.push(c)) == text_of(p, orig, add).insert(index as int, c)
        }),
{
    let add2 = add.push(c);
    let e = p[i];
    let off = (index - offset_of(p, i)) as nat;
    let h = head(e, off);
    let f = fresh_piece(add.len());
    let t = tail(e, off);
    let mid = seq![h, f, t];
    lemma_offset_step(p, i);
    lemma_live_push(p, orig, add, c);
    lemma_text_add_push(p, orig, add, c);
    lemma_text_around(p, i, orig, add2);
    lemma_text_few(h, f, t, orig, add2);
    lemma_text_split(p, i, i + 1, orig, add2);
    assert(p.subrange(i, i + 1) =~= seq![e]);
    lemma_text_one(e, orig, add2);
    assert(valid_piece(p[i], orig, add2));
    assert(pieces_live(mid, orig, add2)) by {
        assert(mid[0] == h && mid[1] == f && mid[2] == t);
    }
    lemma_splice(p, i, i + 1, mid, orig, add2);
    let pe = piece_text(e, orig, add2);
    assert(piece_text(h, orig, add2) =~= pe.take(off as int));
    assert(piece_text(t, orig, add2) =~= pe.skip(off as int));
    assert(piece_text(f, orig, add2) =~= seq![c]);
    let q = p.take(i) + mid + p.skip(i + 1);
    assert(text_of(q, orig, add2) =~= text_of(p, orig, add).insert(index as int, c));
}

/// Inserting just after a coalescible piece `k`: that piece grows by one.
pub proof fn lemma_insert_grow(
    p: Seq<PieceTableEntry>,
    k: int,
    index: nat,
    orig: Seq<char>,
    add: Seq<char>,
    c: char,
)
    requires
        valid_rows(p, orig, add),
        total_len(p) < usize::MAX,
        add.len() < usize::MAX,
        0 <= k < p.len(),
        index == offset_of(p, k + 1),
        coalescible(p[k], add.len()),
    ensures
        ({
            let q = p.update(k, grown(p[k]));
            &&& valid_rows(q, orig, add.push(c))
            &&& text_of(q, orig, add.push(c)) == text_of(p, orig, add).insert(index as int, c)
        }),
{
    let add2 = add.push(c);
    let e = p[k];
    let g = grown(e);
    lemma_offset_step(p, k);
    lemma_live_push(p, orig, add, c);
    lemma_text_add_push(p, orig, add, c);
    let q = p.update(k, g);
    assert(q =~= p.take(k) + seq![g] + p.skip(k + 1));
    lemma_text_around(p, k, orig, add2);
    lemma_text_one(g, orig, add2);
    lemma_text_split(p, k, k + 1, orig, add2);
    assert(p.subrange(k, k + 1) =~= seq![e]);
    lemma_text_one(e, orig, add2);
    assert(valid_piece(p[k], orig, add2));
    assert(pieces_live(seq![g], orig, add2)) by {
        assert(seq![g][0] == g);
    }
    lemma_splice(p, k, k + 1, seq![g], orig, add2);
    assert(piece_text(g, orig, add2) =~= piece_text(e, orig, add2).push(c));
    assert(text_of(q, orig, add2) =~= text_of(p, orig, add).insert(index as int, c));
}

/// Inserting at the start of piece `i`, or past the last piece, with a new
/// one-character piece.
pub proof fn lemma_insert_fresh(
    p: Seq<PieceTableEntry>,
    i: int,
    index: nat,
    orig: Seq<char>,
    add: Seq<char>,
    c: char,
)
    requires
        valid_rows(p, orig, add),
        total_len(p) < usize::MAX,
        add.len() < usize::MAX,
        0 <= i <= p.len(),
        index == offset_of(p, i),
    ensures
        ({
            let q = p.insert(i, fresh_piece(add.len()));
            &&& valid_rows(q, orig, add.push(c))
            &&& text_of(q, orig, add.push(c)) == text_of(p, orig, add).insert(index as int, c)
        }),
{
    let add2 = add.push(c);
    let f = fresh_piece(add.len());
    lemma_live_push(p, orig, add, c);
    lemma_text_add_push(p, orig, add, c);
    let q = p.insert(i, f);
    assert(q =~= p.take(i) + seq![f] + p.skip(i));
    lemma_text_one(f, orig, add2);
    lemma_splice(p, i, i, seq![f], orig, add2);
    lemma_text_split(p, i, i, orig, add2);
    assert(p.subrange(i, i) =~= Seq::<PieceTableEntry>::empty());
    lemma_prefix_len(p, i, orig, add2);
    assert(pieces_live(seq![f], orig, add2)) by {
        assert(seq![f][0] == f);
    }
    assert(text_of(q, orig, add2) =~= text_of(p, orig, add).insert(index as int, c));
}

/// Deleting inside piece `i`, as `pieces_after_delete` says: the result is
/// live and its text is the old one without the character at `index`.
pub proof fn lemma_delete(p: Seq<PieceTableEntry>, i: int, index: nat, orig: Seq<char>, add: Seq<char>)
    requires
        valid_rows(p, orig, add),
        orig.len() <= usize::MAX,
        add.len() <= usize::MAX,
        0 <= i < p.len(),
        locate(p, index) == i,
        offset_of(p, i) <= index < offset_of(p, i + 1),
    ensures
        valid_rows(pieces_after_delete(p, index), orig, add),
        text_of(pieces_after_delete(p, index), orig, add) == text_of(p, orig, add).remove(index as int),
{
    let e = p[i];
    let off = (index - offset_of(p, i)) as nat;
    let mid: Seq<PieceTableEntry> = if e.length == 1 {
        Seq::empty()
    } else if off == 0 {
        seq![tail(e, 1)]
    } else if off + 1 == e.length {
        seq![head(e, off)]
    } else {
        seq![head(e, off), tail(e, off + 1)]
    };
    let q = p.take(i) + mid + p.skip(i + 1);
    assert(q =~= pieces_after_delete(p, index));
    lemma_offset_step(p, i);
    lemma_text_around(p, i, orig, add);
    lemma_text_split(p, i, i + 1, orig, add);
    assert(p.subrange(i, i + 1) =~= seq![e]);
    lemma_text_one(e, orig, add);
    assert(valid_piece(p[i], orig, add));
    let pe = piece_text(e, orig, add);
    if e.length == 1 {
        assert(text_of(mid, orig, add) =~= pe.remove(off as int));
    } else if off == 0 {
        lemma_text_one(tail(e, 1), orig, add);
        assert(text_of(mid, orig, add) =~= pe.remove(off as int));
        assert(pieces_live(mid, orig, add)) by {
            assert(mid[0] == tail(e, 1));
        }
    } else if off + 1 == e.length {
        lemma_text_one(head(e, off), orig, add);
        assert(text_of(mid, orig, add) =~= pe.remove(off as int));
        assert(pieces_live(mid, orig, add)) by {
            assert(mid[0] == head(e, off));
        }
    } else {
        lemma_text_few(head(e, off), tail(e, off + 1), e, orig, add);
        assert(text_of(mid, orig, add) =~= pe.remove(off as int));
        assert(pieces_live(mid, orig, add)) by {
            assert(mid[0] == head(e, off) && mid[1] == tail(e, off + 1));
        }
    }
    lemma_splice(p, i, i + 1, mid, orig, add);
    assert(text_of(q, orig, add) =~= text_of(p, orig, add).remove(index as int));
}

/// The document lies in the pieces in order: `locate` finds the piece that
/// holds an index below the document length, and lands past the last piece
/// for an index at or beyond it.
pub proof fn lemma_locate_model(m: TableModel, index: nat)
    requires
        m.wf(),
    ensures
        m.document().len() == total_len(m.pieces),
        locate(m.pieces, index) <= m.pieces.len(),
        index < m.document().len() <==> locate(m.pieces, index) < m.pieces.len(),
        locate(m.pieces, index) < m.pieces.len() ==> {
            let i = locate(m.pieces, index) as int;
            offset_of(m.pieces, i) <= index < offset_of(m.pieces, i + 1)
        },
        locate(m.pieces, index) == m.pieces.len() ==> offset_of(m.pieces, m.pieces.len() as int) == total_len(
            m.pieces,
        ),
{
    let p = m.pieces;
    assert(p.take(0) =~= Seq::<PieceTableEntry>::empty());
    assert(p.take(p.len() as int) =~= p);
    lemma_text_len(p, m.original, m.add);
    lemma_locate(p, index, 0);
    let i = locate(p, index) as int;
    if i < p.len() {
        lemma_offset_step(p, i);
    }
}

/// Inserting keeps the table well formed and puts the character at the
/// index asked for.
pub proof fn lemma_inserted(m: TableModel, c: char, index: nat)
    requires
        m.wf(),
        m.has_room(),
        index <= m.document().len(),
    ensures
        m.inserted(c, index).wf(),
        m.inserted(c, index).document() == m.document().insert(index as int, c),
        m.inserted(c, index).add == m.add.push(c),
{
    let p = m.pieces;
    lemma_locate_model(m, index);
    let i = locate(p, index) as int;
    if i < p.len() && index > offset_of(p, i) {
        lemma_insert_inside(p, i, index, m.original, m.add, c);
    } else if i > 0 && coalescible(p[i - 1], m.add.len()) {
        lemma_insert_grow(p, i - 1, index, m.original, m.add, c);
    } else {
        assert(p.insert(i, fresh_piece(m.add.len())) == pieces_after_insert(p, m.add.len(), index));
        lemma_insert_fresh(p, i, index, m.original, m.add, c);
    }
}

/// Deleting keeps the table well formed and removes the character at the
/// index asked for.
pub proof fn lemma_deleted(m: TableModel, index: nat)
    requires
        m.wf(),
        m.original.len() <= usize::MAX,
        m.add.len() <= usize::MAX,
        index < m.document().len(),
    ensures
        m.deleted(index).wf(),
        m.deleted(index).document() == m.document().remove(index as int),
{
    lemma_locate_model(m, index);
    lemma_delete(m.pieces, locate(m.pieces, index) as int, index, m.original, m.add);
}

impl TableModel {
    /// The state after inserting `c` at logical index `index`.
    pub open spec fn inserted(self, c: char, index: nat) -> TableModel {
        TableModel {
            pieces: pieces_after_insert(self.pieces, self.add.len(), index),
            original: self.original,
            add: self.add.push(c),
        }
    }

    /// The state after deleting the character at logical index `index`.
    pub open spec fn deleted(self, index: nat) -> TableModel {
        TableModel { pieces: pieces_after_delete(self.pieces, index), original: self.original, add: self.add }
    }

    /// The logical document.
    pub open spec fn document(self) -> Seq<char> {
        text_of(self.pieces, self.original, self.add)
    }

    /// The machine bounds under which one more character can be inserted.
    pub open spec fn has_room(self) -> bool {
        &&& self.document().len() < usize::MAX
        &&& self.add.len() < usize::MAX
        &&& self.original.len() <= usize::MAX
    }

    /// Well formed: no empty piece, no piece past the end of its buffer, and
    /// a document length that fits in `usize`.
    pub open spec fn wf(self) -> bool {
        valid_rows(self.pieces, self.original, self.add)
    }
}

impl View for PieceTable {
    type V = TableModel;

    closed spec fn view(&self) -> TableModel {
        TableModel { pieces: self.rows@, original: self.original_buffer@, add: self.add_buffer@ }
    }
}

/// The characters of `s`, in order.
fn chars_of(s: &str) -> (r: Vec<char>)
    ensures
        r@ == s@,
{
    let mut r: Vec<char> = Vec::new();
    for ch in it: s.chars()
        invariant
            r@ == it.seq().take(it.index() as int),
    {
        r.push(ch);
    }
    r
}

impl PieceTable {
    /// Well formed, as `TableModel::wf` says of its state.
    pub open spec fn wf(&self) -> bool {
        self@.wf()
    }

    /// A table whose document is `original_buffer`: one `Original` piece over
    /// the whole text, or no piece when the text is empty.
    /// Finds the piece that holds logical index `index`, and the offset
    /// of `index` inside it; the position is the number of pieces when the
    /// index lies at or past the end of the document.
    fn locate(&self, index: usize) -> (r: (usize, usize))
        requires
            self.wf(),
        ensures
            r.0 == locate(self@.pieces, index as nat),
            r.0 <= self@.pieces.len(),
            r.0 < self@.pieces.len() ==> r.1 == index - offset_of(self@.pieces, r.0 as int)
                && offset_of(self@.pieces, r.0 as int) <= index < offset_of(self@.pieces, r.0 + 1),
            r.0 == self@.pieces.len() ==> index >= self@.document().len() && r.1 == index
                - self@.document().len(),
    {
        let ghost p = self.rows@;
        let mut k: usize = 0;
        let mut running: usize = 0;
        proof {
            assert(p.take(0) =~= Seq::<PieceTableEntry>::empty());
        }
        while k < self.rows.len()
            invariant
                p == self.rows@,
                self.wf(),
                k <= p.len(),
                running == offset_of(p, k as int),
                running <= index,
                find_piece(p, index as nat, k as nat) == find_piece(p, index as nat, 0),
            decreases p.len() - k,
        {
            proof {
                lemma_offset_step(p, k as int);
            }
            let len = self.rows[k].length;
            if index < running + len {
                proof {
                    lemma_locate(p, index as nat, k as nat);
                }
                return (k, index - running);
            }
            running = running + len;
            k = k + 1;
        }
        proof {
            lemma_locate(p, index as nat, k as nat);
            lemma_text_len(p, self.original_buffer@, self.add_buffer@);
            assert(p.take(k as int) =~= p);
        }
        (k, index - running)
    }

    /// The buffer that `b` names.
    fn buffer(&self, b: Buffer) -> (r: &Vec<char>)
        ensures
            r@ == source(b, self@.original, self@.add),
    {
        match b {
            Buffer::Original => &self.original_buffer,
            Buffer::Add => &self.add_buffer,
        }
    }

    /// The number of characters in the document.
    pub fn document_length(&self) -> (r: usize)
        requires
            self.wf(),
        ensures
            r == self@.document().len(),
    {
        let ghost p = self.rows@;
        let mut k: usize = 0;
        let mut running: usize = 0;
        proof {
            assert(p.take(0) =~= Seq::<PieceTableEntry>::empty());
        }
        while k < self.rows.len()
            invariant
                p == self.rows@,
                self.wf(),
                k <= p.len(),
                running == offset_of(p, k as int),
            decreases p.len() - k,
        {
            proof {
                lemma_offset_step(p, k as int);
            }
            running = running + self.rows[k].length;
            k = k + 1;
        }
        proof {
            assert(p.take(k as int) =~= p);
            lemma_text_len(p, self.original_buffer@, self.add_buffer@);
        }
        running
    }

    /// The character at logical index `index`, or `None` past the end.
    pub fn get(&self, index: usize) -> (r: Option<char>)
        requires
            self.wf(),
        ensures
            index < self@.document().len() ==> r == Some(self@.document()[index as int]),
            index >= self@.document().len() ==> r is None,
    {
        let (i, off) = self.locate(index);
        if i == self.rows.len() {
            return None;
        }
        let e = self.rows[i];
        proof {
            lemma_text_around(self.rows@, i as int, self.original_buffer@, self.add_buffer@);
            lemma_text_len(self.rows@, self.original_buffer@, self.add_buffer@);
            assert(valid_piece(self.rows@[i as int], self.original_buffer@, self.add_buffer@));
            lemma_offset_step(self.rows@, i as int);
            assert(e == self.rows@[i as int]);
            assert(off < e.length);
            assert(e.start_index + e.length <= source(e.buffer, self.original_buffer@, self.add_buffer@).len());
        }
        let buf = self.buffer(e.buffer);
        let n = buf.len();
        assert(e.start_index + off < n);
        Some(buf[e.start_index + off])
    }

    /// The character at logical index `index`; a space past the end of the
    /// document, so that a renderer may probe one position too far.
    pub fn index(&self, index: usize) -> (r: char)
        requires
            self.wf(),
        ensures
            index < self@.document().len() ==> r == self@.document()[index as int],
            index >= self@.document().len() ==> r == ' ',
    {
        match self.get(index) {
            Some(c) => c,
            None => ' ',
        }
    }

    /// Whether `entry` ends where the next appended character will stand
    /// (checked before that character is appended).
    fn is_appendable(&self, entry: &PieceTableEntry) -> (r: bool)
        ensures
            r == coalescible(*entry, self@.add.len()),
    {
        match entry.buffer {
            Buffer::Add => entry.start_index as u128 + entry.length as u128 == self.add_buffer.len() as u128,
            Buffer::Original => false,
        }
    }

    /// Inserts `c` so that it stands at logical index `index`; any index up
    /// to the document length, that one included, is accepted. The character
    /// is appended to the add buffer and the piece sequence is rewritten
    /// round it, growing a coalescible piece that ends just before it. A
    /// larger index is refused with `IndexOutOfBounds` and nothing changes.
    pub fn insert(&mut self, c: char, index: usize) -> (r: Result<(), PieceTableError>)
        requires
            old(self).wf(),
            old(self)@.document().len() < usize::MAX,
        ensures
            final(self).wf(),
            index <= old(self)@.document().len() ==> {
                &&& r is Ok
                &&& final(self)@ == old(self)@.inserted(c, index as nat)
                &&& final(self)@.document() == old(self)@.document().insert(index as int, c)
            },
            index > old(self)@.document().len() ==> r == Err::<(), PieceTableError>(
                PieceTableError::IndexOutOfBounds,
            ) && final(self)@ == old(self)@,
    {
        let (i, off) = self.locate(index);
        let n = self.rows.len();
        if i == n && off > 0 {
            return Err(PieceTableError::IndexOutOfBounds);
        }
        let ghost m = self@;
        let ghost p = self.rows@;
        let _orig_len = self.original_buffer.len();
        let add_len = self.add_buffer.len();
        proof {
            lemma_locate_model(m, index as nat);
            if i < n {
                lemma_offset_step(p, i as int);
                assert(valid_piece(p[i as int], m.original, m.add));
            }
        }
        let fresh = PieceTableEntry { buffer: Buffer::Add, start_index: add_len, length: 1 };
        let coalesce = off == 0 && i > 0 && self.is_appendable(&self.rows[i - 1]);
        self.add_buffer.push(c);
        let _grown_len = self.add_buffer.len();
        if off > 0 {
            let e = self.rows[i];
            let blen = self.buffer(e.buffer).len();
            assert(e.start_index + off < blen);
            let t = PieceTableEntry { buffer: e.buffer, start_index: e.start_index + off, length: e.length - off };
            self.rows.set(i, PieceTableEntry { buffer: e.buffer, start_index: e.start_index, length: off });
            self.rows.insert(i + 1, fresh);
            let _len = self.rows.len();
            self.rows.insert(i + 2, t);
        } else if coalesce {
            let e = self.rows[i - 1];
            let g = PieceTableEntry { buffer: e.buffer, start_index: e.start_index, length: e.length + 1 };
            self.rows.set(i - 1, g);
        } else {
            self.rows.insert(i, fresh);
        }
        proof {
            assert(self.rows@ =~= pieces_after_insert(p, m.add.len(), index as nat));
            lemma_inserted(m, c, index as nat);
        }
        Ok(())
    }

    /// Drops the last character of the piece at position `index`, and the
    /// piece itself when that was its only character.
    fn shrink_or_delete_entry(&mut self, index: usize)
        requires
            index < old(self)@.pieces.len(),
        ensures
            final(self)@.original == old(self)@.original,
            final(self)@.add == old(self)@.add,
            old(self)@.pieces[index as int].length < 2 ==> final(self)@.pieces == old(self)@.pieces.remove(
                index as int,
            ),
            old(self)@.pieces[index as int].length >= 2 ==> final(self)@.pieces == old(self)@.pieces.update(
                index as int,
                head(old(self)@.pieces[index as int], (old(self)@.pieces[index as int].length - 1) as nat),
            ),
    {
        let entry = self.rows[index];
        if entry.length < 2 {
            self.rows.remove(index);
        } else {
            self.rows.set(
                index,
                PieceTableEntry { buffer: entry.buffer, start_index: entry.start_index, length: entry.length - 1 },
            );
        }
    }

    /// Deletes the character at logical index `index`. The buffers stay as
    /// they are; only the piece sequence is rewritten. An index at or past
    /// the end of the document is refused with `IndexOutOfBounds` and nothing
    /// changes.
    pub fn delete(&mut self, index: usize) -> (r: Result<(), PieceTableError>)
        requires
            old(self).wf(),
        ensures
            final(self).wf(),
            index < old(self)@.document().len() ==> {
                &&& r is Ok
                &&& final(self)@ == old(self)@.deleted(index as nat)
                &&& final(self)@.document() == old(self)@.document().remove(index as int)
            },
            index >= old(self)@.document().len() ==> r == Err::<(), PieceTableError>(
                PieceTableError::IndexOutOfBounds,
            ) && final(self)@ == old(self)@,
    {
        let (i, off) = self.locate(index);
        if i == self.rows.len() {
            return Err(PieceTableError::IndexOutOfBounds);
        }
        let ghost p = self.rows@;
        let _orig_len = self.original_buffer.len();
        let _add_len = self.add_buffer.len();
        let e = self.rows[i];
        proof {
            lemma_offset_step(p, i as int);
            lemma_locate_model(self@, index as nat);
            lemma_deleted(self@, index as nat);
            assert(valid_piece(p[i as int], self.original_buffer@, self.add_buffer@));
        }
        if e.length == 1 || off + 1 == e.length {
            self.shrink_or_delete_entry(i);
        } else if off == 0 {
            self.rows.set(
                i,
                PieceTableEntry { buffer: e.buffer, start_index: e.start_index + 1, length: e.length - 1 },
            );
        } else {
            self.rows.set(i, PieceTableEntry { buffer: e.buffer, start_index: e.start_index, length: off });
            let t = PieceTableEntry {
                buffer: e.buffer,
                start_index: e.start_index + off + 1,
                length: e.length - off - 1,
            };
            self.rows.insert(i + 1, t);
        }
        proof {
            assert(self.rows@ =~= pieces_after_delete(p, index as nat));
        }
        Ok(())
    }

    /// Replaces the piece sequence, as an undo history restoring a snapshot
    /// would. A sequence with an empty piece, a piece past the end of its
    /// buffer, or a total length beyond `usize` is refused and nothing changes.
    pub fn set_rows(&mut self, rows: &Vec<PieceTableEntry>) -> (r: Result<(), PieceTableError>)
        requires
            old(self).wf(),
        ensures
            final(self).wf(),
            final(self)@.original == old(self)@.original,
            final(self)@.add == old(self)@.add,
            valid_rows(rows@, old(self)@.original, old(self)@.add) ==> r is Ok && final(self)@.pieces == rows@,
            !valid_rows(rows@, old(self)@.original, old(self)@.add) ==> r == Err::<(), PieceTableError>(
                PieceTableError::InvalidRows,
            ) && final(self)@ == old(self)@,
    {
        let ghost q = rows@;
        let ghost orig = self.original_buffer@;
        let ghost add = self.add_buffer@;
        let mut copy: Vec<PieceTableEntry> = Vec::new();
        let mut k: usize = 0;
        let mut running: usize = 0;
        proof {
            assert(q.take(0) =~= Seq::<PieceTableEntry>::empty());
        }
        while k < rows.len()
            invariant
                q == rows@,
                orig == self.original_buffer@,
                add == self.add_buffer@,
                self.wf(),
                k <= q.len(),
                running == offset_of(q, k as int),
                copy@ == q.take(k as int),
                forall|j: int| 0 <= j < k ==> valid_piece(#[trigger] q[j], orig, add),
            decreases q.len() - k,
        {
            let e = rows[k];
            let blen = self.buffer(e.buffer).len();
            proof {
                lemma_offset_step(q, k as int);
            }
            if e.length == 0 || e.length > blen || e.start_index > blen - e.length {
                assert(!valid_piece(q[k as int], orig, add));
                return Err(PieceTableError::InvalidRows);
            }
            if e.length > usize::MAX - running {
                proof {
                    lemma_text_split(q, k + 1, q.len() as int, orig, add);
                }
                return Err(PieceTableError::InvalidRows);
            }
            running = running + e.length;
            copy.push(e);
            k = k + 1;
            proof {
                assert(copy@ =~= q.take(k as int));
            }
        }
        proof {
            assert(q.take(k as int) =~= q);
        }
        self.rows = copy;
        Ok(())
    }

    /// The piece sequence.
    pub fn pieces(&self) -> (r: &Vec<PieceTableEntry>)
        ensures
            r@ == self@.pieces,
    {
        &self.rows
    }

    /// The original buffer: the text the table was made from.
    pub fn original_buffer(&self) -> (r: &Vec<char>)
        ensures
            r@ == self@.original,
    {
        &self.original_buffer
    }

    /// The add buffer: every inserted character, in the order of insertion.
    pub fn add_buffer(&self) -> (r: &Vec<char>)
        ensures
            r@ == self@.add,
    {
        &self.add_buffer
    }

    /// The whole document.
    pub fn contents(&self) -> (r: Vec<char>)
        requires
            self.wf(),
        ensures
            r@ == self@.document(),
    {
        let ghost p = self.rows@;
        let ghost orig = self.original_buffer@;
        let ghost add = self.add_buffer@;
        let mut out: Vec<char> = Vec::new();
        let mut k: usize = 0;
        proof {
            assert(p.take(0) =~= Seq::<PieceTableEntry>::empty());
        }
        while k < self.rows.len()
            invariant
                p == self.rows@,
                orig == self.original_buffer@,
                add == self.add_buffer@,
                self.wf(),
                k <= p.len(),
                out@ == text_of(p.take(k as int), orig, add),
            decreases p.len() - k,
        {
            let e = self.rows[k];
            let buf = self.buffer(e.buffer);
            let blen = buf.len();
            proof {
                assert(valid_piece(p[k as int], orig, add));
            }
            let ghost before = out@;
            let mut j: usize = 0;
            while j < e.length
                invariant
                    buf@ == source(e.buffer, orig, add),
                    blen == buf@.len(),
                    e.start_index + e.length <= blen,
                    j <= e.length,
                    out@ == before + buf@.subrange(e.start_index as int, e.start_index + j),
                decreases e.length - j,
            {
                out.push(buf[e.start_index + j]);
                j = j + 1;
                proof {
                    assert(out@ =~= before + buf@.subrange(e.start_index as int, e.start_index + j));
                }
            }
            proof {
                assert(p.take(k + 1).drop_last() =~= p.take(k as int));
                assert(p.take(k + 1).last() == p[k as int]);
            }
            k = k + 1;
        }
        proof {
            assert(p.take(k as int) =~= p);
        }
        out
    }

    pub fn new(original_buffer: String) -> (r: PieceTable)
        ensures
            r.wf(),
            r@.original == original_buffer@,
            r@.add == Seq::<char>::empty(),
            r@.document() == original_buffer@,
            original_buffer@.len() == 0 ==> r@.pieces.len() == 0,
            original_buffer@.len() > 0 ==> r@.pieces == seq![
                PieceTableEntry { buffer: Buffer::Original, start_index: 0, length: original_buffer@.len() as usize },
            ],
    {
        let original = chars_of(original_buffer.as_str());
        let mut rows: Vec<PieceTableEntry> = Vec::new();
        if original.len() > 0 {
            rows.push(PieceTableEntry { buffer: Buffer::Original, start_index: 0, length: original.len() });
        }
        let r = PieceTable { rows, original_buffer: original, add_buffer: Vec::new() };
        proof {
            let p = r.rows@;
            if p.len() > 0 {
                assert(p.drop_last() =~= Seq::<PieceTableEntry>::empty());
                assert(text_of(p.drop_last(), r.original_buffer@, r.add_buffer@) =~= Seq::empty());
                assert(total_len(p.drop_last()) == 0);
                assert(piece_text(p[0], r.original_buffer@, r.add_buffer@) =~= r.original_buffer@);
            }
            assert(r@.document() =~= original_buffer@);
        }
        r
    }
}

} // verus!
