//! Byte-level model of the text: splicing, and how UTF-8 character boundaries
//! behave under concatenation and slicing.

use vstd::prelude::*;
use vstd::utf8::*;

verus! {

/// The text `t` with `s` inserted immediately before the byte at `pos`.
pub open spec fn splice_in(t: Seq<u8>, pos: int, s: Seq<u8>) -> Seq<u8> {
    t.subrange(0, pos) + s + t.subrange(pos, t.len() as int)
}

/// The text `t` without the bytes `[pos, pos + n)`.
pub open spec fn splice_out(t: Seq<u8>, pos: int, n: int) -> Seq<u8> {
    t.subrange(0, pos) + t.subrange(pos + n, t.len() as int)
}

/// In valid UTF-8 a position is a character boundary exactly when it is the
/// end of the text or holds a byte that does not continue a character.
pub proof fn lemma_boundary_by_byte(t: Seq<u8>, pos: int)
    requires
        valid_utf8(t),
    ensures
        is_char_boundary(t, pos) <==> 0 <= pos <= t.len() && (pos == t.len()
            || !is_continuation_byte(t[pos])),
{
    if 0 <= pos < t.len() {
        is_char_boundary_iff_not_is_continuation_byte(t, pos);
    } else if pos == t.len() {
        is_char_boundary_start_end_of_seq(t);
    } else {
        reveal_with_fuel(is_char_boundary, 1);
    }
}

/// Where two valid texts are joined, the boundaries of the result are those of
/// the parts; the joint itself is one.
pub proof fn lemma_boundary_concat(a: Seq<u8>, b: Seq<u8>, i: int)
    requires
        valid_utf8(a),
        valid_utf8(b),
    ensures
        valid_utf8(a + b),
        i <= a.len() ==> (is_char_boundary(a + b, i) <==> is_char_boundary(a, i)),
        i >= a.len() ==> (is_char_boundary(a + b, i) <==> is_char_boundary(b, i - a.len())),
{
    valid_utf8_concat(a, b);
    lemma_boundary_by_byte(a + b, i);
    lemma_boundary_by_byte(a, i);
    lemma_boundary_by_byte(b, i - a.len());
    lemma_boundary_by_byte(b, 0);
}

/// A slice of valid text between two boundaries is valid text, and its
/// boundaries are those of the whole.
pub proof fn lemma_slice_between_boundaries(t: Seq<u8>, i: int, j: int, m: int)
    requires
        valid_utf8(t),
        is_char_boundary(t, i),
        is_char_boundary(t, j),
        i <= j,
    ensures
        valid_utf8(t.subrange(i, j)),
        i <= m <= j ==> (is_char_boundary(t.subrange(i, j), m - i) <==> is_char_boundary(t, m)),
{
    lemma_boundary_by_byte(t, i);
    lemma_boundary_by_byte(t, j);
    let head = t.subrange(0, j);
    valid_utf8_split(t, j);
    lemma_boundary_by_byte(head, i);
    valid_utf8_split(head, i);
    assert(head.subrange(i, head.len() as int) =~= t.subrange(i, j));
    lemma_boundary_by_byte(t.subrange(i, j), m - i);
    lemma_boundary_by_byte(t, m);
}

/// Encoding distributes over concatenation.
pub proof fn lemma_encode_concat(a: Seq<char>, b: Seq<char>)
    ensures
        encode_utf8(a + b) == encode_utf8(a) + encode_utf8(b),
    decreases a.len(),
{
    if a.len() == 0 {
        assert(a + b =~= b);
        assert(encode_utf8(a) + encode_utf8(b) =~= encode_utf8(b));
    } else {
        lemma_encode_concat(a.drop_first(), b);
        assert((a + b).drop_first() =~= a.drop_first() + b);
        assert(encode_scalar(a[0] as u32) + (encode_utf8(a.drop_first()) + encode_utf8(b))
            =~= (encode_scalar(a[0] as u32) + encode_utf8(a.drop_first())) + encode_utf8(b));
    }
}

/// Two texts are the same exactly when their encodings are.
pub proof fn lemma_same_bytes(a: Seq<char>, b: Seq<char>)
    ensures
        (a == b) <==> (encode_utf8(a) == encode_utf8(b)),
{
    encode_utf8_decode_utf8(a);
    encode_utf8_decode_utf8(b);
}

/// Inserting valid text at a boundary gives valid text, in which both ends of
/// the inserted part are boundaries.
pub proof fn lemma_splice_in_valid(t: Seq<u8>, pos: int, s: Seq<u8>)
    requires
        valid_utf8(t),
        valid_utf8(s),
        is_char_boundary(t, pos),
    ensures
        valid_utf8(splice_in(t, pos, s)),
        splice_in(t, pos, s).len() == t.len() + s.len(),
        is_char_boundary(splice_in(t, pos, s), pos),
        is_char_boundary(splice_in(t, pos, s), pos + s.len()),
{
    lemma_boundary_by_byte(t, pos);
    let head = t.subrange(0, pos);
    let tail = t.subrange(pos, t.len() as int);
    valid_utf8_split(t, pos);
    lemma_boundary_concat(head, s, pos);
    lemma_boundary_by_byte(head, pos);
    lemma_boundary_concat(head + s, tail, pos);
    lemma_boundary_by_byte(head + s, pos + s.len());
    lemma_boundary_concat(head + s, tail, pos + s.len());
}

/// Deleting from boundary to boundary gives valid text, in which the place of
/// the deletion is a boundary.
pub proof fn lemma_splice_out_valid(t: Seq<u8>, pos: int, n: int)
    requires
        valid_utf8(t),
        0 <= n,
        is_char_boundary(t, pos),
        is_char_boundary(t, pos + n),
    ensures
        valid_utf8(splice_out(t, pos, n)),
        splice_out(t, pos, n).len() == t.len() - n,
        is_char_boundary(splice_out(t, pos, n), pos),
{
    lemma_boundary_by_byte(t, pos);
    lemma_boundary_by_byte(t, pos + n);
    let head = t.subrange(0, pos);
    let tail = t.subrange(pos + n, t.len() as int);
    valid_utf8_split(t, pos);
    valid_utf8_split(t, pos + n);
    lemma_boundary_concat(head, tail, pos);
    lemma_boundary_by_byte(head, pos);
}

/// Behind a deletion, the boundaries of the text are those it had, moved down by
/// the number of bytes deleted.
pub proof fn lemma_boundary_behind_splice_out(t: Seq<u8>, pos: int, n: int, m: int)
    requires
        valid_utf8(t),
        0 <= n,
        is_char_boundary(t, pos),
        is_char_boundary(t, pos + n),
        pos + n <= m,
    ensures
        is_char_boundary(splice_out(t, pos, n), m - n) <==> is_char_boundary(t, m),
{
    lemma_boundary_by_byte(t, pos);
    lemma_boundary_by_byte(t, pos + n);
    lemma_boundary_by_byte(t, m);
    lemma_splice_out_valid(t, pos, n);
    lemma_boundary_by_byte(splice_out(t, pos, n), m - n);
}

/// Two deletions at one place are one deletion of both lengths.
pub proof fn lemma_splice_out_twice(t: Seq<u8>, pos: int, a: int, b: int)
    requires
        0 <= pos,
        0 <= a,
        0 <= b,
        pos + a + b <= t.len(),
    ensures
        splice_out(splice_out(t, pos, a), pos, b) == splice_out(t, pos, a + b),
{
    assert(splice_out(splice_out(t, pos, a), pos, b) =~= splice_out(t, pos, a + b));
}

/// Deleting what was just inserted gives the text back: after `s` is inserted
/// at `pos`, the bytes `[pos, pos + |s|)` can be deleted, and deleting them
/// restores the text, and with it which positions are boundaries.
pub proof fn law_insert_then_delete(t: Seq<u8>, pos: int, s: Seq<u8>)
    requires
        valid_utf8(t),
        valid_utf8(s),
        is_char_boundary(t, pos),
    ensures
        is_char_boundary(splice_in(t, pos, s), pos),
        is_char_boundary(splice_in(t, pos, s), pos + s.len()),
        splice_out(splice_in(t, pos, s), pos, s.len() as int) == t,
        forall|i: int|
            is_char_boundary(splice_out(splice_in(t, pos, s), pos, s.len() as int), i)
                == is_char_boundary(t, i),
{
    lemma_splice_in_valid(t, pos, s);
    lemma_boundary_by_byte(t, pos);
    assert(splice_out(splice_in(t, pos, s), pos, s.len() as int) =~= t);
}

} // verus!
