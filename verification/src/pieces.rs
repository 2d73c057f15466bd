//! The piece list as a mathematical object: what text it denotes over a given
//! storage, where a position falls in it, and what insertion and deletion make
//! of it.

use crate::text::{lemma_boundary_behind_splice_out, lemma_splice_out_twice, lemma_splice_out_valid};
use crate::text::{lemma_boundary_by_byte, lemma_boundary_concat, lemma_slice_between_boundaries};
use crate::text::{law_insert_then_delete, splice_in, splice_out};
use vstd::prelude::*;
use vstd::utf8::*;

verus! {

/// A piece: an offset into the storage and a length.
pub type Piece = (usize, usize);

/// The bytes of the storage that a piece refers to.
pub open spec fn chunk(storage: Seq<u8>, p: Piece) -> Seq<u8> {
    storage.subrange(p.0 as int, p.0 + p.1)
}

/// The sum of the lengths of the pieces.
pub open spec fn span(ps: Seq<Piece>) -> nat
    decreases ps.len(),
{
    if ps.len() == 0 {
        0
    } else {
        span(ps.drop_last()) + ps.last().1 as nat
    }
}

/// The text that the pieces denote: their chunks, in order.
pub open spec fn flatten(storage: Seq<u8>, ps: Seq<Piece>) -> Seq<u8>
    decreases ps.len(),
{
    if ps.len() == 0 {
        Seq::empty()
    } else {
        flatten(storage, ps.drop_last()) + chunk(storage, ps.last())
    }
}

/// The piece lies within the storage and both of its ends are character
/// boundaries of the storage.
pub open spec fn piece_fits(storage: Seq<u8>, p: Piece) -> bool {
    &&& p.0 + p.1 <= storage.len()
    &&& is_char_boundary(storage, p.0 as int)
    &&& is_char_boundary(storage, p.0 + p.1)
}

/// Every piece of the list fits the storage.
pub open spec fn all_fit(storage: Seq<u8>, ps: Seq<Piece>) -> bool {
    forall|i: int| 0 <= i < ps.len() ==> piece_fits(storage, #[trigger] ps[i])
}

/// What a piece table maintains: valid storage of a length that the machine
/// can hold, a list of pieces that is never empty, each piece fitting the
/// storage, and no more text than storage.
pub open spec fn well_formed(storage: Seq<u8>, ps: Seq<Piece>) -> bool {
    &&& valid_utf8(storage)
    &&& storage.len() <= usize::MAX
    &&& ps.len() > 0
    &&& all_fit(storage, ps)
    &&& span(ps) <= storage.len()
}

/// The index of the first piece through which the cumulative length is at
/// least `pos`, provided the whole list reaches `pos`.
pub open spec fn first_reaching(ps: Seq<Piece>, pos: int) -> int
    decreases ps.len(),
{
    if ps.len() == 0 {
        0
    } else if span(ps.drop_last()) >= pos {
        first_reaching(ps.drop_last(), pos)
    } else {
        ps.len() - 1
    }
}

/// The index of the first piece through which the cumulative length exceeds
/// `pos`, provided the whole list exceeds `pos`.
pub open spec fn first_exceeding(ps: Seq<Piece>, pos: int) -> int
    decreases ps.len(),
{
    if ps.len() == 0 {
        0
    } else if span(ps.drop_last()) > pos {
        first_exceeding(ps.drop_last(), pos)
    } else {
        ps.len() - 1
    }
}

/// Lookup for insertion: the first piece that reaches `pos`, a piece that ends
/// exactly at `pos` included, with the cumulative length through it; `None`
/// where `pos` is out of range.
pub open spec fn locate(ps: Seq<Piece>, pos: int) -> Option<(int, int)> {
    if ps.len() > 0 && span(ps) >= pos {
        let k = first_reaching(ps, pos);
        Some((k, span(ps.take(k + 1)) as int))
    } else {
        None
    }
}

/// Lookup for deletion: the first piece that strictly contains `pos`, with the
/// cumulative length through it; `None` where no piece does.
pub open spec fn locate_strict(ps: Seq<Piece>, pos: int) -> Option<(int, int)> {
    if ps.len() > 0 && span(ps) > pos {
        let k = first_exceeding(ps, pos);
        Some((k, span(ps.take(k + 1)) as int))
    } else {
        None
    }
}

/// The piece list after `n` bytes, appended to a storage that held `stored`
/// bytes, are inserted at `pos`: the piece that ends the storage is extended
/// where `pos` is its end; else a piece is added behind the one that ends at
/// `pos`; else the piece around `pos` is split in two around the new one.
pub open spec fn after_insert(ps: Seq<Piece>, stored: int, pos: int, n: int) -> Seq<Piece> {
    match locate(ps, pos) {
        None => ps,
        Some((k, end)) => {
            let (off, len) = ps[k];
            if pos == end && off + len == stored {
                ps.update(k, (off, (len + n) as usize))
            } else if pos == end {
                ps.insert(k + 1, (stored as usize, n as usize))
            } else {
                let keep = len - (end - pos);
                ps.update(k, (off, keep as usize)).insert(
                    k + 1,
                    (stored as usize, n as usize),
                ).insert(k + 2, ((off + keep) as usize, (end - pos) as usize))
            }
        },
    }
}

/// A list that is never empty: the empty list becomes the single piece `(0, 0)`.
pub open spec fn never_empty(ps: Seq<Piece>) -> Seq<Piece> {
    if ps.len() == 0 {
        seq![(0usize, 0usize)]
    } else {
        ps
    }
}

/// The piece list after the bytes `[pos, pos + n)` are deleted. The piece that
/// strictly contains `pos` is removed, cut at its start, cut at its end, or
/// split around the deleted range; where the range goes on beyond that piece,
/// the rest is deleted from what remains.
pub open spec fn after_delete(ps: Seq<Piece>, pos: int, n: int) -> Seq<Piece>
    decreases n,
{
    match locate_strict(ps, pos) {
        None => ps,
        Some((k, end)) => {
            let (off, len) = ps[k];
            let over = end - pos;
            if n <= 0 || over <= 0 {
                ps
            } else if pos == end - len {
                if pos + n == end {
                    never_empty(ps.remove(k))
                } else if pos + n > end {
                    after_delete(ps.remove(k), pos, n - over)
                } else {
                    ps.update(k, ((off + n) as usize, (len - n) as usize))
                }
            } else if pos + n == end {
                ps.update(k, (off, (len - n) as usize))
            } else if pos + n > end {
                after_delete(ps.update(k, (off, (len - over) as usize)), pos, n - over)
            } else {
                ps.update(k, (off, (len - over) as usize)).insert(
                    k + 1,
                    ((off + (len - over) + n) as usize, (over - n) as usize),
                )
            }
        },
    }
}

/// A list of one piece has the span and the text of that piece.
pub proof fn lemma_single(storage: Seq<u8>, p: Piece)
    ensures
        span(seq![p]) == p.1,
        flatten(storage, seq![p]) == chunk(storage, p),
{
    let m = seq![p];
    assert(m.drop_last() =~= Seq::<Piece>::empty());
    assert(span(m.drop_last()) == 0);
    assert(flatten(storage, m.drop_last()) =~= Seq::<u8>::empty());
    assert(flatten(storage, m) =~= chunk(storage, p));
}

/// Taking one more piece adds its length.
pub proof fn lemma_span_step(ps: Seq<Piece>, i: int)
    requires
        0 <= i < ps.len(),
    ensures
        span(ps.take(i + 1)) == span(ps.take(i)) + ps[i].1,
{
    assert(ps.take(i + 1).drop_last() =~= ps.take(i));
}

/// The span of a concatenation is the sum of the spans.
proof fn lemma_span_concat(a: Seq<Piece>, b: Seq<Piece>)
    ensures
        span(a + b) == span(a) + span(b),
    decreases b.len(),
{
    if b.len() == 0 {
        assert(a + b =~= a);
    } else {
        lemma_span_concat(a, b.drop_last());
        assert((a + b).drop_last() =~= a + b.drop_last());
    }
}

/// Cumulative lengths grow with the index.
pub proof fn lemma_span_monotone(ps: Seq<Piece>, i: int, j: int)
    requires
        0 <= i <= j <= ps.len(),
    ensures
        span(ps.take(i)) <= span(ps.take(j)),
        span(ps.take(j)) <= span(ps),
{
    lemma_span_concat(ps.take(i), ps.subrange(i, j));
    assert(ps.take(i) + ps.subrange(i, j) =~= ps.take(j));
    lemma_span_concat(ps.take(j), ps.skip(j));
    assert(ps.take(j) + ps.skip(j) =~= ps);
}

/// The text of a concatenation is the concatenation of the texts.
proof fn lemma_flatten_concat(storage: Seq<u8>, a: Seq<Piece>, b: Seq<Piece>)
    ensures
        flatten(storage, a + b) == flatten(storage, a) + flatten(storage, b),
    decreases b.len(),
{
    if b.len() == 0 {
        assert(a + b =~= a);
        assert(flatten(storage, a) + flatten(storage, b) =~= flatten(storage, a));
    } else {
        lemma_flatten_concat(storage, a, b.drop_last());
        assert((a + b).drop_last() =~= a + b.drop_last());
        assert(flatten(storage, a) + (flatten(storage, b.drop_last()) + chunk(storage, b.last()))
            =~= (flatten(storage, a) + flatten(storage, b.drop_last())) + chunk(
            storage,
            b.last(),
        ));
    }
}

/// The text of fitting pieces is valid and as long as their span.
pub proof fn lemma_flatten_valid(storage: Seq<u8>, ps: Seq<Piece>)
    requires
        valid_utf8(storage),
        all_fit(storage, ps),
    ensures
        valid_utf8(flatten(storage, ps)),
        flatten(storage, ps).len() == span(ps),
    decreases ps.len(),
{
    if ps.len() > 0 {
        let p = ps.last();
        lemma_flatten_valid(storage, ps.drop_last());
        lemma_slice_between_boundaries(storage, p.0 as int, p.0 + p.1, p.0 as int);
        valid_utf8_concat(flatten(storage, ps.drop_last()), chunk(storage, p));
    }
}

/// Storage that grows at its end keeps its pieces fitting and their text.
proof fn lemma_flatten_grow(storage: Seq<u8>, extra: Seq<u8>, ps: Seq<Piece>)
    requires
        valid_utf8(storage),
        valid_utf8(extra),
        all_fit(storage, ps),
    ensures
        all_fit(storage + extra, ps),
        flatten(storage + extra, ps) == flatten(storage, ps),
    decreases ps.len(),
{
    assert forall|i: int| 0 <= i < ps.len() implies piece_fits(
        storage + extra,
        #[trigger] ps[i],
    ) by {
        lemma_boundary_concat(storage, extra, ps[i].0 as int);
        lemma_boundary_concat(storage, extra, ps[i].0 + ps[i].1);
    }
    if ps.len() > 0 {
        lemma_flatten_grow(storage, extra, ps.drop_last());
        assert(chunk(storage + extra, ps.last()) =~= chunk(storage, ps.last()));
    }
}

/// A list of fitting pieces, seen around its piece `k`: the text is the text
/// before the piece, its chunk, and the text after it, each of them valid.
proof fn lemma_parts(storage: Seq<u8>, ps: Seq<Piece>, k: int)
    requires
        valid_utf8(storage),
        all_fit(storage, ps),
        0 <= k < ps.len(),
    ensures
        flatten(storage, ps) == flatten(storage, ps.take(k)) + chunk(storage, ps[k]) + flatten(
            storage,
            ps.skip(k + 1),
        ),
        span(ps) == span(ps.take(k)) + ps[k].1 + span(ps.skip(k + 1)),
        span(ps.take(k + 1)) == span(ps.take(k)) + ps[k].1,
        flatten(storage, ps.take(k)).len() == span(ps.take(k)),
        flatten(storage, ps.skip(k + 1)).len() == span(ps.skip(k + 1)),
        chunk(storage, ps[k]).len() == ps[k].1,
        valid_utf8(flatten(storage, ps)),
        valid_utf8(flatten(storage, ps.take(k))),
        valid_utf8(chunk(storage, ps[k])),
        valid_utf8(flatten(storage, ps.skip(k + 1))),
        all_fit(storage, ps.take(k)),
        all_fit(storage, ps.skip(k + 1)),
{
    let a = ps.take(k);
    let m = seq![ps[k]];
    let b = ps.skip(k + 1);
    assert(ps =~= a + m + b);
    lemma_single(storage, ps[k]);
    lemma_flatten_concat(storage, a, m);
    lemma_flatten_concat(storage, a + m, b);
    lemma_span_concat(a, m);
    lemma_span_concat(a + m, b);
    lemma_span_step(ps, k);
    lemma_flatten_valid(storage, ps);
    lemma_flatten_valid(storage, a);
    lemma_flatten_valid(storage, m);
    lemma_flatten_valid(storage, b);
}

/// Within a piece, the boundaries of the text are the boundaries of the
/// storage: the position `j` bytes into piece `k` is a character boundary of
/// the text exactly when the byte `j` of the piece's range is one of the
/// storage.
pub proof fn lemma_boundary_in_piece(storage: Seq<u8>, ps: Seq<Piece>, k: int, j: int)
    requires
        valid_utf8(storage),
        all_fit(storage, ps),
        0 <= k < ps.len(),
        0 <= j <= ps[k].1,
    ensures
        is_char_boundary(flatten(storage, ps), span(ps.take(k)) + j) <==> is_char_boundary(
            storage,
            ps[k].0 + j,
        ),
{
    lemma_parts(storage, ps, k);
    let pre = flatten(storage, ps.take(k));
    let mid = chunk(storage, ps[k]);
    let post = flatten(storage, ps.skip(k + 1));
    let p = ps[k];
    lemma_slice_between_boundaries(storage, p.0 as int, p.0 + p.1, p.0 + j);
    lemma_boundary_concat(pre, mid, pre.len() + j);
    lemma_boundary_concat(pre + mid, post, pre.len() + j);
}

/// What the lookup for insertion finds: a piece of the list through which the
/// cumulative length reaches `pos`, while it does not before that piece.
pub proof fn lemma_locate(ps: Seq<Piece>, pos: int)
    requires
        ps.len() > 0,
        span(ps) >= pos,
    ensures
        0 <= first_reaching(ps, pos) < ps.len(),
        span(ps.take(first_reaching(ps, pos) + 1)) >= pos,
        first_reaching(ps, pos) > 0 ==> span(ps.take(first_reaching(ps, pos))) < pos,
    decreases ps.len(),
{
    let init = ps.drop_last();
    if span(init) >= pos {
        if init.len() == 0 {
            assert(ps.take(1) =~= ps);
        } else {
            lemma_locate(init, pos);
            let k = first_reaching(init, pos);
            assert(init.take(k + 1) =~= ps.take(k + 1));
            assert(init.take(k) =~= ps.take(k));
        }
    } else {
        assert(ps.take(ps.len() as int) =~= ps);
        assert(ps.take(ps.len() - 1) =~= init);
    }
}

/// The lookup for insertion finds the one piece that reaches `pos` first.
pub proof fn lemma_locate_is(ps: Seq<Piece>, pos: int, k: int)
    requires
        0 <= k < ps.len(),
        span(ps.take(k + 1)) >= pos,
        k > 0 ==> span(ps.take(k)) < pos,
    ensures
        locate(ps, pos) == Some((k, span(ps.take(k + 1)) as int)),
{
    lemma_span_monotone(ps, k + 1, k + 1);
    lemma_locate(ps, pos);
    let f = first_reaching(ps, pos);
    if f < k {
        lemma_span_monotone(ps, f + 1, k);
    } else if k < f {
        lemma_span_monotone(ps, k + 1, f);
    }
}

/// What the lookup for deletion finds: a piece of the list through which the
/// cumulative length exceeds `pos`, while it does not before that piece.
pub proof fn lemma_locate_strict(ps: Seq<Piece>, pos: int)
    requires
        ps.len() > 0,
        span(ps) > pos,
    ensures
        0 <= first_exceeding(ps, pos) < ps.len(),
        span(ps.take(first_exceeding(ps, pos) + 1)) > pos,
        first_exceeding(ps, pos) > 0 ==> span(ps.take(first_exceeding(ps, pos))) <= pos,
    decreases ps.len(),
{
    let init = ps.drop_last();
    if span(init) > pos {
        if init.len() == 0 {
            assert(ps.take(1) =~= ps);
        } else {
            lemma_locate_strict(init, pos);
            let k = first_exceeding(init, pos);
            assert(init.take(k + 1) =~= ps.take(k + 1));
            assert(init.take(k) =~= ps.take(k));
        }
    } else {
        assert(ps.take(ps.len() as int) =~= ps);
        assert(ps.take(ps.len() - 1) =~= init);
    }
}

/// The lookup for deletion finds the one piece that exceeds `pos` first.
pub proof fn lemma_locate_strict_is(ps: Seq<Piece>, pos: int, k: int)
    requires
        0 <= k < ps.len(),
        span(ps.take(k + 1)) > pos,
        k > 0 ==> span(ps.take(k)) <= pos,
    ensures
        locate_strict(ps, pos) == Some((k, span(ps.take(k + 1)) as int)),
{
    lemma_span_monotone(ps, k + 1, k + 1);
    lemma_locate_strict(ps, pos);
    let f = first_exceeding(ps, pos);
    if f < k {
        lemma_span_monotone(ps, f + 1, k);
    } else if k < f {
        lemma_span_monotone(ps, k + 1, f);
    }
}

/// A list in which piece `k` gives way to the pieces `r`: its text is the old
/// text with the part of piece `k` replaced by the text of `r`.
proof fn lemma_replace(storage: Seq<u8>, ps: Seq<Piece>, k: int, r: Seq<Piece>)
    requires
        valid_utf8(storage),
        all_fit(storage, ps),
        all_fit(storage, r),
        0 <= k < ps.len(),
    ensures
        all_fit(storage, ps.take(k) + r + ps.skip(k + 1)),
        span(ps.take(k) + r + ps.skip(k + 1)) == span(ps) - ps[k].1 + span(r),
        span(ps.take(k + 1)) == span(ps.take(k)) + ps[k].1,
        span(ps.take(k + 1)) <= span(ps),
        flatten(storage, ps).len() == span(ps),
        flatten(storage, ps).subrange(span(ps.take(k)) as int, span(ps.take(k + 1)) as int)
            == chunk(storage, ps[k]),
        flatten(storage, ps.take(k) + r + ps.skip(k + 1)) == flatten(storage, ps).subrange(
            0,
            span(ps.take(k)) as int,
        ) + flatten(storage, r) + flatten(storage, ps).subrange(
            span(ps.take(k + 1)) as int,
            span(ps) as int,
        ),
{
    let a = ps.take(k);
    let b = ps.skip(k + 1);
    let text = flatten(storage, ps);
    lemma_parts(storage, ps, k);
    lemma_flatten_concat(storage, a, r);
    lemma_flatten_concat(storage, a + r, b);
    lemma_span_concat(a, r);
    lemma_span_concat(a + r, b);
    let pre = flatten(storage, a);
    let mid = chunk(storage, ps[k]);
    let post = flatten(storage, b);
    assert(text.subrange(0, pre.len() as int) =~= pre);
    assert(text.subrange(pre.len() as int, (pre.len() + mid.len()) as int) =~= mid);
    assert(text.subrange((pre.len() + mid.len()) as int, text.len() as int) =~= post);
}

/// A list of two pieces has the spans and the texts of both.
proof fn lemma_pair(storage: Seq<u8>, p: Piece, q: Piece)
    ensures
        span(seq![p, q]) == p.1 + q.1,
        flatten(storage, seq![p, q]) == chunk(storage, p) + chunk(storage, q),
{
    lemma_single(storage, p);
    lemma_single(storage, q);
    assert(seq![p, q] =~= seq![p] + seq![q]);
    lemma_span_concat(seq![p], seq![q]);
    lemma_flatten_concat(storage, seq![p], seq![q]);
}

/// A list of three pieces has the spans and the texts of all three.
proof fn lemma_triple(storage: Seq<u8>, p: Piece, q: Piece, r: Piece)
    ensures
        span(seq![p, q, r]) == p.1 + q.1 + r.1,
        flatten(storage, seq![p, q, r]) == chunk(storage, p) + chunk(storage, q) + chunk(
            storage,
            r,
        ),
{
    lemma_pair(storage, p, q);
    lemma_single(storage, r);
    assert(seq![p, q, r] =~= seq![p, q] + seq![r]);
    lemma_span_concat(seq![p, q], seq![r]);
    lemma_flatten_concat(storage, seq![p, q], seq![r]);
}

/// Insertion, first case: piece `k` ends the old storage, and the text grows
/// at its end by what the storage gained.
proof fn lemma_insert_extend(storage: Seq<u8>, ps: Seq<Piece>, k: int, stored: int)
    requires
        valid_utf8(storage),
        storage.len() <= usize::MAX,
        all_fit(storage, ps),
        0 <= k < ps.len(),
        ps[k].0 + ps[k].1 == stored <= storage.len(),
    ensures
        ({
            let n = storage.len() - stored;
            let new = ps.update(k, (ps[k].0, (ps[k].1 + n) as usize));
            &&& all_fit(storage, new)
            &&& span(new) == span(ps) + n
            &&& flatten(storage, new) == splice_in(
                flatten(storage, ps),
                span(ps.take(k + 1)) as int,
                storage.subrange(stored, storage.len() as int),
            )
        }),
{
    let n = storage.len() - stored;
    let wide: Piece = (ps[k].0, (ps[k].1 + n) as usize);
    let new = ps.update(k, wide);
    let text = flatten(storage, ps);
    let end = span(ps.take(k + 1)) as int;
    let content = storage.subrange(stored, storage.len() as int);
    lemma_boundary_by_byte(storage, storage.len() as int);
    assert(new =~= ps.take(k) + seq![wide] + ps.skip(k + 1));
    lemma_single(storage, wide);
    lemma_replace(storage, ps, k, seq![wide]);
    assert(chunk(storage, wide) =~= chunk(storage, ps[k]) + content);
    assert(flatten(storage, new) =~= splice_in(text, end, content));
}

/// Insertion, second case: a new piece for what the storage gained stands
/// behind piece `k`, and the text grows at the end of that piece.
proof fn lemma_insert_behind(storage: Seq<u8>, ps: Seq<Piece>, k: int, stored: int)
    requires
        valid_utf8(storage),
        storage.len() <= usize::MAX,
        all_fit(storage, ps),
        0 <= k < ps.len(),
        0 <= stored <= storage.len(),
        is_char_boundary(storage, stored),
    ensures
        ({
            let n = storage.len() - stored;
            let new = ps.insert(k + 1, (stored as usize, n as usize));
            &&& all_fit(storage, new)
            &&& span(new) == span(ps) + n
            &&& flatten(storage, new) == splice_in(
                flatten(storage, ps),
                span(ps.take(k + 1)) as int,
                storage.subrange(stored, storage.len() as int),
            )
        }),
{
    let n = storage.len() - stored;
    let fresh: Piece = (stored as usize, n as usize);
    let new = ps.insert(k + 1, fresh);
    let text = flatten(storage, ps);
    let end = span(ps.take(k + 1)) as int;
    let content = storage.subrange(stored, storage.len() as int);
    lemma_boundary_by_byte(storage, storage.len() as int);
    assert(new =~= ps.take(k) + seq![ps[k], fresh] + ps.skip(k + 1));
    lemma_pair(storage, ps[k], fresh);
    lemma_replace(storage, ps, k, seq![ps[k], fresh]);
    assert(chunk(storage, fresh) =~= content);
    assert(flatten(storage, new) =~= splice_in(text, end, content));
}

/// Insertion, third case: piece `k` is split after its first `keep` bytes
/// around a new piece for what the storage gained, and the text grows there.
proof fn lemma_insert_split(storage: Seq<u8>, ps: Seq<Piece>, k: int, stored: int, keep: int)
    requires
        valid_utf8(storage),
        storage.len() <= usize::MAX,
        all_fit(storage, ps),
        0 <= k < ps.len(),
        0 <= stored <= storage.len(),
        is_char_boundary(storage, stored),
        0 <= keep <= ps[k].1,
        is_char_boundary(storage, ps[k].0 + keep),
    ensures
        ({
            let n = storage.len() - stored;
            let new = ps.update(k, (ps[k].0, keep as usize)).insert(
                k + 1,
                (stored as usize, n as usize),
            ).insert(k + 2, ((ps[k].0 + keep) as usize, (ps[k].1 - keep) as usize));
            &&& all_fit(storage, new)
            &&& span(new) == span(ps) + n
            &&& flatten(storage, new) == splice_in(
                flatten(storage, ps),
                span(ps.take(k)) + keep,
                storage.subrange(stored, storage.len() as int),
            )
        }),
{
    let n = storage.len() - stored;
    let left: Piece = (ps[k].0, keep as usize);
    let fresh: Piece = (stored as usize, n as usize);
    let right: Piece = ((ps[k].0 + keep) as usize, (ps[k].1 - keep) as usize);
    let new = ps.update(k, left).insert(k + 1, fresh).insert(k + 2, right);
    let text = flatten(storage, ps);
    let content = storage.subrange(stored, storage.len() as int);
    lemma_boundary_by_byte(storage, storage.len() as int);
    assert(new =~= ps.take(k) + seq![left, fresh, right] + ps.skip(k + 1));
    lemma_triple(storage, left, fresh, right);
    lemma_replace(storage, ps, k, seq![left, fresh, right]);
    assert(chunk(storage, fresh) =~= content);
    let start = span(ps.take(k)) as int;
    let end = span(ps.take(k + 1)) as int;
    assert(chunk(storage, left) =~= text.subrange(start, end).subrange(0, keep));
    assert(chunk(storage, right) =~= text.subrange(start, end).subrange(
        keep,
        ps[k].1 as int,
    ));
    assert(text.subrange(0, start) + chunk(storage, left) =~= text.subrange(0, start + keep));
    assert(chunk(storage, right) + text.subrange(end, text.len() as int) =~= text.subrange(
        start + keep,
        text.len() as int,
    ));
    assert(flatten(storage, new) =~= splice_in(text, start + keep, content));
}

/// Inserting into a well-formed piece list, at a character boundary of its
/// text, gives a well-formed list over the grown storage whose text is the old
/// text with the new bytes spliced in.
pub proof fn lemma_insert_effect(storage: Seq<u8>, ps: Seq<Piece>, pos: int, content: Seq<u8>)
    requires
        well_formed(storage, ps),
        valid_utf8(content),
        storage.len() + content.len() <= usize::MAX,
        is_char_boundary(flatten(storage, ps), pos),
    ensures
        well_formed(
            storage + content,
            after_insert(ps, storage.len() as int, pos, content.len() as int),
        ),
        flatten(
            storage + content,
            after_insert(ps, storage.len() as int, pos, content.len() as int),
        ) == splice_in(flatten(storage, ps), pos, content),
{
    let text = flatten(storage, ps);
    let grown = storage + content;
    let stored = storage.len() as int;
    lemma_flatten_valid(storage, ps);
    lemma_boundary_by_byte(text, pos);
    lemma_locate(ps, pos);
    let k = first_reaching(ps, pos);
    let end = span(ps.take(k + 1)) as int;
    lemma_span_step(ps, k);
    lemma_boundary_concat(storage, content, stored);
    lemma_boundary_by_byte(storage, stored);
    lemma_flatten_grow(storage, content, ps);
    assert(grown.subrange(stored, grown.len() as int) =~= content);
    if pos == end && ps[k].0 + ps[k].1 == stored {
        lemma_insert_extend(grown, ps, k, stored);
    } else if pos == end {
        lemma_insert_behind(grown, ps, k, stored);
    } else {
        let keep = ps[k].1 - (end - pos);
        lemma_boundary_in_piece(grown, ps, k, keep);
        lemma_insert_split(grown, ps, k, stored, keep);
    }
}

/// Deletion of a whole piece: the text loses the part of that piece.
proof fn lemma_delete_whole(storage: Seq<u8>, ps: Seq<Piece>, k: int)
    requires
        valid_utf8(storage),
        storage.len() <= usize::MAX,
        all_fit(storage, ps),
        0 <= k < ps.len(),
    ensures
        all_fit(storage, ps.remove(k)),
        span(ps.remove(k)) == span(ps) - ps[k].1,
        flatten(storage, ps.remove(k)) == splice_out(
            flatten(storage, ps),
            span(ps.take(k)) as int,
            ps[k].1 as int,
        ),
{
    let text = flatten(storage, ps);
    let none = Seq::<Piece>::empty();
    assert(ps.remove(k) =~= ps.take(k) + none + ps.skip(k + 1));
    lemma_replace(storage, ps, k, none);
    assert(flatten(storage, ps.remove(k)) =~= splice_out(
        text,
        span(ps.take(k)) as int,
        ps[k].1 as int,
    ));
}

/// Deletion at the start of a piece: the piece begins `n` bytes later, and the
/// text loses the first `n` bytes of its part.
proof fn lemma_delete_front(storage: Seq<u8>, ps: Seq<Piece>, k: int, n: int)
    requires
        valid_utf8(storage),
        storage.len() <= usize::MAX,
        all_fit(storage, ps),
        0 <= k < ps.len(),
        0 <= n <= ps[k].1,
        is_char_boundary(storage, ps[k].0 + n),
    ensures
        ({
            let new = ps.update(k, ((ps[k].0 + n) as usize, (ps[k].1 - n) as usize));
            &&& all_fit(storage, new)
            &&& span(new) == span(ps) - n
            &&& flatten(storage, new) == splice_out(
                flatten(storage, ps),
                span(ps.take(k)) as int,
                n,
            )
        }),
{
    let text = flatten(storage, ps);
    let rest: Piece = ((ps[k].0 + n) as usize, (ps[k].1 - n) as usize);
    let new = ps.update(k, rest);
    let start = span(ps.take(k)) as int;
    let end = span(ps.take(k + 1)) as int;
    assert(new =~= ps.take(k) + seq![rest] + ps.skip(k + 1));
    lemma_single(storage, rest);
    lemma_replace(storage, ps, k, seq![rest]);
    assert(chunk(storage, rest) =~= text.subrange(start, end).subrange(n, ps[k].1 as int));
    assert(chunk(storage, rest) + text.subrange(end, text.len() as int) =~= text.subrange(
        start + n,
        text.len() as int,
    ));
    assert(flatten(storage, new) =~= splice_out(text, start, n));
}

/// Deletion at the end of a piece: the piece ends `n` bytes earlier, and the
/// text loses the last `n` bytes of its part.
proof fn lemma_delete_back(storage: Seq<u8>, ps: Seq<Piece>, k: int, n: int)
    requires
        valid_utf8(storage),
        storage.len() <= usize::MAX,
        all_fit(storage, ps),
        0 <= k < ps.len(),
        0 <= n <= ps[k].1,
        is_char_boundary(storage, ps[k].0 + ps[k].1 - n),
    ensures
        ({
            let new = ps.update(k, (ps[k].0, (ps[k].1 - n) as usize));
            &&& all_fit(storage, new)
            &&& span(new) == span(ps) - n
            &&& flatten(storage, new) == splice_out(
                flatten(storage, ps),
                span(ps.take(k + 1)) - n,
                n,
            )
        }),
{
    let text = flatten(storage, ps);
    let rest: Piece = (ps[k].0, (ps[k].1 - n) as usize);
    let new = ps.update(k, rest);
    let start = span(ps.take(k)) as int;
    let end = span(ps.take(k + 1)) as int;
    assert(new =~= ps.take(k) + seq![rest] + ps.skip(k + 1));
    lemma_single(storage, rest);
    lemma_replace(storage, ps, k, seq![rest]);
    assert(chunk(storage, rest) =~= text.subrange(start, end).subrange(0, ps[k].1 - n));
    assert(text.subrange(0, start) + chunk(storage, rest) =~= text.subrange(0, end - n));
    assert(flatten(storage, new) =~= splice_out(text, end - n, n));
}

/// Deletion inside a piece: the piece keeps its first `a` bytes, a second
/// piece holds what follows the deleted range, and the text loses `n` bytes.
proof fn lemma_delete_inside(storage: Seq<u8>, ps: Seq<Piece>, k: int, a: int, n: int)
    requires
        valid_utf8(storage),
        storage.len() <= usize::MAX,
        all_fit(storage, ps),
        0 <= k < ps.len(),
        0 <= a,
        0 <= n,
        a + n <= ps[k].1,
        is_char_boundary(storage, ps[k].0 + a),
        is_char_boundary(storage, ps[k].0 + a + n),
    ensures
        ({
            let new = ps.update(k, (ps[k].0, a as usize)).insert(
                k + 1,
                ((ps[k].0 + a + n) as usize, (ps[k].1 - a - n) as usize),
            );
            &&& all_fit(storage, new)
            &&& span(new) == span(ps) - n
            &&& flatten(storage, new) == splice_out(
                flatten(storage, ps),
                span(ps.take(k)) + a,
                n,
            )
        }),
{
    let text = flatten(storage, ps);
    let left: Piece = (ps[k].0, a as usize);
    let right: Piece = ((ps[k].0 + a + n) as usize, (ps[k].1 - a - n) as usize);
    let new = ps.update(k, left).insert(k + 1, right);
    let start = span(ps.take(k)) as int;
    let end = span(ps.take(k + 1)) as int;
    assert(new =~= ps.take(k) + seq![left, right] + ps.skip(k + 1));
    lemma_pair(storage, left, right);
    lemma_replace(storage, ps, k, seq![left, right]);
    assert(chunk(storage, left) =~= text.subrange(start, end).subrange(0, a));
    assert(chunk(storage, right) =~= text.subrange(start, end).subrange(a + n, ps[k].1 as int));
    assert(text.subrange(0, start) + chunk(storage, left) =~= text.subrange(0, start + a));
    assert(chunk(storage, right) + text.subrange(end, text.len() as int) =~= text.subrange(
        start + a + n,
        text.len() as int,
    ));
    assert(flatten(storage, new) =~= splice_out(text, start + a, n));
}

/// What is left to delete behind the piece that strictly contains `pos`: the
/// list with that piece cut back to `pos`, or removed where it starts at `pos`.
pub open spec fn cut_back(ps: Seq<Piece>, pos: int) -> Seq<Piece> {
    match locate_strict(ps, pos) {
        None => ps,
        Some((k, end)) => {
            let (off, len) = ps[k];
            if pos == end - len {
                ps.remove(k)
            } else {
                ps.update(k, (off, (len - (end - pos)) as usize))
            }
        },
    }
}

/// A deletion that goes on beyond the piece that strictly contains `pos`
/// deletes to the end of that piece and then the rest from the list so cut:
/// that list is well-formed, its text lacks the part of the piece from `pos`,
/// and the rest of the range lies between boundaries of that text.
pub proof fn lemma_delete_overlap(storage: Seq<u8>, ps: Seq<Piece>, pos: int, n: int)
    requires
        well_formed(storage, ps),
        0 < n,
        is_char_boundary(flatten(storage, ps), pos),
        is_char_boundary(flatten(storage, ps), pos + n),
        locate_strict(ps, pos) matches Some((k, end)) && pos + n > end,
    ensures
        ({
            let over = span(ps.take(first_exceeding(ps, pos) + 1)) - pos;
            let cut = cut_back(ps, pos);
            &&& 0 < over < n
            &&& well_formed(storage, cut)
            &&& flatten(storage, cut) == splice_out(flatten(storage, ps), pos, over)
            &&& is_char_boundary(flatten(storage, cut), pos)
            &&& is_char_boundary(flatten(storage, cut), pos + (n - over))
            &&& after_delete(ps, pos, n) == after_delete(cut, pos, n - over)
        }),
{
    let text = flatten(storage, ps);
    lemma_flatten_valid(storage, ps);
    lemma_boundary_by_byte(text, pos);
    lemma_boundary_by_byte(text, pos + n);
    lemma_locate_strict(ps, pos);
    let k = first_exceeding(ps, pos);
    let end = span(ps.take(k + 1)) as int;
    let (off, len) = ps[k];
    let over = end - pos;
    lemma_span_step(ps, k);
    lemma_span_monotone(ps, k + 1, k + 1);
    let a = len - over;
    lemma_boundary_in_piece(storage, ps, k, a);
    lemma_boundary_in_piece(storage, ps, k, len as int);
    let cut = cut_back(ps, pos);
    if a == 0 {
        lemma_delete_whole(storage, ps, k);
    } else {
        lemma_delete_back(storage, ps, k, over);
    }
    assert(cut.len() > 0) by {
        if cut.len() == 0 {
            assert(span(cut) == 0);
        }
    }
    lemma_splice_out_valid(text, pos, over);
    lemma_boundary_behind_splice_out(text, pos, over, pos + n);
}

/// Deleting from a well-formed piece list, from one character boundary of its
/// text to another, gives a well-formed list over the same storage whose text
/// is the old text without the deleted bytes.
pub proof fn lemma_delete_effect(storage: Seq<u8>, ps: Seq<Piece>, pos: int, n: int)
    requires
        well_formed(storage, ps),
        0 < n,
        is_char_boundary(flatten(storage, ps), pos),
        is_char_boundary(flatten(storage, ps), pos + n),
    ensures
        well_formed(storage, after_delete(ps, pos, n)),
        flatten(storage, after_delete(ps, pos, n)) == splice_out(flatten(storage, ps), pos, n),
    decreases n,
{
    let text = flatten(storage, ps);
    lemma_flatten_valid(storage, ps);
    lemma_boundary_by_byte(text, pos);
    lemma_boundary_by_byte(text, pos + n);
    lemma_locate_strict(ps, pos);
    let k = first_exceeding(ps, pos);
    let end = span(ps.take(k + 1)) as int;
    let len = ps[k].1;
    let over = end - pos;
    lemma_span_step(ps, k);
    lemma_span_monotone(ps, k + 1, k + 1);
    let a = len - over;
    lemma_boundary_in_piece(storage, ps, k, a);
    if pos + n > end {
        lemma_delete_overlap(storage, ps, pos, n);
        lemma_delete_effect(storage, cut_back(ps, pos), pos, n - over);
        lemma_splice_out_twice(text, pos, over, n - over);
    } else if a == 0 && pos + n == end {
        lemma_delete_whole(storage, ps, k);
        if ps.remove(k).len() == 0 {
            lemma_single(storage, (0usize, 0usize));
            assert(chunk(storage, (0usize, 0usize)) =~= Seq::<u8>::empty());
            assert(flatten(storage, ps.remove(k)) =~= Seq::<u8>::empty());
        }
    } else if a == 0 {
        lemma_boundary_in_piece(storage, ps, k, n);
        lemma_delete_front(storage, ps, k, n);
    } else if pos + n == end {
        lemma_delete_back(storage, ps, k, n);
    } else {
        lemma_boundary_in_piece(storage, ps, k, a + n);
        lemma_delete_inside(storage, ps, k, a, n);
    }
}

/// A piece table as a value: the storage and the piece list.
pub struct Table {
    pub storage: Seq<u8>,
    pub pieces: Seq<Piece>,
}

/// An operation on the text of a table.
pub enum Op {
    /// Insert the bytes before the position.
    Insert(int, Seq<u8>),
    /// Delete, from the position, this number of bytes.
    Delete(int, int),
}

/// What the operation makes of a plain text.
pub open spec fn plain(text: Seq<u8>, op: Op) -> Seq<u8> {
    match op {
        Op::Insert(pos, content) => splice_in(text, pos, content),
        Op::Delete(pos, len) => splice_out(text, pos, len),
    }
}

/// What the operations make of a plain text, one after the other.
pub open spec fn plain_all(text: Seq<u8>, ops: Seq<Op>) -> Seq<u8>
    decreases ops.len(),
{
    if ops.len() == 0 {
        text
    } else {
        plain_all(plain(text, ops[0]), ops.drop_first())
    }
}

impl Table {
    /// The table that holds nothing: no storage, and the single piece `(0, 0)`.
    pub open spec fn fresh() -> Table {
        Table { storage: Seq::empty(), pieces: seq![(0usize, 0usize)] }
    }

    /// The text of the table.
    pub open spec fn text(self) -> Seq<u8> {
        flatten(self.storage, self.pieces)
    }

    /// The invariant of the table.
    pub open spec fn wf(self) -> bool {
        well_formed(self.storage, self.pieces)
    }

    /// Whether the operation can be applied: what is inserted is valid text,
    /// goes to a character boundary of the text, and leaves the storage
    /// within what the machine can address; what is deleted is at least one
    /// byte and lies between two character boundaries of the text.
    pub open spec fn allows(self, op: Op) -> bool {
        match op {
            Op::Insert(pos, content) => {
                &&& valid_utf8(content)
                &&& is_char_boundary(self.text(), pos)
                &&& self.storage.len() + content.len() <= usize::MAX
            },
            Op::Delete(pos, len) => {
                &&& len > 0
                &&& is_char_boundary(self.text(), pos)
                &&& is_char_boundary(self.text(), pos + len)
            },
        }
    }

    /// The table after the operation.
    pub open spec fn apply(self, op: Op) -> Table {
        match op {
            Op::Insert(pos, content) => Table {
                storage: self.storage + content,
                pieces: after_insert(
                    self.pieces,
                    self.storage.len() as int,
                    pos,
                    content.len() as int,
                ),
            },
            Op::Delete(pos, len) => Table {
                storage: self.storage,
                pieces: after_delete(self.pieces, pos, len),
            },
        }
    }

    /// Whether the operations can be applied one after the other.
    pub open spec fn allows_all(self, ops: Seq<Op>) -> bool
        decreases ops.len(),
    {
        ops.len() == 0 || (self.allows(ops[0]) && self.apply(ops[0]).allows_all(ops.drop_first()))
    }

    /// The table after the operations, one after the other.
    pub open spec fn apply_all(self, ops: Seq<Op>) -> Table
        decreases ops.len(),
    {
        if ops.len() == 0 {
            self
        } else {
            self.apply(ops[0]).apply_all(ops.drop_first())
        }
    }
}

/// The fresh table is well-formed, and its text is empty.
pub proof fn lemma_fresh()
    ensures
        Table::fresh().wf(),
        Table::fresh().text() == Seq::<u8>::empty(),
{
    let t = Table::fresh();
    lemma_single(t.storage, (0usize, 0usize));
    assert(t.text() =~= Seq::<u8>::empty());
}

/// An operation that a well-formed table allows gives a well-formed table,
/// whose text is what the operation makes of the plain text, and whose
/// storage begins with the storage that was.
pub proof fn lemma_apply(t: Table, op: Op)
    requires
        t.wf(),
        t.allows(op),
    ensures
        t.apply(op).wf(),
        t.apply(op).text() == plain(t.text(), op),
        t.storage.is_prefix_of(t.apply(op).storage),
{
    match op {
        Op::Insert(pos, content) => {
            lemma_insert_effect(t.storage, t.pieces, pos, content);
            assert((t.storage + content).subrange(0, t.storage.len() as int) =~= t.storage);
        },
        Op::Delete(pos, len) => {
            lemma_delete_effect(t.storage, t.pieces, pos, len);
            assert(t.storage.subrange(0, t.storage.len() as int) =~= t.storage);
        },
    }
}

/// Whatever operations are applied to a well-formed table, one after the
/// other: the piece list is never empty, the storage only grows at its end,
/// what was stored stays as it was, and the text is what the same operations
/// make of the plain text.
pub proof fn law_any_operations(t: Table, ops: Seq<Op>)
    requires
        t.wf(),
        t.allows_all(ops),
    ensures
        t.apply_all(ops).wf(),
        t.apply_all(ops).pieces.len() >= 1,
        t.storage.len() <= t.apply_all(ops).storage.len(),
        t.storage.is_prefix_of(t.apply_all(ops).storage),
        t.apply_all(ops).text() == plain_all(t.text(), ops),
    decreases ops.len(),
{
    if ops.len() == 0 {
        assert(t.storage.subrange(0, t.storage.len() as int) =~= t.storage);
    } else {
        let next = t.apply(ops[0]);
        let last = next.apply_all(ops.drop_first());
        lemma_apply(t, ops[0]);
        law_any_operations(next, ops.drop_first());
        assert(last.storage.subrange(0, t.storage.len() as int) =~= next.storage.subrange(
            0,
            t.storage.len() as int,
        ));
    }
}

/// What was inserted can be deleted again, and deleting it gives the text
/// back, and with it which positions are character boundaries.
pub proof fn law_insert_delete_inverse(t: Table, pos: int, content: Seq<u8>)
    requires
        t.wf(),
        t.allows(Op::Insert(pos, content)),
        content.len() > 0,
    ensures
        t.apply(Op::Insert(pos, content)).allows(Op::Delete(pos, content.len() as int)),
        t.apply(Op::Insert(pos, content)).apply(Op::Delete(pos, content.len() as int)).text()
            == t.text(),
        t.apply(Op::Insert(pos, content)).apply(Op::Delete(pos, content.len() as int)).wf(),
{
    let inserted = t.apply(Op::Insert(pos, content));
    lemma_flatten_valid(t.storage, t.pieces);
    lemma_apply(t, Op::Insert(pos, content));
    law_insert_then_delete(t.text(), pos, content);
    lemma_apply(inserted, Op::Delete(pos, content.len() as int));
}

} // verus!
