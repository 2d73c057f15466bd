//! The piece table: the text as an ordered list of pieces over one buffer that
//! only ever grows.

use crate::pieces::{after_delete, after_insert, cut_back, flatten, locate, locate_strict};
use crate::pieces::{lemma_boundary_in_piece, lemma_delete_effect, lemma_delete_overlap};
use crate::pieces::{lemma_flatten_valid, lemma_insert_effect, lemma_locate, lemma_locate_is};
use crate::pieces::{lemma_locate_strict, lemma_locate_strict_is, lemma_single, lemma_span_monotone};
use crate::pieces::{lemma_span_step, never_empty, span, well_formed, Op, Piece, Table};
use crate::text::{lemma_boundary_by_byte, lemma_encode_concat, lemma_slice_between_boundaries};
use crate::text::{splice_in, splice_out};
use vstd::prelude::*;
use vstd::string::StringExecFns;
use vstd::utf8::*;

verus! {

/// The text of the editor. It answers whether a position is a valid index,
/// takes insertions and deletions at valid indices, and gives the text out.
pub struct PieceTable {
    /// Everything that was ever inserted, in the order of insertion. This only
    /// ever grows.
    buffer: String,
    /// The pieces of the text, as pairs of offset and length into the buffer.
    /// Never empty, so that position 0 is always a valid index.
    pieces: Vec<(usize, usize)>,
}

impl View for PieceTable {
    type V = Seq<u8>;

    /// The text, as its UTF-8 bytes.
    open spec fn view(&self) -> Seq<u8> {
        flatten(self.storage(), self.pieces())
    }
}

impl PieceTable {
    /// The bytes of the buffer.
    pub closed spec fn storage(&self) -> Seq<u8> {
        encode_utf8(self.buffer@)
    }

    /// The piece list.
    pub closed spec fn pieces(&self) -> Seq<Piece> {
        self.pieces@
    }

    /// The table as a value.
    pub open spec fn table(&self) -> Table {
        Table { storage: self.storage(), pieces: self.pieces() }
    }

    /// The invariant of the table.
    pub open spec fn wf(&self) -> bool {
        well_formed(self.storage(), self.pieces())
    }

    /// The text, as characters.
    pub open spec fn text(&self) -> Seq<char> {
        decode_utf8(self@)
    }

    /// The text of a well-formed table is valid UTF-8, as long as its pieces
    /// say, and its character encoding is the view.
    pub proof fn lemma_text(&self)
        requires
            self.wf(),
        ensures
            valid_utf8(self@),
            self@.len() == span(self.pieces()),
            self@.len() <= usize::MAX,
            encode_utf8(self.text()) == self@,
    {
        lemma_flatten_valid(self.storage(), self.pieces());
        decode_utf8_encode_utf8(self@);
    }

    /// The empty table: no storage, and the single piece `(0, 0)`.
    pub fn new() -> (pt: Self)
        ensures
            pt.wf(),
            pt.storage() == Seq::<u8>::empty(),
            pt.pieces() == seq![(0usize, 0usize)],
            pt.table() == Table::fresh(),
            pt@ == Seq::<u8>::empty(),
    {
        let mut pieces: Vec<(usize, usize)> = Vec::new();
        pieces.push((0, 0));
        let pt = PieceTable { buffer: String::new(), pieces };
        proof {
            assert(pt.pieces@ =~= seq![(0usize, 0usize)]);
            assert(pt.storage() =~= Seq::<u8>::empty());
            lemma_single(pt.storage(), (0usize, 0usize));
            assert(pt@ =~= Seq::<u8>::empty());
        }
        pt
    }

    /// The number of pieces.
    pub fn piece_count(&self) -> (n: usize)
        ensures
            n == self.pieces().len(),
    {
        self.pieces.len()
    }

    /// Everything that was ever inserted, in the order of insertion.
    pub fn buffer(&self) -> (s: &str)
        ensures
            encode_utf8(s@) == self.storage(),
    {
        self.buffer.as_str()
    }

    /// Whether an insertion of `content` leaves the buffer within what the
    /// machine can address.
    pub fn has_room(&self, content: &str) -> (b: bool)
        requires
            self.wf(),
        ensures
            b == (self.storage().len() + encode_utf8(content@).len() <= usize::MAX),
    {
        let stored = self.buffer.as_str().as_bytes().len();
        let n = content.as_bytes().len();
        n <= usize::MAX - stored
    }

    /// Checks that `pos` is in range and on a character boundary of the text.
    pub fn valid_index(&self, pos: usize) -> (b: bool)
        requires
            self.wf(),
        ensures
            b == is_char_boundary(self@, pos as int),
            b == (pos <= self@.len() && (pos == self@.len() || !is_continuation_byte(
                self@[pos as int],
            ))),
    {
        proof {
            self.lemma_text();
            lemma_boundary_by_byte(self@, pos as int);
        }
        match self.piece_index(pos) {
            Some((piece, end)) => {
                proof {
                    lemma_locate(self.pieces(), pos as int);
                    lemma_span_step(self.pieces(), piece as int);
                }
                let (off, len) = self.pieces[piece];
                let inner = len - (end - pos);
                proof {
                    lemma_boundary_in_piece(
                        self.storage(),
                        self.pieces(),
                        piece as int,
                        inner as int,
                    );
                }
                self.buffer.as_str().is_char_boundary(off + inner)
            },
            None => false,
        }
    }

    /// The index of the first piece that reaches `pos`, and the total length of
    /// the pieces through it, if `pos` is in range. A piece that ends exactly
    /// at `pos` counts: the end of the text is a place to insert at.
    pub fn piece_index(&self, pos: usize) -> (r: Option<(usize, usize)>)
        requires
            self.wf(),
        ensures
            match locate(self.pieces(), pos as int) {
                Some((k, end)) => r == Some((k as usize, end as usize)) && k <= usize::MAX && end
                    <= usize::MAX,
                None => r is None,
            },
    {
        let mut sum: usize = 0;
        let mut i: usize = 0;
        proof {
            assert(self.pieces().take(0) =~= Seq::<Piece>::empty());
        }
        while i < self.pieces.len()
            invariant
                self.wf(),
                i <= self.pieces().len(),
                sum == span(self.pieces().take(i as int)),
                i > 0 ==> sum < pos,
            decreases self.pieces().len() - i,
        {
            proof {
                lemma_span_step(self.pieces(), i as int);
                lemma_span_monotone(self.pieces(), i + 1, i + 1);
            }
            sum = sum + self.pieces[i].1;
            if sum >= pos {
                proof {
                    lemma_locate_is(self.pieces(), pos as int, i as int);
                }
                return Some((i, sum));
            }
            i = i + 1;
        }
        proof {
            assert(self.pieces().take(i as int) =~= self.pieces());
        }
        None
    }

    /// The index of the first piece that strictly contains `pos`, and the total
    /// length of the pieces through it, if there is one. A piece that ends
    /// exactly at `pos` does not count: what a deletion removes lies behind
    /// `pos`.
    pub fn piece_index_del(&self, pos: usize) -> (r: Option<(usize, usize)>)
        requires
            self.wf(),
        ensures
            match locate_strict(self.pieces(), pos as int) {
                Some((k, end)) => r == Some((k as usize, end as usize)) && k <= usize::MAX && end
                    <= usize::MAX,
                None => r is None,
            },
    {
        let mut sum: usize = 0;
        let mut i: usize = 0;
        proof {
            assert(self.pieces().take(0) =~= Seq::<Piece>::empty());
        }
        while i < self.pieces.len()
            invariant
                self.wf(),
                i <= self.pieces().len(),
                sum == span(self.pieces().take(i as int)),
                sum <= pos,
            decreases self.pieces().len() - i,
        {
            proof {
                lemma_span_step(self.pieces(), i as int);
                lemma_span_monotone(self.pieces(), i + 1, i + 1);
            }
            sum = sum + self.pieces[i].1;
            if sum > pos {
                proof {
                    lemma_locate_strict_is(self.pieces(), pos as int, i as int);
                }
                return Some((i, sum));
            }
            i = i + 1;
        }
        proof {
            assert(self.pieces().take(i as int) =~= self.pieces());
        }
        None
    }

    /// Inserts `content` immediately before the byte at `pos`. The content is
    /// appended to the buffer; the piece list changes as `after_insert` says.
    pub fn insert(&mut self, pos: usize, content: &str)
        requires
            old(self).wf(),
            is_char_boundary(old(self)@, pos as int),
            old(self).storage().len() + encode_utf8(content@).len() <= usize::MAX,
        ensures
            final(self).wf(),
            final(self).storage() == old(self).storage() + encode_utf8(content@),
            final(self).pieces() == after_insert(
                old(self).pieces(),
                old(self).storage().len() as int,
                pos as int,
                encode_utf8(content@).len() as int,
            ),
            final(self).table() == old(self).table().apply(
                Op::Insert(pos as int, encode_utf8(content@)),
            ),
            final(self)@ == splice_in(old(self)@, pos as int, encode_utf8(content@)),
            final(self).pieces().len() >= 1,
            old(self).storage().is_prefix_of(final(self).storage()),
    {
        let ghost before = *self;
        proof {
            let stored = self.storage();
            assert((stored + encode_utf8(content@)).subrange(0, stored.len() as int) =~= stored);
            self.lemma_text();
            lemma_boundary_by_byte(self@, pos as int);
            lemma_locate(self.pieces(), pos as int);
            encode_utf8_valid_utf8(content@);
            lemma_encode_concat(self.buffer@, content@);
            lemma_insert_effect(self.storage(), self.pieces(), pos as int, encode_utf8(content@));
        }
        let offset = self.buffer.as_str().as_bytes().len();
        let added = content.as_bytes().len();
        let (piece, end) = self.piece_index(pos).unwrap();
        self.buffer.append(content);
        let (off, len) = self.pieces[piece];
        proof {
            lemma_span_step(before.pieces(), piece as int);
        }
        let is_end_of_piece = pos == end;
        let is_end_of_buffer = off + len == offset;

        // if inserting at the end of the previous insertion,
        // just increase the length of the piece
        if is_end_of_buffer && is_end_of_piece {
            self.pieces[piece] = (off, len + added);
            return ;
        }
        let extra_piece = (offset, added);
        assert(piece < self.pieces.len());
        // if inserting at the end of a piece, only one extra is needed
        if is_end_of_piece {
            self.pieces.insert(piece + 1, extra_piece);
            return ;
        }
        // otherwise: split the piece
        let overhead = end - pos;
        let keep = len - overhead;
        self.pieces[piece] = (off, keep);
        self.pieces.insert(piece + 1, extra_piece);
        assert(piece + 1 < self.pieces.len());
        self.pieces.insert(piece + 2, (off + keep, overhead));
    }

    /// Deletes the bytes `[pos, pos + len)`. The buffer stays as it is; the
    /// piece list changes as `after_delete` says.
    pub fn delete(&mut self, pos: usize, len: usize)
        requires
            old(self).wf(),
            len > 0,
            is_char_boundary(old(self)@, pos as int),
            is_char_boundary(old(self)@, pos + len),
        ensures
            final(self).wf(),
            final(self).storage() == old(self).storage(),
            final(self).pieces() == after_delete(old(self).pieces(), pos as int, len as int),
            final(self).table() == old(self).table().apply(Op::Delete(pos as int, len as int)),
            final(self)@ == splice_out(old(self)@, pos as int, len as int),
            final(self).pieces().len() >= 1,
            old(self).storage().is_prefix_of(final(self).storage()),
        decreases len,
    {
        let ghost before = *self;
        proof {
            let stored = self.storage();
            assert(stored.subrange(0, stored.len() as int) =~= stored);
            self.lemma_text();
            lemma_boundary_by_byte(self@, pos as int);
            lemma_boundary_by_byte(self@, pos + len);
            lemma_locate_strict(self.pieces(), pos as int);
            lemma_delete_effect(self.storage(), self.pieces(), pos as int, len as int);
        }
        let (piece, end) = self.piece_index_del(pos).unwrap();
        let (off, piece_len) = self.pieces[piece];
        proof {
            lemma_span_step(before.pieces(), piece as int);
            lemma_span_monotone(before.pieces(), piece + 1, piece + 1);
        }
        let overlap = pos + len > end;
        let end_of_piece = pos + len == end;
        let start_of_piece = pos == end - piece_len;
        proof {
            if overlap {
                lemma_delete_overlap(self.storage(), self.pieces(), pos as int, len as int);
            }
        }

        if start_of_piece {
            if end_of_piece {
                // deleting an entire piece, no overlap
                self.pieces.remove(piece);
            } else if overlap {
                // deleting an entire piece, with overlap
                self.pieces.remove(piece);
                assert(self.pieces() == cut_back(before.pieces(), pos as int));
                // delete the rest: same pos, because what was there is gone
                self.delete(pos, len - piece_len);
            } else {
                // deleting from the start of a piece, but not until the end
                self.pieces[piece] = (off + len, piece_len - len);
            }
            self.empty_check();
            return ;
        }
        // deleting from the end of a piece

        if end_of_piece {
            self.pieces[piece] = (off, piece_len - len);
            return ;
        }
        // remaining two cases: either go on behind the piece, or split it

        let overhead = end - pos;
        self.pieces[piece] = (off, piece_len - overhead);
        if overlap {
            assert(self.pieces() == cut_back(before.pieces(), pos as int));
            self.delete(pos, len - overhead);
            self.empty_check();
        } else {
            assert(piece < self.pieces.len());
            self.pieces.insert(piece + 1, (off + (piece_len - overhead) + len, overhead - len));
        }
    }

    /// Restores the invariant that the piece list is not empty: if it is, the
    /// piece `(0, 0)` is added.
    pub fn empty_check(&mut self)
        ensures
            final(self).storage() == old(self).storage(),
            final(self).pieces() == never_empty(old(self).pieces()),
    {
        if self.pieces.is_empty() {
            self.pieces.push((0, 0));
            assert(self.pieces@ =~= seq![(0usize, 0usize)]);
        }
    }

    /// The text: the ranges of the buffer that the pieces name, in order.
    pub fn render(&self) -> (s: String)
        requires
            self.wf(),
        ensures
            s@ == self.text(),
            encode_utf8(s@) == self@,
    {
        let mut out = String::new();
        let whole = self.buffer.as_str();
        let mut i: usize = 0;
        proof {
            assert(self.pieces().take(0) =~= Seq::<Piece>::empty());
            assert(encode_utf8(out@) =~= Seq::<u8>::empty());
        }
        while i < self.pieces.len()
            invariant
                self.wf(),
                whole@ == self.buffer@,
                i <= self.pieces().len(),
                encode_utf8(out@) == flatten(self.storage(), self.pieces().take(i as int)),
            decreases self.pieces().len() - i,
        {
            let (off, len) = self.pieces[i];
            proof {
                lemma_slice_between_boundaries(self.storage(), 0, off + len, off as int);
            }
            let (head, _) = whole.split_at(off + len);
            let (_, part) = head.split_at(off);
            let ghost sofar = out@;
            out.append(part);
            proof {
                lemma_encode_concat(sofar, part@);
                assert(self.pieces().take(i + 1).drop_last() =~= self.pieces().take(i as int));
                assert(encode_utf8(part@) =~= self.storage().subrange(off as int, off + len));
            }
            i = i + 1;
        }
        proof {
            assert(self.pieces().take(i as int) =~= self.pieces());
            encode_utf8_decode_utf8(out@);
        }
        out
    }

    /// The text, as `render` gives it.
    pub fn to_string(&self) -> (s: String)
        requires
            self.wf(),
        ensures
            s@ == self.text(),
            encode_utf8(s@) == self@,
    {
        self.render()
    }
}

impl From<&str> for PieceTable {
    /// The table that holds `s`: the buffer is `s`, and one piece covers it.
    fn from(s: &str) -> (pt: Self)
        ensures
            pt.wf(),
            pt.storage() == encode_utf8(s@),
            pt.pieces() == seq![(0usize, encode_utf8(s@).len() as usize)],
            pt@ == encode_utf8(s@),
    {
        let buffer = s.to_owned();
        let len = s.as_bytes().len();
        let mut pieces: Vec<(usize, usize)> = Vec::new();
        pieces.push((0, len));
        let pt = PieceTable { buffer, pieces };
        proof {
            let bytes = encode_utf8(s@);
            encode_utf8_valid_utf8(s@);
            lemma_boundary_by_byte(bytes, 0);
            lemma_boundary_by_byte(bytes, bytes.len() as int);
            assert(pt.pieces@ =~= seq![(0usize, len)]);
            lemma_single(bytes, (0usize, len));
            assert(bytes.subrange(0, bytes.len() as int) =~= bytes);
        }
        pt
    }
}

/// The conversion is specified by the contract of `from`. It is not given as
/// a function of values, since the buffer and the piece list of a table are
/// its own.
impl vstd::std_specs::convert::FromSpecImpl<&str> for PieceTable {
    open spec fn obeys_from_spec() -> bool {
        false
    }

    open spec fn from_spec(s: &str) -> Self {
        arbitrary()
    }
}

impl From<String> for PieceTable {
    /// The table that holds `s`: the buffer is `s`, and one piece covers it.
    fn from(s: String) -> (pt: Self)
        ensures
            pt.wf(),
            pt.storage() == encode_utf8(s@),
            pt.pieces() == seq![(0usize, encode_utf8(s@).len() as usize)],
            pt@ == encode_utf8(s@),
    {
        let len = s.as_str().as_bytes().len();
        let ghost text = s@;
        let mut pieces: Vec<(usize, usize)> = Vec::new();
        pieces.push((0, len));
        let pt = PieceTable { buffer: s, pieces };
        proof {
            let bytes = encode_utf8(text);
            encode_utf8_valid_utf8(text);
            lemma_boundary_by_byte(bytes, 0);
            lemma_boundary_by_byte(bytes, bytes.len() as int);
            assert(pt.pieces@ =~= seq![(0usize, len)]);
            lemma_single(bytes, (0usize, len));
            assert(bytes.subrange(0, bytes.len() as int) =~= bytes);
        }
        pt
    }
}

/// The conversion is specified by the contract of `from`, as for `&str`.
impl vstd::std_specs::convert::FromSpecImpl<String> for PieceTable {
    open spec fn obeys_from_spec() -> bool {
        false
    }

    open spec fn from_spec(s: String) -> Self {
        arbitrary()
    }
}

} // verus!
