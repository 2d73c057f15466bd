//! Edits, as clients submit them and as the server hands them on, and the
//! reasons for which an edit is refused.

use vstd::prelude::*;
use vstd::utf8::*;

verus! {

/// A single editor action, regardless of place.
#[derive(Debug)]
pub enum EditAction {
    /// Insert the text
    Insert(String),
    /// Delete this many bytes
    Delete(usize),
}

/// One edit. It happens at a position, which is an index in bytes into the
/// text, and carries a revision number: the revision that the client had seen
/// when it is sent by a client, the revision that the edit made when it is
/// sent by the server.
#[derive(Debug)]
pub struct Edit {
    pub pos: usize,
    pub rev: u32,
    pub action: EditAction,
}

/// Why an edit is refused.
#[derive(Debug, Clone, Copy, PartialEq, Eq, Structural)]
pub enum Refusal {
    /// The base revision is older than anything the history still holds.
    OldRevision,
    /// The base revision has not been made yet.
    FutureRevision,
    /// The edit falls into the range of a later edit.
    NotImplemented,
    /// The position is out of range or inside a character, or nothing is to be
    /// deleted.
    InvalidIndex,
}

impl Refusal {
    /// The reason as the caller is told it.
    pub open spec fn text(self) -> Seq<char> {
        match self {
            Refusal::OldRevision => "old revision"@,
            Refusal::FutureRevision => "future revision"@,
            Refusal::NotImplemented => "not implemented"@,
            Refusal::InvalidIndex => "invalid index"@,
        }
    }

    /// The reason as the caller is told it.
    pub fn reason(self) -> (s: &'static str)
        ensures
            s@ == self.text(),
    {
        match self {
            Refusal::OldRevision => "old revision",
            Refusal::FutureRevision => "future revision",
            Refusal::NotImplemented => "not implemented",
            Refusal::InvalidIndex => "invalid index",
        }
    }

    /// Different refusals are told in different words.
    pub proof fn lemma_texts_differ(self, other: Refusal)
        ensures
            self.text() == other.text() <==> self == other,
    {
        reveal_strlit("old revision");
        reveal_strlit("future revision");
        reveal_strlit("not implemented");
        reveal_strlit("invalid index");
        let a = self.text();
        let b = other.text();
        if self != other {
            if a.len() == b.len() {
                assert(a[0] != b[0]);
            }
        }
    }
}

impl Clone for EditAction {
    fn clone(&self) -> (copy: Self)
        ensures
            copy == *self,
    {
        match self {
            EditAction::Insert(text) => EditAction::Insert(text.clone()),
            EditAction::Delete(len) => EditAction::Delete(*len),
        }
    }
}

impl Clone for Edit {
    fn clone(&self) -> (copy: Self)
        ensures
            copy == *self,
    {
        Edit { pos: self.pos, rev: self.rev, action: self.action.clone() }
    }
}

impl EditAction {
    /// The number of bytes that the action adds to or takes from the text.
    pub open spec fn extent(self) -> nat {
        match self {
            EditAction::Insert(s) => encode_utf8(s@).len(),
            EditAction::Delete(len) => len as nat,
        }
    }
}

impl Edit {
    /// What the edit does to positions, as a pair of an old and a new offset:
    /// an insertion of `n` bytes at `pos` moves `pos` to `pos + n`, a deletion
    /// of `n` bytes at `pos` moves `pos + n` to `pos`.
    pub open spec fn effect(self) -> (int, int) {
        match self.action {
            EditAction::Insert(s) => (self.pos as int, self.pos + encode_utf8(s@).len()),
            EditAction::Delete(len) => (self.pos + len, self.pos as int),
        }
    }
}

} // verus!
