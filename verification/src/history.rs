//! The revision history: the effects on positions of the edits that some client
//! may not have seen yet, and the rebasing of an incoming edit over them.

use crate::edit::{Edit, EditAction, Refusal};
use std::collections::VecDeque;
use vstd::prelude::*;

verus! {

/// The position that `pos` becomes when it is carried over the effects
/// `entries`, oldest first; `None` where one of them overlaps it.
///
/// An effect is a pair of an old and a new offset. One whose old offset lies
/// before the position moves it by the difference of the two. One whose
/// offsets both lie behind the position leaves it alone. Any other overlaps.
pub open spec fn rebase(entries: Seq<(usize, usize)>, pos: int) -> Option<int>
    decreases entries.len(),
{
    if entries.len() == 0 {
        Some(pos)
    } else {
        let (old, new) = entries[0];
        if old < pos {
            rebase(entries.drop_first(), pos + new - old)
        } else if old > pos && new > pos {
            rebase(entries.drop_first(), pos)
        } else {
            None
        }
    }
}

/// The history as a value: the revision of its oldest entry, or the current
/// revision if it has none, and the entries, oldest first.
pub struct Log {
    pub first_rev: nat,
    pub entries: Seq<(usize, usize)>,
}

impl Log {
    /// The current revision.
    pub open spec fn current_rev(self) -> nat {
        self.first_rev + self.entries.len()
    }

    /// The entries that an edit based on `rev` has not seen.
    pub open spec fn unseen(self, rev: u32) -> Seq<(usize, usize)> {
        self.entries.skip(rev - self.first_rev)
    }

    /// Where an edit based on `rev` at `pos` has to go now, or why it is
    /// refused.
    ///
    /// The edit is refused as old where its base is forgotten, as from the
    /// future where its base has not been made, and as not implemented where
    /// an entry it has not seen overlaps it. A position that no `usize` holds
    /// is no index.
    pub open spec fn rebased(self, rev: u32, pos: usize) -> Result<usize, Refusal> {
        if rev < self.first_rev {
            Err(Refusal::OldRevision)
        } else if rev > self.current_rev() {
            Err(Refusal::FutureRevision)
        } else {
            match rebase(self.unseen(rev), pos as int) {
                None => Err(Refusal::NotImplemented),
                Some(p) => if 0 <= p <= usize::MAX {
                    Ok(p as usize)
                } else {
                    Err(Refusal::InvalidIndex)
                },
            }
        }
    }

    /// The history with one more entry, which makes the next revision.
    pub open spec fn recorded(self, effect: (int, int)) -> Log {
        Log {
            first_rev: self.first_rev,
            entries: self.entries.push((effect.0 as usize, effect.1 as usize)),
        }
    }

    /// The history without the entries up to `rev`, which every client has
    /// seen. Nothing changes where `rev` is not beyond the first revision.
    pub open spec fn trimmed(self, rev: u32) -> Log {
        if rev <= self.first_rev {
            self
        } else {
            Log { first_rev: rev as nat, entries: self.entries.skip(rev - self.first_rev) }
        }
    }
}

/// An edit that is based on the current revision stays where it is.
pub proof fn law_transform_at_head(log: Log, rev: u32, pos: usize)
    requires
        rev == log.current_rev(),
    ensures
        log.rebased(rev, pos) == Ok::<usize, Refusal>(pos),
{
    assert(log.unseen(rev) =~= Seq::<(usize, usize)>::empty());
}

/// The revision log: the effects of the edits from the first revision that
/// some client may still build on to the current one.
pub struct History {
    /// The revision of the oldest entry, or the current revision if there is
    /// none.
    first_rev: u32,
    /// Backlog of edits that at least one client has not acknowledged, as
    /// pairs of old offset and new offset. Inserting 5 bytes at index 0 is
    /// (0, 5); deleting 4 bytes at index 6 is (10, 6).
    edits: VecDeque<(usize, usize)>,
}

impl View for History {
    type V = Log;

    closed spec fn view(&self) -> Log {
        Log { first_rev: self.first_rev as nat, entries: self.edits@ }
    }
}

impl History {
    /// The invariant of the history: the current revision is a `u32`.
    pub open spec fn wf(&self) -> bool {
        self@.current_rev() <= u32::MAX
    }

    /// The history of an editor on which nothing has happened: revision 0.
    pub fn new() -> (h: Self)
        ensures
            h.wf(),
            h@ == (Log { first_rev: 0, entries: Seq::empty() }),
    {
        History { first_rev: 0, edits: VecDeque::new() }
    }

    /// Reconciles an edit with those that happened since its base revision:
    /// the edit comes back with its position moved over the entries that it
    /// has not seen, its action and revision as they were, or it is refused,
    /// as `Log::rebased` says.
    pub fn transform(&self, edit: Edit) -> (r: Result<Edit, &'static str>)
        requires
            self.wf(),
        ensures
            match self@.rebased(edit.rev, edit.pos) {
                Ok(p) => r matches Ok(e) && e.pos == p && e.rev == edit.rev && e.action
                    == edit.action,
                Err(refusal) => r matches Err(reason) && reason@ == refusal.text(),
            },
    {
        if edit.rev < self.first_rev {
            // The history has forgotten what the client builds on.
            return Err(Refusal::OldRevision.reason());
        }
        let count = self.edits.len();
        if edit.rev - self.first_rev > count as u32 {
            return Err(Refusal::FutureRevision.reason());
        }
        let delta = (edit.rev - self.first_rev) as usize;
        let mut pos: u128 = edit.pos as u128;
        let mut i: usize = delta;
        proof {
            assert((i - delta + 1) * usize::MAX == usize::MAX) by (nonlinear_arith)
                requires
                    i == delta,
            ;
        }
        while i < count
            invariant
                self.wf(),
                count == self@.entries.len(),
                self@.first_rev <= edit.rev <= self@.current_rev(),
                delta == edit.rev - self@.first_rev,
                delta <= i <= count,
                0 <= pos <= (i - delta + 1) * usize::MAX,
                rebase(self@.entries.skip(delta as int), edit.pos as int) == rebase(
                    self@.entries.skip(i as int),
                    pos as int,
                ),
            decreases count - i,
        {
            let (old, new) = self.edits[i];
            proof {
                assert(self@.entries.skip(i as int).drop_first() =~= self@.entries.skip(i + 1));
                assert(self@.entries.skip(i as int)[0] == (old, new));
                lemma_step_bound(i - delta, count as int, usize::MAX as int);
            }
            if (old as u128) < pos {
                // The earlier edit lies before this one: the position moves.
                pos = pos + new as u128 - old as u128;
            } else if old as u128 > pos && new as u128 > pos {
                // The earlier edit lies behind this one: no effect.
            } else {
                // The two overlap.
                return Err(Refusal::NotImplemented.reason());
            }
            i = i + 1;
        }
        proof {
            assert(self@.entries.skip(count as int) =~= Seq::<(usize, usize)>::empty());
        }
        if pos > usize::MAX as u128 {
            return Err(Refusal::InvalidIndex.reason());
        }
        Ok(Edit { pos: pos as usize, rev: edit.rev, action: edit.action })
    }

    /// Records the effect of an applied edit on positions, and sets the edit's
    /// revision to the one it made: the new current revision.
    pub fn record(&mut self, edit: &mut Edit)
        requires
            old(self).wf(),
            old(self)@.current_rev() < u32::MAX,
            old(edit).pos + old(edit).action.extent() <= usize::MAX,
        ensures
            final(self).wf(),
            final(self)@ == old(self)@.recorded(old(edit).effect()),
            final(edit).rev == old(self)@.current_rev() + 1,
            final(edit).rev == final(self)@.current_rev(),
            final(edit).pos == old(edit).pos,
            final(edit).action == old(edit).action,
    {
        let effect = match &edit.action {
            EditAction::Insert(s) => (edit.pos, edit.pos + s.as_str().as_bytes().len()),
            EditAction::Delete(len) => (edit.pos + *len, edit.pos),
        };
        self.edits.push_back(effect);
        edit.rev = self.first_rev + self.edits.len() as u32;
    }

    /// The current revision number.
    pub fn rev(&self) -> (r: u32)
        requires
            self.wf(),
        ensures
            r == self@.current_rev(),
    {
        self.first_rev + self.edits.len() as u32
    }

    /// Removes the entries up to `rev`, which every client has seen.
    pub fn acknowledge(&mut self, rev: u32)
        requires
            old(self).wf(),
            rev <= old(self)@.current_rev(),
        ensures
            final(self).wf(),
            final(self)@ == old(self)@.trimmed(rev),
            final(self)@.current_rev() == old(self)@.current_rev(),
    {
        while self.first_rev < rev
            invariant
                self.wf(),
                rev <= old(self)@.current_rev(),
                old(self)@.first_rev <= self@.first_rev,
                self@.first_rev <= rev || self@ == old(self)@,
                self@.current_rev() == old(self)@.current_rev(),
                self@.entries == old(self)@.entries.skip(self@.first_rev - old(self)@.first_rev),
            decreases rev - self.first_rev,
        {
            let ghost kept = self@.first_rev - old(self)@.first_rev;
            self.edits.pop_front();
            self.first_rev = self.first_rev + 1;
            proof {
                let all = old(self)@.entries;
                assert(all.skip(kept).subrange(1, all.skip(kept).len() as int) =~= all.skip(
                    kept + 1,
                ));
            }
        }
        proof {
            assert(old(self)@.entries.skip(0) =~= old(self)@.entries);
        }
    }
}

/// The bound that keeps a position within 128 bits while it is carried over
/// as many effects as a history can hold.
proof fn lemma_step_bound(steps: int, count: int, max: int)
    requires
        0 <= steps < count <= max,
        max <= 0xffff_ffff_ffff_ffff,
    ensures
        (steps + 1) * max + max == (steps + 2) * max,
        (steps + 2) * max <= 0xffff_ffff_ffff_ffff_ffff_ffff_ffff_ffff,
{
    assert((steps + 1) * max + max == (steps + 2) * max) by (nonlinear_arith);
    assert((steps + 2) * max <= (max + 1) * max) by (nonlinear_arith)
        requires
            0 <= steps + 2 <= max + 1,
            0 <= max,
    ;
    assert((max + 1) * max <= 0x1_0000_0000_0000_0000 * 0xffff_ffff_ffff_ffff)
        by (nonlinear_arith)
        requires
            0 <= max <= 0xffff_ffff_ffff_ffff,
    ;
}

} // verus!
