//! The editor: one text, its history, and for each connected client the latest
//! revision that the client is known to have seen.

use crate::edit::{Edit, EditAction, Refusal};
use crate::history::{History, Log};
use crate::pt::PieceTable;
use crate::text::{lemma_boundary_by_byte, lemma_splice_in_valid, lemma_splice_out_valid};
use crate::text::{splice_in, splice_out};
use std::collections::HashMap;
use std::hash::Hash;
use vstd::prelude::*;
use vstd::std_specs::hash::obeys_key_model;
use vstd::utf8::*;

verus! {

broadcast use vstd::std_specs::hash::group_hash_axioms;

/// `r` is the least of the acknowledged revisions: some client has
/// acknowledged it, and none an earlier one.
pub open spec fn is_least_ack<Id>(acks: Map<Id, u32>, r: u32) -> bool {
    &&& exists|id: Id| acks.contains_key(id) && #[trigger] acks[id] == r
    &&& forall|id: Id| acks.contains_key(id) ==> r <= #[trigger] acks[id]
}

/// The least of the acknowledged revisions, where there is a client.
pub open spec fn least_ack<Id>(acks: Map<Id, u32>) -> u32 {
    choose|r: u32| is_least_ack(acks, r)
}

/// There is only one least acknowledged revision.
pub proof fn lemma_least_ack<Id>(acks: Map<Id, u32>, r: u32)
    requires
        is_least_ack(acks, r),
    ensures
        least_ack(acks) == r,
{
    let l = least_ack(acks);
    assert(is_least_ack(acks, l));
}

/// The editor as a value: the text as bytes, the history, and for each
/// connected client the revision that it has acknowledged.
#[verifier::reject_recursive_types(Id)]
pub struct Desk<Id> {
    pub text: Seq<u8>,
    pub log: Log,
    pub acks: Map<Id, u32>,
}

impl<Id> Desk<Id> {
    /// What holds of every editor: the text is valid UTF-8, the current
    /// revision is a `u32`, and every client has acknowledged a revision from
    /// the first that the history holds to the current one.
    pub open spec fn inv(self) -> bool {
        &&& valid_utf8(self.text)
        &&& self.log.current_rev() <= u32::MAX
        &&& forall|id: Id|
            self.acks.contains_key(id) ==> self.log.first_rev <= #[trigger] self.acks[id]
                <= self.log.current_rev()
    }

    /// Whether the text takes the edit as it stands: an insertion at a
    /// character boundary within the text, a deletion of at least one byte
    /// from one such boundary to another.
    pub open spec fn admits(self, pos: usize, action: EditAction) -> bool {
        match action {
            EditAction::Insert(s) => is_char_boundary(self.text, pos as int),
            EditAction::Delete(len) => len > 0 && is_char_boundary(self.text, pos as int)
                && is_char_boundary(self.text, pos + len),
        }
    }

    /// The text after the action is applied at `pos`.
    pub open spec fn applied(self, pos: usize, action: EditAction) -> Seq<u8> {
        match action {
            EditAction::Insert(s) => splice_in(self.text, pos as int, encode_utf8(s@)),
            EditAction::Delete(len) => splice_out(self.text, pos as int, len as int),
        }
    }

    /// What comes of an edit: the edit as it is applied, rebased over the
    /// history and carrying the revision that it makes, or the reason for
    /// which it is refused.
    pub open spec fn outcome(self, edit: Edit) -> Result<Edit, Refusal> {
        match self.log.rebased(edit.rev, edit.pos) {
            Err(refusal) => Err(refusal),
            Ok(pos) => if self.admits(pos, edit.action) {
                Ok(Edit { pos, rev: (self.log.current_rev() + 1) as u32, action: edit.action })
            } else {
                Err(Refusal::InvalidIndex)
            },
        }
    }

    /// The editor after `id` has connected: the client has acknowledged the
    /// current revision.
    pub open spec fn connected(self, id: Id) -> Self {
        Desk { acks: self.acks.insert(id, self.log.current_rev() as u32), ..self }
    }

    /// The editor after `id` has disconnected: the client is gone, and the
    /// history is trimmed to what the remaining clients have acknowledged, or
    /// to the current revision where none remains.
    pub open spec fn disconnected(self, id: Id) -> Self {
        let acks = self.acks.remove(id);
        let seen = if acks.dom().is_empty() {
            self.log.current_rev() as u32
        } else {
            least_ack(acks)
        };
        Desk { log: self.log.trimmed(seen), acks, ..self }
    }

    /// The editor after `id` has submitted `edit`. A refused edit changes
    /// nothing. Otherwise the client has acknowledged the edit's base
    /// revision, the history is trimmed to what all clients have
    /// acknowledged, the text is changed, and the edit is recorded.
    pub open spec fn edited(self, id: Id, edit: Edit) -> Self {
        match self.outcome(edit) {
            Err(_) => self,
            Ok(done) => {
                let acks = self.acks.insert(id, edit.rev);
                Desk {
                    text: self.applied(done.pos, done.action),
                    log: self.log.trimmed(least_ack(acks)).recorded(done.effect()),
                    acks,
                }
            },
        }
    }
}

/// Among the revisions that clients have acknowledged there is a least one,
/// as soon as there is a client.
pub proof fn lemma_least_ack_exists<Id>(acks: Map<Id, u32>, id: Id)
    requires
        acks.contains_key(id),
    ensures
        is_least_ack(acks, least_ack(acks)),
        least_ack(acks) <= acks[id],
    decreases acks[id],
{
    if forall|c: Id| acks.contains_key(c) ==> acks[id] <= #[trigger] acks[c] {
        assert(is_least_ack(acks, acks[id]));
    } else {
        let c = choose|c: Id| acks.contains_key(c) && !(acks[id] <= #[trigger] acks[c]);
        lemma_least_ack_exists(acks, c);
    }
}

/// A map that is not empty has a key.
pub proof fn lemma_some_client<Id>(acks: Map<Id, u32>) -> (id: Id)
    requires
        !acks.dom().is_empty(),
    ensures
        acks.contains_key(id),
{
    let id = choose|c: Id| acks.dom().contains(c);
    if !acks.dom().contains(id) {
        assert forall|c: Id| !acks.dom().contains(c) by {}
        assert(acks.dom() =~= Set::empty());
    }
    id
}

/// Connecting a client keeps the invariant.
pub proof fn lemma_connected_inv<Id>(desk: Desk<Id>, id: Id)
    requires
        desk.inv(),
    ensures
        desk.connected(id).inv(),
{
    let after = desk.connected(id);
    assert forall|c: Id| after.acks.contains_key(c) implies after.log.first_rev
        <= #[trigger] after.acks[c] <= after.log.current_rev() by {
        if c != id {
            assert(desk.acks.contains_key(c));
        }
    }
}

/// Trimming the history to a revision between its first and its current one
/// makes that revision the first and keeps the current one.
pub proof fn lemma_trimmed(log: Log, rev: u32)
    requires
        log.first_rev <= rev <= log.current_rev(),
    ensures
        log.trimmed(rev).first_rev == rev,
        log.trimmed(rev).current_rev() == log.current_rev(),
{
}

/// Disconnecting a client keeps the invariant.
pub proof fn lemma_disconnected_inv<Id>(desk: Desk<Id>, id: Id)
    requires
        desk.inv(),
    ensures
        desk.disconnected(id).inv(),
        desk.disconnected(id).log.current_rev() == desk.log.current_rev(),
{
    let after = desk.disconnected(id);
    let acks = desk.acks.remove(id);
    if acks.dom().is_empty() {
        lemma_trimmed(desk.log, desk.log.current_rev() as u32);
        assert forall|c: Id| after.acks.contains_key(c) implies after.log.first_rev
            <= #[trigger] after.acks[c] <= after.log.current_rev() by {
            assert(acks.dom().contains(c));
        }
    } else {
        let some = lemma_some_client(acks);
        lemma_least_ack_exists(acks, some);
        let seen = least_ack(acks);
        let holder = choose|c: Id| acks.contains_key(c) && #[trigger] acks[c] == seen;
        assert(desk.acks.contains_key(holder) && desk.acks[holder] == seen);
        lemma_trimmed(desk.log, seen);
        assert forall|c: Id| after.acks.contains_key(c) implies after.log.first_rev
            <= #[trigger] after.acks[c] <= after.log.current_rev() by {
            assert(desk.acks.contains_key(c));
            assert(desk.acks[c] == acks[c]);
        }
    }
}

/// An edit keeps the invariant, whether it is applied or refused.
pub proof fn lemma_edited_inv<Id>(desk: Desk<Id>, id: Id, edit: Edit)
    requires
        desk.inv(),
        desk.log.current_rev() < u32::MAX,
    ensures
        desk.edited(id, edit).inv(),
        desk.outcome(edit) is Err ==> desk.edited(id, edit) == desk,
        desk.outcome(edit) matches Ok(done) ==> {
            &&& desk.log.first_rev <= edit.rev <= desk.log.current_rev()
            &&& desk.log.first_rev <= least_ack(desk.acks.insert(id, edit.rev)) <= edit.rev
            &&& desk.edited(id, edit).log.first_rev == least_ack(desk.edited(id, edit).acks)
            &&& desk.edited(id, edit).log.current_rev() == desk.log.current_rev() + 1
            &&& done.rev == desk.log.current_rev() + 1
        },
{
    let after = desk.edited(id, edit);
    if desk.outcome(edit) is Ok {
        let done = desk.outcome(edit)->Ok_0;
        let acks = desk.acks.insert(id, edit.rev);
        assert(acks.contains_key(id));
        lemma_least_ack_exists(acks, id);
        let seen = least_ack(acks);
        let holder = choose|c: Id| acks.contains_key(c) && #[trigger] acks[c] == seen;
        if holder != id {
            assert(desk.acks.contains_key(holder) && desk.acks[holder] == seen);
        }
        lemma_trimmed(desk.log, seen);
        match done.action {
            EditAction::Insert(s) => {
                encode_utf8_valid_utf8(s@);
                lemma_splice_in_valid(desk.text, done.pos as int, encode_utf8(s@));
            },
            EditAction::Delete(len) => {
                lemma_splice_out_valid(desk.text, done.pos as int, len as int);
            },
        }
        assert forall|c: Id| after.acks.contains_key(c) implies after.log.first_rev
            <= #[trigger] after.acks[c] <= after.log.current_rev() by {
            if c != id {
                assert(desk.acks.contains_key(c));
            }
        }
    }
}

/// Every applied edit makes the revision that follows the current one, and
/// returns with that revision.
pub proof fn law_revision_advances<Id>(desk: Desk<Id>, id: Id, edit: Edit)
    requires
        desk.inv(),
        desk.log.current_rev() < u32::MAX,
        desk.outcome(edit) is Ok,
    ensures
        desk.outcome(edit)->Ok_0.rev == desk.log.current_rev() + 1,
        desk.edited(id, edit).log.current_rev() == desk.log.current_rev() + 1,
{
    lemma_edited_inv(desk, id, edit);
}

/// After every edit the history begins no later than the earliest revision
/// that a client has acknowledged, and after an applied edit exactly there;
/// it holds one entry for each revision from there to the current one.
pub proof fn law_history_trimmed<Id>(desk: Desk<Id>, id: Id, edit: Edit)
    requires
        desk.inv(),
        desk.log.current_rev() < u32::MAX,
    ensures
        forall|c: Id|
            desk.edited(id, edit).acks.contains_key(c) ==> desk.edited(id, edit).log.first_rev
                <= #[trigger] desk.edited(id, edit).acks[c],
        desk.outcome(edit) is Ok ==> desk.edited(id, edit).log.first_rev == least_ack(
            desk.edited(id, edit).acks,
        ),
        desk.edited(id, edit).log.entries.len() == desk.edited(id, edit).log.current_rev()
            - desk.edited(id, edit).log.first_rev,
{
    lemma_edited_inv(desk, id, edit);
}

/// A refused edit leaves the editor as it was.
pub proof fn law_refusal_changes_nothing<Id>(desk: Desk<Id>, id: Id, edit: Edit)
    requires
        desk.outcome(edit) is Err,
    ensures
        desk.edited(id, edit) == desk,
{
}

/// Connecting a client and disconnecting it at once leaves the text and the
/// current revision as they were.
pub proof fn law_connect_disconnect<Id>(desk: Desk<Id>, id: Id)
    requires
        desk.inv(),
    ensures
        desk.connected(id).disconnected(id).text == desk.text,
        desk.connected(id).disconnected(id).log.current_rev() == desk.log.current_rev(),
        desk.connected(id).disconnected(id).inv(),
{
    lemma_connected_inv(desk, id);
    lemma_disconnected_inv(desk.connected(id), id);
}

/// Something that happens to an editor.
pub enum Event<Id> {
    /// The client connects.
    Connect(Id),
    /// The client disconnects.
    Disconnect(Id),
    /// The client submits the edit.
    Submit(Id, Edit),
}

impl<Id> Desk<Id> {
    /// The editor at its beginning: no text, revision 0, no clients.
    pub open spec fn fresh() -> Self {
        Desk {
            text: Seq::empty(),
            log: Log { first_rev: 0, entries: Seq::empty() },
            acks: Map::empty(),
        }
    }

    /// Whether the machine can take the event: an edit needs a revision
    /// number that is still free.
    pub open spec fn takes(self, event: Event<Id>) -> bool {
        event is Submit ==> self.log.current_rev() < u32::MAX
    }

    /// The editor after the event.
    pub open spec fn after(self, event: Event<Id>) -> Self {
        match event {
            Event::Connect(id) => self.connected(id),
            Event::Disconnect(id) => self.disconnected(id),
            Event::Submit(id, edit) => self.edited(id, edit),
        }
    }

    /// Whether the machine can take the events one after the other.
    pub open spec fn takes_all(self, events: Seq<Event<Id>>) -> bool
        decreases events.len(),
    {
        events.len() == 0 || (self.takes(events[0]) && self.after(events[0]).takes_all(
            events.drop_first(),
        ))
    }

    /// The editor after the events, one after the other.
    pub open spec fn after_all(self, events: Seq<Event<Id>>) -> Self
        decreases events.len(),
    {
        if events.len() == 0 {
            self
        } else {
            self.after(events[0]).after_all(events.drop_first())
        }
    }
}

/// Trimming never moves the beginning of the history back.
pub proof fn lemma_trimmed_forward(log: Log, rev: u32)
    requires
        rev <= log.current_rev(),
    ensures
        log.first_rev <= log.trimmed(rev).first_rev,
        log.trimmed(rev).current_rev() == log.current_rev(),
{
}

/// One event keeps the invariant, and moves neither the current revision nor
/// the beginning of the history back.
pub proof fn lemma_after_inv<Id>(desk: Desk<Id>, event: Event<Id>)
    requires
        desk.inv(),
        desk.takes(event),
    ensures
        desk.after(event).inv(),
        desk.log.current_rev() <= desk.after(event).log.current_rev(),
        desk.log.first_rev <= desk.after(event).log.first_rev,
{
    match event {
        Event::Connect(id) => {
            lemma_connected_inv(desk, id);
        },
        Event::Disconnect(id) => {
            lemma_disconnected_inv(desk, id);
            let acks = desk.acks.remove(id);
            if acks.dom().is_empty() {
                lemma_trimmed_forward(desk.log, desk.log.current_rev() as u32);
            } else {
                let some = lemma_some_client(acks);
                lemma_least_ack_exists(acks, some);
                assert(desk.acks.contains_key(some));
                lemma_trimmed_forward(desk.log, least_ack(acks));
            }
        },
        Event::Submit(id, edit) => {
            lemma_edited_inv(desk, id, edit);
        },
    }
}

/// Whatever happens to an editor, one event after the other: every client
/// has acknowledged a revision from the beginning of the history to the
/// current revision, and neither of the two ever goes back.
pub proof fn law_any_events<Id>(desk: Desk<Id>, events: Seq<Event<Id>>)
    requires
        desk.inv(),
        desk.takes_all(events),
    ensures
        desk.after_all(events).inv(),
        desk.log.current_rev() <= desk.after_all(events).log.current_rev(),
        desk.log.first_rev <= desk.after_all(events).log.first_rev,
    decreases events.len(),
{
    if events.len() > 0 {
        lemma_after_inv(desk, events[0]);
        law_any_events(desk.after(events[0]), events.drop_first());
    }
}

/// The least of the values of the map, if it has any.
pub fn least_value<Id: Eq + Hash>(acks: &HashMap<Id, u32>) -> (r: Option<u32>)
    requires
        obeys_key_model::<Id>(),
    ensures
        match r {
            Some(m) => is_least_ack(acks@, m),
            None => acks@.dom().is_empty(),
        },
{
    let mut least: Option<u32> = None;
    proof {
        if acks@.dom().len() == 0 {
            acks@.dom().lemma_len0_is_empty();
        }
    }
    for v in it: acks.values()
        invariant
            obeys_key_model::<Id>(),
            it.seq().unref().to_set() == acks@.values(),
            it.seq().len() == acks@.dom().len(),
            acks@.dom().len() == 0 ==> acks@.dom().is_empty(),
            least is None <==> it.index() == 0,
            least matches Some(m) ==> (exists|j: int| 0 <= j < it.index() && *it.seq()[j] == m)
                && (forall|j: int| 0 <= j < it.index() ==> m <= *#[trigger] it.seq()[j]),
            it.index() == it.seq().len() ==> match least {
                Some(m) => is_least_ack(acks@, m),
                None => acks@.dom().is_empty(),
            },
    {
        least =
        match least {
            Some(m) if m <= *v => Some(m),
            _ => Some(*v),
        };
        assert(it.index() + 1 == it.seq().len() ==> is_least_ack(acks@, least->0)) by {
            if it.index() + 1 == it.seq().len() {
                assert(*v == *it.seq()[it.index()]);
                assert(forall|j: int|
                    0 <= j < it.seq().len() ==> *#[trigger] it.seq()[j] == it.seq().unref()[j]);
                assert(exists|j: int|
                    0 <= j < it.seq().len() && *#[trigger] it.seq()[j] == least->0);
                assert(it.seq().unref().contains(least->0));
                assert(it.seq().unref().to_set().contains(least->0));
                assert(acks@.contains_value(least->0));
                assert forall|id: Id| acks@.contains_key(id) implies least->0
                    <= #[trigger] acks@[id] by {
                    assert(acks@.contains_value(acks@[id]));
                    assert(acks@.values().contains(acks@[id]));
                    assert(it.seq().unref().contains(acks@[id]));
                }
            }
        }
    }
    least
}

/// The main struct to keep track of the editor's state. The client identity
/// is generic: any type that can key a hash map.
pub struct Editor<Id> {
    table: PieceTable,
    history: History,
    acks: HashMap<Id, u32>,
}

impl<Id> View for Editor<Id> {
    type V = Desk<Id>;

    closed spec fn view(&self) -> Desk<Id> {
        Desk { text: self.table@, log: self.history@, acks: self.acks@ }
    }
}

impl<Id: Eq + Hash> Editor<Id> {
    /// The invariant of the editor.
    pub closed spec fn wf(&self) -> bool {
        &&& obeys_key_model::<Id>()
        &&& self.table.wf()
        &&& self.history.wf()
        &&& self@.inv()
    }

    /// The number of bytes that the buffer of the text holds.
    pub closed spec fn stored(&self) -> nat {
        self.table.storage().len()
    }

    /// What the machine asks of an edit beyond what the editor checks: the
    /// revision that the edit would make is a `u32`, and the buffer with the
    /// inserted text is no longer than a `usize` can say.
    pub open spec fn in_limits(&self, edit: Edit) -> bool {
        &&& self@.log.current_rev() < u32::MAX
        &&& edit.action matches EditAction::Insert(s) ==> self.stored() + encode_utf8(s@).len()
            <= usize::MAX
    }

    /// Every well-formed editor satisfies the invariant of its state.
    pub proof fn lemma_inv(&self)
        requires
            self.wf(),
        ensures
            self@.inv(),
    {
    }

    /// The editor with no text, at revision 0, with no clients.
    pub fn new() -> (editor: Self)
        requires
            obeys_key_model::<Id>(),
        ensures
            editor.wf(),
            editor@ == Desk::<Id>::fresh(),
    {
        let editor = Editor {
            table: PieceTable::new(),
            history: History::new(),
            acks: HashMap::new(),
        };
        proof {
            editor.table.lemma_text();
        }
        editor
    }

    /// Whether the edit is within the limits of the machine: see `in_limits`.
    pub fn within_limits(&self, edit: &Edit) -> (b: bool)
        requires
            self.wf(),
        ensures
            b == self.in_limits(*edit),
    {
        if self.history.rev() == u32::MAX {
            return false;
        }
        match &edit.action {
            EditAction::Insert(s) => self.table.has_room(s.as_str()),
            EditAction::Delete(_) => true,
        }
    }

    /// Adds a client and returns the current revision and the text. A client
    /// that is connected already is connected anew.
    pub fn connect(&mut self, id: Id) -> (status: (u32, String))
        requires
            old(self).wf(),
        ensures
            final(self).wf(),
            final(self)@ == old(self)@.connected(id),
            status.0 == old(self)@.log.current_rev(),
            encode_utf8(status.1@) == old(self)@.text,
    {
        let rev = self.history.rev();
        self.acks.insert(id, rev);
        proof {
            lemma_connected_inv(old(self)@, id);
        }
        (rev, self.table.to_string())
    }

    /// Removes a client, and lets the history forget what all remaining
    /// clients have seen. A client that is not connected is removed as well.
    pub fn disconnect(&mut self, id: &Id)
        requires
            old(self).wf(),
        ensures
            final(self).wf(),
            final(self)@ == old(self)@.disconnected(*id),
    {
        proof {
            lemma_disconnected_inv(old(self)@, *id);
        }
        self.acks.remove(id);
        match least_value(&self.acks) {
            Some(min_rev) => {
                proof {
                    lemma_least_ack(self.acks@, min_rev);
                    let holder = choose|c: Id|
                        self.acks@.contains_key(c) && #[trigger] self.acks@[c] == min_rev;
                    assert(old(self)@.acks.contains_key(holder));
                }
                self.history.acknowledge(min_rev);
            },
            None => {
                let rev = self.history.rev();
                self.history.acknowledge(rev);
            },
        }
    }

    /// Notes that the client knows about revision `rev`, and lets the history
    /// forget what all clients have seen.
    fn acknowledge(&mut self, id: Id, rev: u32)
        requires
            old(self).wf(),
            old(self)@.log.first_rev <= rev <= old(self)@.log.current_rev(),
        ensures
            final(self).wf(),
            final(self).table == old(self).table,
            final(self)@.acks == old(self)@.acks.insert(id, rev),
            final(self)@.log == old(self)@.log.trimmed(least_ack(final(self)@.acks)),
            final(self)@.log.current_rev() == old(self)@.log.current_rev(),
    {
        self.acks.insert(id, rev);
        proof {
            lemma_least_ack_exists(self.acks@, id);
        }
        let min_rev = match least_value(&self.acks) {
            Some(min_rev) => min_rev,
            None => rev,
        };
        proof {
            lemma_least_ack(self.acks@, min_rev);
            let holder = choose|c: Id|
                self.acks@.contains_key(c) && #[trigger] self.acks@[c] == min_rev;
            if holder != id {
                assert(old(self)@.acks.contains_key(holder));
            }
            lemma_trimmed(old(self)@.log, min_rev);
        }
        self.history.acknowledge(min_rev);
        proof {
            assert forall|c: Id| self@.acks.contains_key(c) implies self@.log.first_rev
                <= #[trigger] self@.acks[c] <= self@.log.current_rev() by {
                if c != id {
                    assert(old(self)@.acks.contains_key(c));
                }
            }
        }
    }

    /// Registers an edit from a client.
    ///
    /// The edit is rebased over the history and checked against the text. If
    /// it stands, the client is taken to have seen the edit's base revision,
    /// the history forgets what all clients have seen, the text is changed,
    /// and the edit comes back as it was applied, with the revision that it
    /// made. If it does not, the reason comes back and nothing has changed,
    /// not even what the client is taken to have seen.
    ///
    /// The edit has to be within the limits of the machine, which
    /// `within_limits` tests.
    pub fn edit(&mut self, id: Id, edit: Edit) -> (r: Result<Edit, &'static str>)
        requires
            old(self).wf(),
            old(self).in_limits(edit),
        ensures
            final(self).wf(),
            final(self)@ == old(self)@.edited(id, edit),
            match old(self)@.outcome(edit) {
                Ok(done) => r == Ok::<Edit, &'static str>(done),
                Err(refusal) => r matches Err(reason) && reason@ == refusal.text(),
            },
            r is Err ==> *final(self) == *old(self),
            r matches Ok(done) ==> done.rev == old(self)@.log.current_rev() + 1,
            r is Ok ==> final(self)@.log.current_rev() == old(self)@.log.current_rev() + 1,
            forall|c: Id|
                final(self)@.acks.contains_key(c) ==> final(self)@.log.first_rev
                    <= #[trigger] final(self)@.acks[c],
    {
        let base = edit.rev;
        proof {
            lemma_edited_inv(self@, id, edit);
            self.table.lemma_text();
        }
        let mut edit = match self.history.transform(edit) {
            Ok(moved) => moved,
            Err(reason) => {
                return Err(reason);
            },
        };
        let stands = match &edit.action {
            EditAction::Insert(_) => self.table.valid_index(edit.pos),
            EditAction::Delete(len) => *len > 0 && self.table.valid_index(edit.pos) && *len
                <= usize::MAX - edit.pos && self.table.valid_index(edit.pos + *len),
        };
        if !stands {
            proof {
                if let EditAction::Delete(len) = edit.action {
                    lemma_boundary_by_byte(self.table@, edit.pos + len);
                }
            }
            return Err(Refusal::InvalidIndex.reason());
        }
        self.acknowledge(id, base);
        match &edit.action {
            EditAction::Insert(content) => {
                self.table.insert(edit.pos, content.as_str());
            },
            EditAction::Delete(len) => {
                self.table.delete(edit.pos, *len);
            },
        }
        proof {
            lemma_boundary_by_byte(old(self).table@, edit.pos as int);
            lemma_boundary_by_byte(old(self).table@, edit.pos + edit.action.extent());
        }
        self.history.record(&mut edit);
        Ok(edit)
    }

    /// The current revision and the text.
    pub fn status(&self) -> (status: (u32, String))
        requires
            self.wf(),
        ensures
            status.0 == self@.log.current_rev(),
            encode_utf8(status.1@) == self@.text,
    {
        (self.history.rev(), self.table.to_string())
    }

    /// The text.
    pub fn buffer(&self) -> (text: String)
        requires
            self.wf(),
        ensures
            encode_utf8(text@) == self@.text,
    {
        self.table.to_string()
    }
}

} // verus!
