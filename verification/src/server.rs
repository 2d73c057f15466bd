//! What the server decides apart from the text: which resource a request
//! asks for, and which messages answer an edit.

use crate::client::Message;
use crate::edit::Edit;
use crate::text::lemma_same_bytes;
use vstd::prelude::*;
use vstd::utf8::*;

verus! {

/// What a request can ask for.
#[derive(Debug, Clone, Copy, PartialEq, Eq, Structural)]
pub enum Route {
    /// The editor page.
    Page,
    /// The script of the editor page.
    Script,
    /// The connection over which edits go.
    Socket,
    /// Anything else: there is no such resource.
    Missing,
}

/// The route of a resource: `/` is the page, `/editor.js` its script, `/ws`
/// the connection, and nothing else is there.
pub open spec fn route_of(resource: Seq<char>) -> Route {
    if resource == "/"@ {
        Route::Page
    } else if resource == "/editor.js"@ {
        Route::Script
    } else if resource == "/ws"@ {
        Route::Socket
    } else {
        Route::Missing
    }
}

/// Whether two strings hold the same text.
pub fn same_text(a: &str, b: &str) -> (same: bool)
    ensures
        same == (a@ == b@),
{
    let left = a.as_bytes();
    let right = b.as_bytes();
    proof {
        lemma_same_bytes(a@, b@);
    }
    if left.len() != right.len() {
        return false;
    }
    let mut i: usize = 0;
    while i < left.len()
        invariant
            left@ == encode_utf8(a@),
            right@ == encode_utf8(b@),
            (a@ == b@) <==> (encode_utf8(a@) == encode_utf8(b@)),
            left@.len() == right@.len(),
            i <= left@.len(),
            forall|j: int| 0 <= j < i ==> left@[j] == right@[j],
        decreases left@.len() - i,
    {
        if left[i] != right[i] {
            return false;
        }
        i = i + 1;
    }
    assert(left@ =~= right@);
    true
}

/// Finds what a request asks for.
pub fn route(resource: &str) -> (r: Route)
    ensures
        r == route_of(resource@),
{
    if same_text(resource, "/") {
        Route::Page
    } else if same_text(resource, "/editor.js") {
        Route::Script
    } else if same_text(resource, "/ws") {
        Route::Socket
    } else {
        Route::Missing
    }
}

/// To whom a message of the server goes.
#[derive(Debug, Clone, Copy, PartialEq, Eq, Structural)]
pub enum Target {
    /// The client that sent the edit.
    Sender,
    /// Every connected client, the sender included.
    Everyone,
}

/// The messages that answer an edit, in order: the sender is told that the
/// edit was applied, and everyone is told the applied edit; or the sender is
/// told why it was refused.
pub fn replies(outcome: Result<Edit, &'static str>) -> (out: Vec<(Target, Message)>)
    ensures
        out@.len() == (if outcome is Ok { 2nat } else { 1nat }),
        out@[0].0 == Target::Sender,
        match outcome {
            Ok(applied) => {
                &&& out@[0].1 matches Message::Verdict(success, reason) && success
                    && reason@.len() == 0
                &&& out@[1] == (Target::Everyone, Message::Applied(applied))
            },
            Err(why) => out@[0].1 matches Message::Verdict(success, reason) && !success
                && reason@ == why@,
        },
{
    let mut out: Vec<(Target, Message)> = Vec::new();
    match outcome {
        Ok(applied) => {
            out.push((Target::Sender, Message::Verdict(true, String::new())));
            out.push((Target::Everyone, Message::Applied(applied)));
        },
        Err(reason) => {
            out.push((Target::Sender, Message::Verdict(false, reason.to_owned())));
        },
    }
    out
}

} // verus!
