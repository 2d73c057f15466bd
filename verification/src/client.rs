//! What a command-line client does with the messages of the server: a client
//! reads the text, waits and shows every edit, or submits one edit.

use crate::edit::{Edit, EditAction};
use vstd::prelude::*;

verus! {

/// What a client was started for.
#[derive(Debug)]
pub enum Task {
    /// Show the text and leave.
    Read,
    /// Show the text and then every edit that is applied.
    Wait,
    /// Submit the action at the position, and leave when it is answered.
    Submit(usize, EditAction),
}

/// A message of the server to a client.
#[derive(Debug)]
pub enum Message {
    /// The greeting: the current revision and the text.
    Status(u32, String),
    /// The answer to a submitted edit: whether it was applied, and if not the
    /// reason.
    Verdict(bool, String),
    /// An edit that was applied, as all clients are told.
    Applied(Edit),
}

/// One thing that a client does in answer to a message.
#[derive(Debug)]
pub enum Step {
    /// Show a revision number.
    ShowRevision(u32),
    /// Show the text.
    ShowText(String),
    /// Show an applied edit.
    ShowEdit(Edit),
    /// Show why the submitted edit failed.
    ShowFailure(String),
    /// Send the edit to the server.
    Send(Edit),
    /// Close the connection.
    Close,
}

/// The revision as a step, where revisions are shown.
pub open spec fn revision_shown(show_rev: bool, rev: u32) -> Seq<Step> {
    if show_rev {
        seq![Step::ShowRevision(rev)]
    } else {
        Seq::empty()
    }
}

/// What a client does in answer to a message, in order.
///
/// A reader shows the greeting and closes. A waiting client shows the
/// greeting and after it every applied edit. A submitting client answers the
/// greeting with its edit, based on the revision it was greeted with, and
/// closes when the verdict comes, after showing the reason of a failure. Any
/// other message is passed over.
pub open spec fn reaction(task: Task, show_rev: bool, greeted: bool, message: Message) -> Seq<
    Step,
> {
    match (task, message) {
        (Task::Read, Message::Status(rev, text)) => revision_shown(show_rev, rev) + seq![
            Step::ShowText(text),
            Step::Close,
        ],
        (Task::Wait, Message::Status(rev, text)) => if greeted {
            Seq::empty()
        } else {
            revision_shown(show_rev, rev) + seq![Step::ShowText(text)]
        },
        (Task::Wait, Message::Applied(edit)) => if greeted {
            revision_shown(show_rev, edit.rev) + seq![Step::ShowEdit(edit)]
        } else {
            Seq::empty()
        },
        (Task::Submit(pos, action), Message::Status(rev, text)) => if greeted {
            Seq::empty()
        } else {
            revision_shown(show_rev, rev) + seq![Step::Send(Edit { pos, rev, action })]
        },
        (Task::Submit(pos, action), Message::Verdict(success, reason)) => if !greeted {
            Seq::empty()
        } else if success {
            seq![Step::Close]
        } else {
            seq![Step::ShowFailure(reason), Step::Close]
        },
        _ => Seq::empty(),
    }
}

/// A client in the course of its connection.
pub struct Client {
    task: Task,
    show_rev: bool,
    greeted: bool,
}

impl Client {
    /// What the client was started for.
    pub closed spec fn task(&self) -> Task {
        self.task
    }

    /// Whether the client shows revision numbers.
    pub closed spec fn shows_revisions(&self) -> bool {
        self.show_rev
    }

    /// Whether the greeting of the server has come.
    pub closed spec fn is_greeted(&self) -> bool {
        self.greeted
    }

    /// A client that has not been greeted yet.
    pub fn new(task: Task, show_rev: bool) -> (client: Self)
        ensures
            client.task() == task,
            client.shows_revisions() == show_rev,
            !client.is_greeted(),
    {
        Client { task, show_rev, greeted: false }
    }

    /// Whether the greeting of the server has come.
    pub fn greeted(&self) -> (b: bool)
        ensures
            b == self.is_greeted(),
    {
        self.greeted
    }

    /// Takes a message of the server and says what to do, in order. The
    /// client is greeted from the first status on.
    pub fn on_message(&mut self, message: Message) -> (steps: Vec<Step>)
        ensures
            steps@ == reaction(
                old(self).task(),
                old(self).shows_revisions(),
                old(self).is_greeted(),
                message,
            ),
            final(self).task() == old(self).task(),
            final(self).shows_revisions() == old(self).shows_revisions(),
            final(self).is_greeted() == (old(self).is_greeted() || message is Status),
    {
        let mut steps: Vec<Step> = Vec::new();
        let greeted = self.greeted;
        match message {
            Message::Status(rev, text) => {
                self.greeted = true;
                match &self.task {
                    Task::Read => {
                        if self.show_rev {
                            steps.push(Step::ShowRevision(rev));
                        }
                        steps.push(Step::ShowText(text));
                        steps.push(Step::Close);
                    },
                    Task::Wait => {
                        if !greeted {
                            if self.show_rev {
                                steps.push(Step::ShowRevision(rev));
                            }
                            steps.push(Step::ShowText(text));
                        }
                    },
                    Task::Submit(pos, action) => {
                        if !greeted {
                            if self.show_rev {
                                steps.push(Step::ShowRevision(rev));
                            }
                            steps.push(Step::Send(Edit { pos: *pos, rev, action: action.clone() }));
                        }
                    },
                }
            },
            Message::Verdict(success, reason) => {
                if let Task::Submit(_, _) = &self.task {
                    if greeted {
                        if !success {
                            steps.push(Step::ShowFailure(reason));
                        }
                        steps.push(Step::Close);
                    }
                }
            },
            Message::Applied(edit) => {
                if let Task::Wait = &self.task {
                    if greeted {
                        if self.show_rev {
                            steps.push(Step::ShowRevision(edit.rev));
                        }
                        steps.push(Step::ShowEdit(edit));
                    }
                }
            },
        }
        assert(steps@ =~= reaction(old(self).task(), old(self).shows_revisions(), greeted, message));
        steps
    }
}

} // verus!
