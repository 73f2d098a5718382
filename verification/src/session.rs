//! Terminal sessions: tokens that pair a shell kind with a working directory
//! under an identifier that is never given out twice.
//!
//! A session holds no process. It is a value that the caller keeps and hands
//! back; nothing here remembers which sessions exist.

use crate::text::decimal;
use crate::text::lemma_decimal_injective;
use crate::text::render_decimal;
use vstd::prelude::*;
use vstd::string::StringExecFns;

verus! {

/// A terminal session as the caller sees it.
#[derive(Debug, PartialEq, Eq)]
pub struct TerminalSession {
    pub id: String,
    pub shell_type: String,
    pub working_directory: String,
}

/// The mathematical value of a `TerminalSession`.
pub struct TerminalSessionView {
    pub id: Seq<char>,
    pub shell_type: Seq<char>,
    pub working_directory: Seq<char>,
}

impl View for TerminalSession {
    type V = TerminalSessionView;

    open spec fn view(&self) -> TerminalSessionView {
        TerminalSessionView {
            id: self.id@,
            shell_type: self.shell_type@,
            working_directory: self.working_directory@,
        }
    }
}

/// The identifier of the session with a given number.
pub open spec fn session_id(number: nat) -> Seq<char> {
    "session_"@ + decimal(number)
}

/// The identifiers of the `count` sessions opened after `already` others, in
/// the order in which they are opened.
pub open spec fn ids_issued(already: nat, count: nat) -> Seq<Seq<char>> {
    Seq::new(count, |i: int| session_id((already + 1 + i) as nat))
}

/// Sessions with different numbers have different identifiers.
pub proof fn lemma_session_ids_distinct(a: nat, b: nat)
    requires
        a != b,
    ensures
        session_id(a) != session_id(b),
{
    if session_id(a) == session_id(b) {
        let prefix = "session_"@;
        assert(session_id(a).subrange(prefix.len() as int, session_id(a).len() as int) =~= decimal(
            a,
        ));
        assert(session_id(b).subrange(prefix.len() as int, session_id(b).len() as int) =~= decimal(
            b,
        ));
        lemma_decimal_injective(a, b);
    }
}

/// However many sessions are opened one after another, no identifier comes
/// twice: as a set the identifiers are as many as the sessions.
pub proof fn lemma_issued_ids_all_differ(already: nat, count: nat)
    ensures
        ids_issued(already, count).no_duplicates(),
        ids_issued(already, count).to_set().len() == count,
{
    let ids = ids_issued(already, count);
    assert forall|i: int, j: int| 0 <= i < ids.len() && 0 <= j < ids.len() && i != j implies ids[i]
        != ids[j] by {
        lemma_session_ids_distinct((already + 1 + i) as nat, (already + 1 + j) as nat);
    }
    ids.unique_seq_to_set();
}

/// Counts the sessions opened so far. The count only grows, so a number once
/// taken is never taken again.
#[derive(Debug)]
pub struct SessionCounter {
    issued: u32,
}

impl View for SessionCounter {
    type V = nat;

    closed spec fn view(&self) -> nat {
        self.issued as nat
    }
}

impl SessionCounter {
    /// A counter under which no session has been opened yet.
    pub fn new() -> (counter: SessionCounter)
        ensures
            counter@ == 0,
    {
        SessionCounter { issued: 0 }
    }

    /// How many sessions have been opened.
    pub fn issued(&self) -> (n: u32)
        ensures
            n == self@,
    {
        self.issued
    }

    /// Whether every number has been taken, so that no further session can be
    /// opened.
    pub fn is_exhausted(&self) -> (full: bool)
        ensures
            full == (self@ >= u32::MAX),
    {
        self.issued == u32::MAX
    }

    /// Takes the next number and returns its identifier.
    pub fn next_id(&mut self) -> (id: String)
        requires
            old(self)@ < u32::MAX,
        ensures
            final(self)@ == old(self)@ + 1,
            id@ == session_id(final(self)@),
    {
        self.issued = self.issued + 1;
        let mut id = String::from_str("session_");
        let number = render_decimal(self.issued);
        id.append(number.as_str());
        id
    }
}

/// Opens a session: takes the next identifier and pairs it with the shell
/// kind and with the working directory asked for, or with `current_directory`
/// where none was asked for. No process is started.
pub fn create_terminal_session(
    counter: &mut SessionCounter,
    shell_type: String,
    working_directory: Option<String>,
    current_directory: String,
) -> (session: TerminalSession)
    requires
        old(counter)@ < u32::MAX,
    ensures
        final(counter)@ == old(counter)@ + 1,
        session@ == (TerminalSessionView {
            id: session_id(final(counter)@),
            shell_type: shell_type@,
            working_directory: match working_directory {
                Some(directory) => directory@,
                None => current_directory@,
            },
        }),
{
    let id = counter.next_id();
    let working_directory = match working_directory {
        Some(directory) => directory,
        None => current_directory,
    };
    TerminalSession { id, shell_type, working_directory }
}

} // verus!
