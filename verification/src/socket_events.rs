//! What the program does when clients connect, when it gets signals, and when the server goes away.

use crate::setup::SharedOptions;
use nix::sys::signal::Signal;
use vstd::prelude::*;
use vstd::string::StringExecFns;

verus! {

/// What there is input from.
#[derive(Debug, PartialEq, Eq, Clone, Copy, Structural)]
pub enum Source {
    /// A client connects.
    Listener,
    /// There is a signal.
    Signal,
    /// The server goes away.
    Server,
}

/// What there is input from, by the order in which it is waited for.
pub fn source_of(index: usize) -> (r: Option<Source>)
    ensures
        r == match index {
            0 => Some(Source::Listener),
            1 => Some(Source::Signal),
            2 => Some(Source::Server),
            _ => None,
        },
{
    match index {
        0 => Some(Source::Listener),
        1 => Some(Source::Signal),
        2 => Some(Source::Server),
        _ => None,
    }
}

/// What is done for a client that has connected.
#[derive(Debug, PartialEq, Eq, Clone, Copy, Structural)]
pub enum AcceptPlan {
    /// A child process has the session; this one goes on.
    Fork,
    /// This process has the session, and does nothing else from now on.
    HandOver,
    /// A thread has the session; this one goes on.
    Spawn,
}

/// Says what is done for a client that has connected.
pub fn accept_plan(options: &SharedOptions) -> (r: AcceptPlan)
    ensures
        r == if options.fork_mode {
            AcceptPlan::Fork
        } else if options.single_mode {
            AcceptPlan::HandOver
        } else {
            AcceptPlan::Spawn
        },
{
    if options.fork_mode {
        AcceptPlan::Fork
    } else if options.single_mode {
        AcceptPlan::HandOver
    } else {
        AcceptPlan::Spawn
    }
}

/// Why the program stops waiting for clients.
#[derive(Debug)]
pub enum Ending {
    /// It got a signal, which may have a name.
    Interrupted(Option<String>),
    /// It is meant to.
    Normal(Option<String>),
    /// Something failed, of a kind.
    Failed(String, Option<String>),
}

/// The contents of an [`Ending`].
#[verifier::ext_equal]
pub enum EndingV {
    Interrupted(Option<Seq<char>>),
    Normal(Option<Seq<char>>),
    Failed(Seq<char>, Option<Seq<char>>),
}

impl View for Ending {
    type V = EndingV;

    open spec fn view(&self) -> EndingV {
        match self {
            Ending::Interrupted(Some(name)) => EndingV::Interrupted(Some(name@)),
            Ending::Interrupted(None) => EndingV::Interrupted(None),
            Ending::Normal(Some(why)) => EndingV::Normal(Some(why@)),
            Ending::Normal(None) => EndingV::Normal(None),
            Ending::Failed(kind, Some(why)) => EndingV::Failed(kind@, Some(why@)),
            Ending::Failed(kind, None) => EndingV::Failed(kind@, None),
        }
    }
}

/// What a signal means. The one that the program sends itself is the one with number `internal`; any
/// other may have a name.
pub fn ending_for_signal(signo: i32, internal: i32, name: Option<String>) -> (r: Ending)
    ensures
        r@ == if signo == internal {
            EndingV::Normal(Some("Internal signal"@))
        } else {
            EndingV::Interrupted(
                match name {
                    Some(name) => Some(name@),
                    None => None,
                },
            )
        },
{
    if signo == internal {
        Ending::Normal(Some("Internal signal".to_owned()))
    } else {
        Ending::Interrupted(name)
    }
}

/// Calls `Signal::try_from` and, where there is such a signal, `Signal::as_str` on it. Which signals
/// there are, and which numbers they have, differs between machines, so nothing is claimed of the
/// name.
#[verifier::external_body]
fn signal_name(signo: i32) -> (r: Option<String>) {
    Signal::try_from(signo).ok().map(|s| s.as_str().to_owned())
}

/// What a signal means, by the name that its number has on this machine, if it has one.
pub fn ending_for_signo(signo: i32, internal: i32) -> (r: Ending)
    ensures
        signo == internal ==> r@ == EndingV::Normal(Some("Internal signal"@)),
        signo != internal ==> r@ is Interrupted,
{
    ending_for_signal(signo, internal, signal_name(signo))
}

/// What it means that there is input from the server, to which nothing is ever sent.
pub fn ending_for_server() -> (r: Ending)
    ensures
        r@ == EndingV::Normal(Some("Server terminated connection"@)),
{
    Ending::Normal(Some("Server terminated connection".to_owned()))
}

/// The last words of the program, and whether they are those of a failure.
pub open spec fn last_words_of(ending: EndingV) -> (Seq<char>, bool) {
    match ending {
        EndingV::Interrupted(Some(name)) => ("Interrupted with "@ + name, false),
        EndingV::Interrupted(None) => ("Interrupted"@, false),
        EndingV::Normal(Some(why)) => ("Normal termination: "@ + why, false),
        EndingV::Normal(None) => ("Normal termination"@, false),
        EndingV::Failed(kind, Some(why)) => (kind + ": "@ + why, true),
        EndingV::Failed(kind, None) => (kind, true),
    }
}

/// Says the last words of the program, and whether they are those of a failure.
pub fn last_words(ending: Ending) -> (r: (String, bool))
    ensures
        ((r.0)@, r.1) == last_words_of(ending@),
{
    match ending {
        Ending::Interrupted(Some(name)) => {
            let mut s = "Interrupted with ".to_owned();
            s.append(name.as_str());
            (s, false)
        },
        Ending::Interrupted(None) => ("Interrupted".to_owned(), false),
        Ending::Normal(Some(why)) => {
            let mut s = "Normal termination: ".to_owned();
            s.append(why.as_str());
            (s, false)
        },
        Ending::Normal(None) => ("Normal termination".to_owned(), false),
        Ending::Failed(kind, Some(why)) => {
            let mut s = kind;
            s.append(": ");
            s.append(why.as_str());
            (s, true)
        },
        Ending::Failed(kind, None) => (kind, true),
    }
}

} // verus!
