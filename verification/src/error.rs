use vstd::prelude::*;
use vstd::string::*;

verus! {

/// What is wrong with an index file that could not be decoded.
#[derive(PartialEq, Eq, Debug, Clone, Copy)]
pub enum IndexFault {
    /// The file does not start with the signature `DIRC`.
    BadSignature,
    /// The version is neither 2 nor 3.
    UnsupportedVersion,
    /// The file ends before the header or an announced entry does.
    Truncated,
    /// An entry's path has no last component, or is not UTF-8.
    BadName,
    /// An entry carries the extended flag, and with it a second word of flags.
    ExtendedFlags,
}

/// The category of a failure.
#[derive(PartialEq, Eq, Debug, Clone, Copy)]
pub enum ErrorKind {
    NotARepository,
    IndexParse(IndexFault),
    Io,
    UnsupportedRepositoryState,
}

/// A failure of a status run, with the message shown to the user.
#[derive(PartialEq, Eq, Debug, Clone)]
pub struct StatusError {
    pub kind: ErrorKind,
    pub message: String,
}

/// The message for an index that could not be decoded.
pub open spec fn index_fault_message(fault: IndexFault) -> Seq<char> {
    match fault {
        IndexFault::BadSignature => "fatal: index file corrupt: bad signature"@,
        IndexFault::UnsupportedVersion => "fatal: index file corrupt: bad index version"@,
        IndexFault::Truncated => "fatal: index file smaller than expected"@,
        IndexFault::BadName => "fatal: index file corrupt: malformed entry name"@,
        IndexFault::ExtendedFlags => "fatal: index file corrupt: extended flags are not supported"@,
    }
}

/// The message for a start directory that lies in no repository.
pub open spec fn not_a_repository_message() -> Seq<char> {
    "fatal: not a git repository (or any of the parent directories): .git"@
}

/// The message for a repository in the middle of an operation named `state`.
pub open spec fn unsupported_state_message(state: Seq<char>) -> Seq<char> {
    "A repository in "@ + state + " state is currently unsupported"@
}

/// The message for a submodule at `name` that could not be examined.
pub open spec fn submodule_message(name: Seq<char>, reason: Seq<char>) -> Seq<char> {
    "fatal: could not examine submodule '"@ + name + "': "@ + reason
}

impl StatusError {
    /// The failure for an index file that could not be decoded.
    pub fn index_parse(fault: IndexFault) -> (e: StatusError)
        ensures
            e.kind == ErrorKind::IndexParse(fault),
            e.message@ == index_fault_message(fault),
    {
        let message = match fault {
            IndexFault::BadSignature => String::from_str("fatal: index file corrupt: bad signature"),
            IndexFault::UnsupportedVersion => String::from_str(
                "fatal: index file corrupt: bad index version",
            ),
            IndexFault::Truncated => String::from_str("fatal: index file smaller than expected"),
            IndexFault::BadName => String::from_str(
                "fatal: index file corrupt: malformed entry name",
            ),
            IndexFault::ExtendedFlags => String::from_str(
                "fatal: index file corrupt: extended flags are not supported",
            ),
        };
        StatusError { kind: ErrorKind::IndexParse(fault), message }
    }

    /// The failure for a start directory that lies in no repository.
    pub fn not_a_repository() -> (e: StatusError)
        ensures
            e.kind == ErrorKind::NotARepository,
            e.message@ == not_a_repository_message(),
    {
        StatusError {
            kind: ErrorKind::NotARepository,
            message: String::from_str(
                "fatal: not a git repository (or any of the parent directories): .git",
            ),
        }
    }

    /// The failure for a read that went wrong, with the system's own wording.
    pub fn io(message: String) -> (e: StatusError)
        ensures
            e.kind == ErrorKind::Io,
            e.message@ == message@,
    {
        StatusError { kind: ErrorKind::Io, message }
    }

    /// The failure for a repository in the middle of a merge, a rebase or the like.
    pub fn unsupported_state(state: &str) -> (e: StatusError)
        ensures
            e.kind == ErrorKind::UnsupportedRepositoryState,
            e.message@ == unsupported_state_message(state@),
    {
        let mut message = String::from_str("A repository in ");
        message.append(state);
        message.append(" state is currently unsupported");
        StatusError { kind: ErrorKind::UnsupportedRepositoryState, message }
    }

    /// The failure for a submodule that could not be examined.
    pub fn submodule(name: &str, reason: &str) -> (e: StatusError)
        ensures
            e.kind == ErrorKind::Io,
            e.message@ == submodule_message(name@, reason@),
    {
        let mut message = String::from_str("fatal: could not examine submodule '");
        message.append(name);
        message.append("': ");
        message.append(reason);
        StatusError { kind: ErrorKind::Io, message }
    }
}

} // verus!
