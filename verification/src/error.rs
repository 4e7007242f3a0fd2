use vstd::prelude::*;

verus! {

/// Every error the system reports. Paths are carried as text.
#[derive(Debug)]
pub enum ReviusError {
    RepoAlreadyExists(String),
    RepoNotFound(String),
    Io(String, String),
    Db(String),
    Config(String),
    Path(String),
    Usage(String),
    Permission(String),
    Cancelled,
    BranchAlreadyExists(String),
    BranchNotFound(String),
    InvalidBranchName(String),
    CannotDeleteCurrentBranch(String),
    DetachedHead(String),
    NoCommitsYet,
    CommitNotFound(String),
    TargetNotFound(String),
    AmbiguousHashPrefix(String),
    InvalidHashPrefix(String),
    MergeError(String),
    UncommittedChanges,
    Compression(String),
    AlreadyInitialized(String),
    Corrupt(String),
}

/// The process exit code that belongs to an error.
pub open spec fn spec_exit_code(e: ReviusError) -> i32 {
    match e {
        ReviusError::Usage(_) => 2,
        ReviusError::Permission(_) => 126,
        ReviusError::Cancelled => 130,
        _ => 1,
    }
}

impl ReviusError {
    pub fn exit_code(&self) -> (code: i32)
        ensures
            code == spec_exit_code(*self),
    {
        match self {
            ReviusError::Usage(_) => 2,
            ReviusError::Permission(_) => 126,
            ReviusError::Cancelled => 130,
            _ => 1,
        }
    }
}

} // verus!
