use vstd::prelude::*;
use crate::error::ReviusError;
use crate::text::{trim, spec_trim};

verus! {

/// The command line: one subcommand.
#[derive(Debug)]
pub struct Cli {
    pub command: Commands,
}

/// The subcommands.
#[derive(Debug)]
pub enum Commands {
    Init(InitArgs),
    Add(AddArgs),
    Commit(CommitArgs),
    Status(StatusArgs),
    Log(LogArgs),
    Branch(BranchArgs),
    Switch(SwitchArgs),
    Merge(MergeArgs),
    Reset(ResetArgs),
    Restore(RestoreArgs),
    Gc(GcArgs),
    Config(ConfigArgs),
    Reflog(ReflogArgs),
}

#[derive(Debug)]
pub struct InitArgs {
    pub path: String,
}

#[derive(Debug)]
pub struct AddArgs {
    pub paths: Vec<String>,
}

#[derive(Debug)]
pub struct CommitArgs {
    pub message: String,
}

#[derive(Debug)]
pub struct StatusArgs {}

#[derive(Debug)]
pub struct LogArgs {
    pub limit: Option<usize>,
    pub graph: bool,
    pub oneline: bool,
    pub first_parent: bool,
}

#[derive(Debug)]
pub struct BranchArgs {
    pub name: Option<String>,
    pub rename: bool,
    pub delete: bool,
    pub force_delete: bool,
    pub new_name: Option<String>,
}

#[derive(Debug)]
pub struct SwitchArgs {
    pub target: String,
    pub create: bool,
    pub force: bool,
}

#[derive(Debug)]
pub struct MergeArgs {
    pub target: String,
}

#[derive(Debug)]
pub struct ResetArgs {
    pub target: Option<String>,
    pub soft: bool,
    pub mixed: bool,
    pub hard: bool,
}

#[derive(Debug)]
pub struct RestoreArgs {
    pub paths: Vec<String>,
    pub staged: bool,
    pub worktree: bool,
    pub source: Option<String>,
}

#[derive(Debug)]
pub struct GcArgs {
    pub dry_run: bool,
}

#[derive(Debug)]
pub struct ConfigArgs {
    pub key: Option<String>,
    pub value: Option<String>,
    pub user: Option<Vec<String>>,
}

#[derive(Debug)]
pub struct ReflogArgs {
    pub ref_name: Option<String>,
    pub limit: Option<usize>,
}

/// What `branch` was asked to do.
#[derive(Debug)]
pub enum BranchAction {
    List,
    Create { name: String },
    Rename { old_name: Option<String>, new_name: String },
    Delete { name: String, force: bool },
}

pub open spec fn flag_count(a: bool, b: bool, c: bool) -> int {
    (if a { 1int } else { 0 }) + (if b { 1int } else { 0 }) + (if c { 1int } else { 0 })
}

/// Reads the `branch` arguments: at most one of -m, -d, -D; a rename takes
/// `[old] new`; a deletion or creation takes exactly one name; no name lists.
pub fn branch_action(args: BranchArgs) -> (r: Result<BranchAction, ReviusError>)
    ensures
        flag_count(args.rename, args.delete, args.force_delete) > 1 ==> (r matches Err(ReviusError::Usage(m))
            && m@ == "Cannot combine -m, -d, and -D flags"@),
        flag_count(args.rename, args.delete, args.force_delete) <= 1 ==> (if args.rename {
            match (args.name, args.new_name) {
                (Some(o), Some(n)) => r matches Ok(BranchAction::Rename { old_name: Some(x), new_name: y }) && x@ == o@ && y@ == n@,
                (Some(n), None) => r matches Ok(BranchAction::Rename { old_name: None, new_name: y }) && y@ == n@,
                (None, _) => r matches Err(ReviusError::Usage(m))
                    && m@ == "Branch name required for rename. Usage: rvs branch -m [<old_name>] <new_name>"@,
            }
        } else if args.delete || args.force_delete {
            match (args.name, args.new_name) {
                (None, _) => r matches Err(ReviusError::Usage(m))
                    && m@ == "Branch name required for deletion. Usage: rvs branch -d <branch_name>"@,
                (Some(_), Some(_)) => r matches Err(ReviusError::Usage(m))
                    && m@ == "Too many arguments for branch deletion. Usage: rvs branch -d <branch_name>"@,
                (Some(n), None) => r matches Ok(BranchAction::Delete { name: x, force }) && x@ == n@ && force == args.force_delete,
            }
        } else {
            match (args.name, args.new_name) {
                (None, _) => r matches Ok(BranchAction::List),
                (Some(_), Some(_)) => r matches Err(ReviusError::Usage(m))
                    && m@ == "Too many arguments for branch creation. Usage: rvs branch <branch_name>"@,
                (Some(n), None) => r matches Ok(BranchAction::Create { name: x }) && x@ == n@,
            }
        }),
{
    let count: u8 = (if args.rename { 1u8 } else { 0u8 }) + (if args.delete { 1u8 } else { 0u8 })
        + (if args.force_delete { 1u8 } else { 0u8 });
    if count > 1 {
        return Err(ReviusError::Usage(String::from_str("Cannot combine -m, -d, and -D flags")));
    }
    if args.rename {
        match (args.name, args.new_name) {
            (Some(o), Some(n)) => Ok(BranchAction::Rename { old_name: Some(o), new_name: n }),
            (Some(n), None) => Ok(BranchAction::Rename { old_name: None, new_name: n }),
            (None, _) => Err(ReviusError::Usage(String::from_str(
                "Branch name required for rename. Usage: rvs branch -m [<old_name>] <new_name>",
            ))),
        }
    } else if args.delete || args.force_delete {
        match (args.name, args.new_name) {
            (None, _) => Err(ReviusError::Usage(String::from_str(
                "Branch name required for deletion. Usage: rvs branch -d <branch_name>",
            ))),
            (Some(_), Some(_)) => Err(ReviusError::Usage(String::from_str(
                "Too many arguments for branch deletion. Usage: rvs branch -d <branch_name>",
            ))),
            (Some(n), None) => Ok(BranchAction::Delete { name: n, force: args.force_delete }),
        }
    } else {
        match (args.name, args.new_name) {
            (None, _) => Ok(BranchAction::List),
            (Some(_), Some(_)) => Err(ReviusError::Usage(String::from_str(
                "Too many arguments for branch creation. Usage: rvs branch <branch_name>",
            ))),
            (Some(n), None) => Ok(BranchAction::Create { name: n }),
        }
    }
}

/// How much `reset` resets.
#[derive(Debug, PartialEq, Eq, Structural, Clone, Copy)]
pub enum ResetMode {
    Soft,
    Mixed,
    Hard,
}

/// Reads the reset mode: at most one flag; mixed when none is given.
pub fn reset_mode(soft: bool, mixed: bool, hard: bool) -> (r: Result<ResetMode, ReviusError>)
    ensures
        flag_count(soft, mixed, hard) > 1 ==> (r matches Err(ReviusError::Usage(m))
            && m@ == "Cannot specify multiple reset modes (--soft, --mixed, --hard) at once"@),
        flag_count(soft, mixed, hard) <= 1 ==> r == Ok::<ResetMode, ReviusError>(
            if hard { ResetMode::Hard } else if soft { ResetMode::Soft } else { ResetMode::Mixed }),
{
    let count: u8 = (if soft { 1u8 } else { 0u8 }) + (if mixed { 1u8 } else { 0u8 }) + (if hard { 1u8 } else { 0u8 });
    if count > 1 {
        return Err(ReviusError::Usage(String::from_str(
            "Cannot specify multiple reset modes (--soft, --mixed, --hard) at once",
        )));
    }
    if hard {
        Ok(ResetMode::Hard)
    } else if soft {
        Ok(ResetMode::Soft)
    } else {
        Ok(ResetMode::Mixed)
    }
}

/// What `restore` restores.
#[derive(Debug, PartialEq, Eq, Structural, Clone, Copy)]
pub enum RestoreMode {
    Worktree,
    Staged,
    Mixed,
}

/// Reads the restore mode: the working tree when no flag is given, both
/// when both are given.
pub fn restore_mode(staged: bool, worktree: bool) -> (r: RestoreMode)
    ensures
        r == (if staged && worktree { RestoreMode::Mixed } else if staged { RestoreMode::Staged } else { RestoreMode::Worktree }),
{
    let worktree = worktree || (!staged && !worktree);
    if staged && worktree {
        RestoreMode::Mixed
    } else if staged {
        RestoreMode::Staged
    } else {
        RestoreMode::Worktree
    }
}

/// A commit message must hold more than white space.
pub fn check_commit_message(message: &str) -> (r: Result<(), ReviusError>)
    ensures
        spec_trim(message@).len() == 0 ==> (r matches Err(ReviusError::Usage(m)) && m@ == "Commit message cannot be empty"@),
        spec_trim(message@).len() > 0 ==> r is Ok,
{
    let t = trim(message);
    if t.unicode_len() == 0 {
        return Err(ReviusError::Usage(String::from_str("Commit message cannot be empty")));
    }
    Ok(())
}

/// What `config` was asked to do.
#[derive(Debug)]
pub enum ConfigRequest {
    SetIdentity { name: String, email: String },
    SetValue { key: String, value: String },
}

/// Reads the `config` arguments: `--user <name> <email>`, or a key and a value.
pub fn config_request(args: ConfigArgs) -> (r: Result<ConfigRequest, ReviusError>)
    ensures
        match args.user {
            Some(u) => if u@.len() == 2 {
                r matches Ok(ConfigRequest::SetIdentity { name, email }) && name@ == u@[0]@ && email@ == u@[1]@
            } else {
                r matches Err(ReviusError::Usage(m)) && m@ == "The --user flag requires exactly two arguments: <name> <email>"@
            },
            None => match (args.key, args.value) {
                (Some(k), Some(v)) => r matches Ok(ConfigRequest::SetValue { key, value }) && key@ == k@ && value@ == v@,
                _ => r matches Err(ReviusError::Usage(m))
                    && m@ == "Invalid arguments. Use 'rvs config <key> <value>' or 'rvs config --user <name> <email>'"@,
            },
        },
{
    match args.user {
        Some(u) => {
            if u.len() != 2 {
                return Err(ReviusError::Usage(String::from_str(
                    "The --user flag requires exactly two arguments: <name> <email>",
                )));
            }
            Ok(ConfigRequest::SetIdentity { name: u[0].clone(), email: u[1].clone() })
        },
        None => match (args.key, args.value) {
            (Some(k), Some(v)) => Ok(ConfigRequest::SetValue { key: k, value: v }),
            _ => Err(ReviusError::Usage(String::from_str(
                "Invalid arguments. Use 'rvs config <key> <value>' or 'rvs config --user <name> <email>'",
            ))),
        },
    }
}

} // verus!
