use vstd::prelude::*;

verus! {

/// A stored chunk of content.
#[derive(Debug)]
pub struct Blob {
    pub hash: [u8; 32],
    pub data: Vec<u8>,
    pub compression: String,
    pub uncompressed_size: u64,
}

/// A stored file: its size and the recipe of chunk hashes it is made of.
#[derive(Debug)]
pub struct File {
    pub hash: [u8; 32],
    pub size: u64,
    pub recipe_version: u32,
    pub chunk_count: u64,
    pub recipe: Vec<u8>,
}

/// Size and recipe of a stored file.
#[derive(Debug)]
pub struct FileInfo {
    pub size: i64,
    pub recipe: Vec<u8>,
}

/// A file in the staging area.
#[derive(Debug)]
pub struct StagedFile {
    pub path: String,
    pub file_hash: [u8; 32],
    pub mode: u32,
    pub size: u64,
    pub modified_at: i64,
}

/// A commit record.
#[derive(Debug)]
pub struct Commit {
    pub hash: [u8; 32],
    pub parent_hash: Option<[u8; 32]>,
    pub merge_parent_hash: Option<[u8; 32]>,
    pub tree_hash: [u8; 32],
    pub message: String,
    pub author_id: i64,
    pub timestamp: i64,
}

/// One row of a stored tree: a named child of the tree `parent_hash`.
#[derive(Debug)]
pub struct TreeEntry {
    pub parent_hash: [u8; 32],
    pub name: String,
    pub object_hash: [u8; 32],
    pub mode: u32,
    pub is_dir: bool,
}

/// A commit author.
#[derive(Debug)]
pub struct Author {
    pub id: i64,
    pub name: String,
    pub email: String,
}

/// Complete status information comparing HEAD, staging, and working directory.
#[derive(Debug)]
pub struct StatusInfo {
    pub branch_name: Option<String>,
    pub detached_commit: Option<[u8; 32]>,
    pub staged_new: Vec<String>,
    pub staged_modified: Vec<String>,
    pub staged_deleted: Vec<String>,
    pub unstaged_modified: Vec<String>,
    pub unstaged_deleted: Vec<String>,
    pub untracked: Vec<String>,
}

impl StatusInfo {
    /// Something is staged, changed in the working directory, or untracked.
    pub fn has_changes(&self) -> (r: bool)
        ensures
            r == (self.staged_new@.len() > 0 || self.staged_modified@.len() > 0
                || self.staged_deleted@.len() > 0 || self.unstaged_modified@.len() > 0
                || self.unstaged_deleted@.len() > 0 || self.untracked@.len() > 0),
    {
        !self.staged_new.is_empty() || !self.staged_modified.is_empty()
            || !self.staged_deleted.is_empty() || !self.unstaged_modified.is_empty()
            || !self.unstaged_deleted.is_empty() || !self.untracked.is_empty()
    }

    /// Something is staged that HEAD does not hold.
    pub fn has_staged_changes(&self) -> (r: bool)
        ensures
            r == (self.staged_new@.len() > 0 || self.staged_modified@.len() > 0
                || self.staged_deleted@.len() > 0),
    {
        !self.staged_new.is_empty() || !self.staged_modified.is_empty()
            || !self.staged_deleted.is_empty()
    }
}

/// How history is to be listed.
#[derive(Debug)]
pub struct LogOptions {
    pub limit: Option<usize>,
    pub show_graph: bool,
    pub oneline: bool,
    pub first_parent: bool,
}

/// A commit with its author and the references that point at it.
#[derive(Debug)]
pub struct CommitInfo {
    pub hash: [u8; 32],
    pub parent_hash: Option<[u8; 32]>,
    pub merge_parent_hash: Option<[u8; 32]>,
    pub tree_hash: [u8; 32],
    pub author_name: String,
    pub author_email: String,
    pub timestamp: i64,
    pub message: String,
    pub refs: Vec<String>,
}

/// Where HEAD points: a branch with its commit, or a commit directly.
#[derive(Debug)]
pub enum HeadState {
    Branch(String, [u8; 32]),
    Detached([u8; 32]),
}

/// The result of switching HEAD.
#[derive(Debug)]
pub struct SwitchResult {
    pub previous_head: HeadState,
    pub new_head: HeadState,
    pub files_changed: usize,
    pub files_deleted: usize,
}

/// What a switch target names.
#[derive(Debug)]
pub enum TargetType {
    Branch(String),
    Commit,
}

/// The working-directory changes that take one tree to another.
#[derive(Debug)]
pub struct SwitchPlan {
    pub to_add: Vec<(String, [u8; 32], u32)>,
    pub to_modify: Vec<(String, [u8; 32], u32)>,
    pub to_delete: Vec<String>,
}

/// One entry of the reference log.
#[derive(Debug)]
pub struct ReflogEntry {
    pub id: i64,
    pub ref_path: String,
    pub old_hash: Option<[u8; 32]>,
    pub new_hash: Option<[u8; 32]>,
    pub action: String,
    pub timestamp: i64,
}

} // verus!
