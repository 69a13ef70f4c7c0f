//! Git, as far as it is rules: the typed failures and refusals and how
//! they read, the commit scope of a pipeline, the repository layout's path
//! mapping, the `git status --porcelain=v2` reader, hunk headers, the node
//! markers a diff renders to, and the decisions commit and revert take
//! before and after running git.
use vstd::prelude::*;
use crate::protocol::{operation_name, FileStatus, GitErrorKind, Operation, RepoInfo, Upstream};
use crate::files::{extension_of, file_name_of, last_dot};
use crate::text::{
    chars_of, chars_start_with, decimal, find_char, first_index, parse_unsigned, push_decimal_wide,
    push_signed_decimal, rfind_char, same_chars, same_text, signed_decimal, split_chars, split_on,
    starts_with, string_between, string_of, last_index, unsigned_value,
};
use std::path::PathBuf;

verus! {

/// A file-system path, as the OS reported it.
#[verifier::external_type_specification]
#[verifier::external_body]
pub struct ExPathBuf(PathBuf);

/// The OS's own words for an error.
#[verifier::external_body]
fn os_text(error: &std::io::Error) -> String {
    error.to_string()
}

/// What `Path::display` shows of a path (a function of the path alone:
/// its bytes, read as UTF-8 with bad sequences replaced).
pub uninterp spec fn path_display(path: PathBuf) -> Seq<char>;

/// A path as `Path::display` shows it; the text is [`path_display`] of
/// the path.
#[verifier::external_body]
fn path_text(path: &PathBuf) -> (text: String)
    ensures
        text@ == path_display(*path),
{
    path.display().to_string()
}

// ------------------------------------------------------------- errors --

/// A git invocation that did not do its job — the unexpected failures.
/// The expected non-answers (not a repo, unborn, detached, locked) are
/// states, not errors.
#[derive(Debug)]
pub enum GitError {
    /// The binary is not on PATH.
    NotFound {
        /// What was looked for.
        program: String,
    },
    /// Spawning or talking to the process failed.
    Spawn {
        /// The command (without the global options).
        command: String,
        /// The OS error.
        source: std::io::Error,
    },
    /// Non-zero exit the caller did not expect.
    Failed {
        /// The command.
        command: String,
        /// Exit code (`None` = killed by a signal).
        code: Option<i32>,
        /// Captured stderr, trimmed.
        stderr: String,
    },
    /// Killed after the timeout.
    Timeout {
        /// The command.
        command: String,
        /// The budget it blew.
        timeout_ms: u128,
    },
    /// Output git produced that this module cannot read.
    Unparsable {
        /// The command.
        command: String,
        /// What was wrong.
        message: String,
    },
    /// Reading a project file failed.
    Read {
        /// The file.
        path: PathBuf,
        /// The OS error.
        source: std::io::Error,
    },
}

/// How a git failure reads (for `Spawn` and `Read` the OS's own words
/// follow the text given here).
pub open spec fn git_error_text(error: GitError) -> Seq<char> {
    match error {
        GitError::NotFound { program } => "no `"@ + program@
            + "` on PATH — install git or put it on PATH"@,
        GitError::Spawn { command, .. } => "running `"@ + command@ + "`: "@,
        GitError::Failed { command, code, stderr } => "`"@ + command@ + "` exited "@ + match code {
            Some(c) => signed_decimal(c as int),
            None => "by signal"@,
        } + ": "@ + stderr@,
        GitError::Timeout { command, timeout_ms } => "`"@ + command@
            + "` did not finish within "@ + decimal(timeout_ms as nat)
            + " ms and was killed"@,
        GitError::Unparsable { command, message } => "`"@ + command@
            + "` produced unreadable output: "@ + message@,
        GitError::Read { path, .. } => "reading "@ + path_display(path) + ": "@,
    }
}

/// Is the error's text followed by the OS's words?
pub open spec fn git_error_has_os_text(error: GitError) -> bool {
    error matches GitError::Spawn { .. } || error matches GitError::Read { .. }
}

/// `text` is `head`, or — when `open` — starts with `head`.
pub open spec fn reads_as(text: Seq<char>, head: Seq<char>, open: bool) -> bool {
    if open {
        head.len() <= text.len() && text.subrange(0, head.len() as int) == head
    } else {
        text == head
    }
}

impl GitError {
    /// The failure in words.
    pub fn message(&self) -> (text: String)
        ensures
            reads_as(text@, git_error_text(*self), git_error_has_os_text(*self)),
    {
        match self {
            GitError::NotFound { program } => {
                let mut text = "no `".to_owned();
                text.append(program.as_str());
                text.append("` on PATH — install git or put it on PATH");
                text
            },
            GitError::Spawn { command, source } => {
                let mut text = "running `".to_owned();
                text.append(command.as_str());
                text.append("`: ");
                let ghost head = text@;
                let os = os_text(source);
                text.append(os.as_str());
                assert(text@.subrange(0, head.len() as int) =~= head);
                text
            },
            GitError::Failed { command, code, stderr } => {
                let mut text = "`".to_owned();
                text.append(command.as_str());
                text.append("` exited ");
                match code {
                    Some(c) => push_signed_decimal(&mut text, *c),
                    None => text.append("by signal"),
                }
                text.append(": ");
                text.append(stderr.as_str());
                text
            },
            GitError::Timeout { command, timeout_ms } => {
                let mut text = "`".to_owned();
                text.append(command.as_str());
                text.append("` did not finish within ");
                push_decimal_wide(&mut text, *timeout_ms);
                text.append(" ms and was killed");
                text
            },
            GitError::Unparsable { command, message } => {
                let mut text = "`".to_owned();
                text.append(command.as_str());
                text.append("` produced unreadable output: ");
                text.append(message.as_str());
                text
            },
            GitError::Read { path, source } => {
                let mut text = "reading ".to_owned();
                let shown = path_text(path);
                text.append(shown.as_str());
                text.append(": ");
                let ghost head = text@;
                let os = os_text(source);
                text.append(os.as_str());
                assert(text@.subrange(0, head.len() as int) =~= head);
                text
            },
        }
    }
}

/// Why a git route refused — one `kind` per variant ([`GitErrorKind`]).
#[derive(Debug)]
pub enum GitRefusal {
    /// Malformed request.
    Protocol(String),
    /// The caller does not hold the write lease.
    Lease,
    /// Nobody holds the write lease: no client has the pipeline open.
    NoWriter(String),
    /// `?pipeline=` names no pipeline of the project.
    NoSuchPipeline(String),
    /// Not inside a git work tree.
    NotARepo,
    /// No git binary.
    GitNotFound,
    /// `index.lock` is held.
    Locked,
    /// The scope is clean.
    NothingToCommit,
    /// The (requested) scope is clean.
    NothingToRevert,
    /// A path has no HEAD version.
    Untracked(String),
    /// The pipeline is matched by `.gitignore`.
    Ignored(String),
    /// A multi-step git operation is in progress.
    OperationInProgress(Operation),
    /// Empty commit message.
    EmptyMessage,
    /// A path outside the scope.
    PathNotAllowed {
        /// The offending path.
        path: String,
        /// The rule it broke.
        why: String,
    },
    /// An unexpected git failure.
    Git(GitError),
    /// The files were restored but the session could not reload them.
    Reload(String),
    /// The server failed around the git call.
    Internal(String),
}

/// The machine `kind` of a refusal.
pub open spec fn refusal_kind(refusal: GitRefusal) -> GitErrorKind {
    match refusal {
        GitRefusal::Protocol(_) => GitErrorKind::Protocol,
        GitRefusal::NoSuchPipeline(_) => GitErrorKind::NoSuchPipeline,
        GitRefusal::Lease => GitErrorKind::Lease,
        GitRefusal::NoWriter(_) => GitErrorKind::Lease,
        GitRefusal::NotARepo => GitErrorKind::NotARepo,
        GitRefusal::GitNotFound => GitErrorKind::GitNotFound,
        GitRefusal::Locked => GitErrorKind::Locked,
        GitRefusal::NothingToCommit => GitErrorKind::NothingToCommit,
        GitRefusal::NothingToRevert => GitErrorKind::NothingToRevert,
        GitRefusal::Untracked(_) => GitErrorKind::Untracked,
        GitRefusal::Ignored(_) => GitErrorKind::Ignored,
        GitRefusal::OperationInProgress(_) => GitErrorKind::OperationInProgress,
        GitRefusal::EmptyMessage => GitErrorKind::EmptyMessage,
        GitRefusal::PathNotAllowed { .. } => GitErrorKind::PathNotAllowed,
        GitRefusal::Git(GitError::NotFound { .. }) => GitErrorKind::GitNotFound,
        GitRefusal::Git(GitError::Timeout { .. }) => GitErrorKind::GitTimeout,
        GitRefusal::Git(GitError::Read { .. }) => GitErrorKind::IoError,
        GitRefusal::Git(_) => GitErrorKind::GitFailed,
        GitRefusal::Reload(_) => GitErrorKind::ReloadFailed,
        GitRefusal::Internal(_) => GitErrorKind::Internal,
    }
}

/// How a refusal reads (an unexpected git failure reads as that failure).
pub open spec fn refusal_text(refusal: GitRefusal) -> Seq<char> {
    match refusal {
        GitRefusal::Protocol(text) => text@,
        GitRefusal::Lease => "the write lease is required: name the writer's client id (`client` in the body or X-Cicada-Client)"@,
        GitRefusal::NoWriter(path) => "the write lease is required and nobody holds it: no client has `"@
            + path@ + "` open — open it in the app first"@,
        GitRefusal::NoSuchPipeline(path) => "no pipeline `"@ + path@
            + "` in the project (see /api/project)"@,
        GitRefusal::NotARepo => "the project directory is not inside a git repository — `git init` it first"@,
        GitRefusal::GitNotFound => "no `git` on PATH — install git or put it on PATH"@,
        GitRefusal::Locked => "another git process holds index.lock — retry when it has finished"@,
        GitRefusal::NothingToCommit => "nothing to commit — no file of this pipeline's scope differs from HEAD"@,
        GitRefusal::NothingToRevert => "nothing to revert — no file of the requested scope differs from HEAD"@,
        GitRefusal::Untracked(path) => "`"@ + path@
            + "` has no HEAD version to revert to (untracked or not yet committed)"@,
        GitRefusal::Ignored(path) => "`"@ + path@
            + "` is ignored by a .gitignore rule — git refuses to add it; un-ignore it (or `git add -f` it once in a shell) to commit from the app"@,
        GitRefusal::OperationInProgress(operation) => "a "@ + operation_name(operation)
            + " is in progress in the repository — finish or abort it in your shell first (committing or reverting part of it from the app would be a partial step)"@,
        GitRefusal::EmptyMessage => "the commit message is empty"@,
        GitRefusal::PathNotAllowed { path, why } => "`"@ + path@ + "`: "@ + why@,
        GitRefusal::Git(error) => git_error_text(error),
        GitRefusal::Reload(text) => "the files were restored to HEAD but the session could not reload them: "@
            + text@,
        GitRefusal::Internal(text) => "internal failure around the git call: "@ + text@,
    }
}

/// Does the refusal's text lead with the OS's words?
pub open spec fn refusal_has_os_text(refusal: GitRefusal) -> bool {
    refusal matches GitRefusal::Git(error) && git_error_has_os_text(error)
}

/// `text` is there and reads `expected`.
pub open spec fn text_is(text: Option<String>, expected: Seq<char>) -> bool {
    text matches Some(t) && t@ == expected
}

/// A refusal's body: `{kind, message}` and its facts — a failed command
/// carries `command`, `code`, `stderr`; a timed-out or unspawnable one its
/// `command`; a refused path its `path`; an operation in progress its
/// `operation`.
#[derive(Debug, Clone, PartialEq, Eq)]
pub struct RefusalBody {
    /// The machine kind.
    pub kind: GitErrorKind,
    /// The refusal in words.
    pub message: String,
    /// The git command, when one failed.
    pub command: Option<String>,
    /// Its exit code, when it failed with one (`Some(None)`: killed by a
    /// signal).
    pub code: Option<Option<i32>>,
    /// Its stderr, when it failed.
    pub stderr: Option<String>,
    /// The path a refusal is about.
    pub path: Option<String>,
    /// The operation in progress.
    pub operation: Option<Operation>,
}

impl GitRefusal {
    /// The machine `kind`.
    pub fn kind(&self) -> (kind: GitErrorKind)
        ensures
            kind == refusal_kind(*self),
    {
        match self {
            GitRefusal::Protocol(_) => GitErrorKind::Protocol,
            GitRefusal::NoSuchPipeline(_) => GitErrorKind::NoSuchPipeline,
            GitRefusal::Lease => GitErrorKind::Lease,
            GitRefusal::NoWriter(_) => GitErrorKind::Lease,
            GitRefusal::NotARepo => GitErrorKind::NotARepo,
            GitRefusal::GitNotFound => GitErrorKind::GitNotFound,
            GitRefusal::Locked => GitErrorKind::Locked,
            GitRefusal::NothingToCommit => GitErrorKind::NothingToCommit,
            GitRefusal::NothingToRevert => GitErrorKind::NothingToRevert,
            GitRefusal::Untracked(_) => GitErrorKind::Untracked,
            GitRefusal::Ignored(_) => GitErrorKind::Ignored,
            GitRefusal::OperationInProgress(_) => GitErrorKind::OperationInProgress,
            GitRefusal::EmptyMessage => GitErrorKind::EmptyMessage,
            GitRefusal::PathNotAllowed { .. } => GitErrorKind::PathNotAllowed,
            GitRefusal::Git(GitError::NotFound { .. }) => GitErrorKind::GitNotFound,
            GitRefusal::Git(GitError::Timeout { .. }) => GitErrorKind::GitTimeout,
            GitRefusal::Git(GitError::Read { .. }) => GitErrorKind::IoError,
            GitRefusal::Git(_) => GitErrorKind::GitFailed,
            GitRefusal::Reload(_) => GitErrorKind::ReloadFailed,
            GitRefusal::Internal(_) => GitErrorKind::Internal,
        }
    }

    /// The refusal in words.
    pub fn message(&self) -> (text: String)
        ensures
            reads_as(text@, refusal_text(*self), refusal_has_os_text(*self)),
    {
        match self {
            GitRefusal::Protocol(text) => text.clone(),
            GitRefusal::Lease => "the write lease is required: name the writer's client id (`client` in the body or X-Cicada-Client)".to_owned(),
            GitRefusal::NoWriter(path) => {
                let mut text = "the write lease is required and nobody holds it: no client has `".to_owned();
                text.append(path.as_str());
                text.append("` open — open it in the app first");
                text
            },
            GitRefusal::NoSuchPipeline(path) => {
                let mut text = "no pipeline `".to_owned();
                text.append(path.as_str());
                text.append("` in the project (see /api/project)");
                text
            },
            GitRefusal::NotARepo => "the project directory is not inside a git repository — `git init` it first".to_owned(),
            GitRefusal::GitNotFound => "no `git` on PATH — install git or put it on PATH".to_owned(),
            GitRefusal::Locked => "another git process holds index.lock — retry when it has finished".to_owned(),
            GitRefusal::NothingToCommit => "nothing to commit — no file of this pipeline's scope differs from HEAD".to_owned(),
            GitRefusal::NothingToRevert => "nothing to revert — no file of the requested scope differs from HEAD".to_owned(),
            GitRefusal::Untracked(path) => {
                let mut text = "`".to_owned();
                text.append(path.as_str());
                text.append("` has no HEAD version to revert to (untracked or not yet committed)");
                text
            },
            GitRefusal::Ignored(path) => {
                let mut text = "`".to_owned();
                text.append(path.as_str());
                text.append("` is ignored by a .gitignore rule — git refuses to add it; un-ignore it (or `git add -f` it once in a shell) to commit from the app");
                text
            },
            GitRefusal::OperationInProgress(operation) => {
                let mut text = "a ".to_owned();
                text.append(operation.name());
                text.append(" is in progress in the repository — finish or abort it in your shell first (committing or reverting part of it from the app would be a partial step)");
                text
            },
            GitRefusal::EmptyMessage => "the commit message is empty".to_owned(),
            GitRefusal::PathNotAllowed { path, why } => {
                let mut text = "`".to_owned();
                text.append(path.as_str());
                text.append("`: ");
                text.append(why.as_str());
                text
            },
            GitRefusal::Git(error) => error.message(),
            GitRefusal::Reload(reason) => {
                let mut text = "the files were restored to HEAD but the session could not reload them: ".to_owned();
                text.append(reason.as_str());
                text
            },
            GitRefusal::Internal(reason) => {
                let mut text = "internal failure around the git call: ".to_owned();
                text.append(reason.as_str());
                text
            },
        }
    }

    /// The `{kind, message, …facts}` body.
    pub fn body(&self) -> (body: RefusalBody)
        ensures
            body.kind == refusal_kind(*self),
            reads_as(body.message@, refusal_text(*self), refusal_has_os_text(*self)),
            match *self {
                GitRefusal::Git(GitError::Failed { command, code, stderr }) => text_is(body.command, command@)
                    && body.code == Some(code) && text_is(body.stderr, stderr@) && body.path is None
                    && body.operation is None,
                GitRefusal::Git(GitError::Timeout { command, .. }) => text_is(body.command, command@) && body.code is None && body.stderr is None && body.path is None
                    && body.operation is None,
                GitRefusal::Git(GitError::Spawn { command, .. }) => text_is(body.command, command@) && body.code is None && body.stderr is None && body.path is None
                    && body.operation is None,
                GitRefusal::PathNotAllowed { path, .. } => text_is(body.path, path@) && body.command is None && body.code is None && body.stderr is None
                    && body.operation is None,
                GitRefusal::Untracked(path) => text_is(body.path, path@) && body.command is None && body.code is None && body.stderr is None
                    && body.operation is None,
                GitRefusal::Ignored(path) => text_is(body.path, path@) && body.command is None && body.code is None && body.stderr is None
                    && body.operation is None,
                GitRefusal::NoSuchPipeline(path) => text_is(body.path, path@) && body.command is None && body.code is None && body.stderr is None
                    && body.operation is None,
                GitRefusal::NoWriter(path) => text_is(body.path, path@) && body.command is None && body.code is None && body.stderr is None
                    && body.operation is None,
                GitRefusal::OperationInProgress(operation) => body.operation == Some(operation)
                    && body.command is None && body.code is None && body.stderr is None
                    && body.path is None,
                _ => body.command is None && body.code is None && body.stderr is None && body.path
                    is None && body.operation is None,
            },
    {
        let mut body = RefusalBody {
            kind: self.kind(),
            message: self.message(),
            command: None,
            code: None,
            stderr: None,
            path: None,
            operation: None,
        };
        match self {
            GitRefusal::Git(GitError::Failed { command, code, stderr }) => {
                body.command = Some(command.clone());
                body.code = Some(*code);
                body.stderr = Some(stderr.clone());
            },
            GitRefusal::Git(GitError::Timeout { command, .. }) => {
                body.command = Some(command.clone());
            },
            GitRefusal::Git(GitError::Spawn { command, .. }) => {
                body.command = Some(command.clone());
            },
            GitRefusal::PathNotAllowed { path, .. } => {
                body.path = Some(path.clone());
            },
            GitRefusal::Untracked(path) => {
                body.path = Some(path.clone());
            },
            GitRefusal::Ignored(path) => {
                body.path = Some(path.clone());
            },
            GitRefusal::NoSuchPipeline(path) => {
                body.path = Some(path.clone());
            },
            GitRefusal::NoWriter(path) => {
                body.path = Some(path.clone());
            },
            GitRefusal::OperationInProgress(operation) => {
                body.operation = Some(*operation);
            },
            _ => {},
        }
        body
    }
}

/// The refusal an unexpected git failure really is: a write that met
/// `index.lock` is [`GitRefusal::Locked`]; a missing binary is
/// [`GitRefusal::GitNotFound`]; anything else stays the failure.
pub open spec fn refusal_for(error: GitError) -> GitRefusal {
    match error {
        GitError::Failed { stderr, .. } => if crate::text::has_infix(stderr@, "index.lock"@) {
            GitRefusal::Locked
        } else {
            GitRefusal::Git(error)
        },
        GitError::NotFound { .. } => GitRefusal::GitNotFound,
        _ => GitRefusal::Git(error),
    }
}

/// Map an unexpected git failure to the refusal it really is.
pub fn refuse(error: GitError) -> (refusal: GitRefusal)
    ensures
        refusal == refusal_for(error),
{
    let locked = match &error {
        GitError::Failed { stderr, .. } => crate::text::contains_text(stderr.as_str(), "index.lock"),
        _ => false,
    };
    match error {
        GitError::Failed { .. } => if locked {
            GitRefusal::Locked
        } else {
            GitRefusal::Git(error)
        },
        GitError::NotFound { .. } => GitRefusal::GitNotFound,
        other => GitRefusal::Git(other),
    }
}

// -------------------------------------------------------------- scope --

/// A script's file name: its extension is exactly `py` (which also makes
/// it longer than three bytes: a stem, a dot, `py`).
pub open spec fn script_name(name: Seq<char>) -> bool {
    file_name_of(name) matches Some(file) && extension_of(file) == Some("py"@)
}

/// The directory of a project-relative pipeline's scripts.
pub open spec fn scripts_dir_of(pipeline: Seq<char>) -> Seq<char> {
    match last_index(pipeline, '/') {
        Some(i) => pipeline.subrange(0, i) + "/scripts"@,
        None => "scripts"@,
    }
}

/// The commit scope of one pipeline, project-relative and `/`-separated:
/// its `.cic`, its sidecar, and the `scripts/` directory beside it.
#[derive(Debug, Clone, PartialEq, Eq)]
pub struct Scope {
    /// `dir/p.cic`.
    pub pipeline: String,
    /// `dir/p.cic.layout.json`.
    pub sidecar: String,
    /// `dir/scripts` (no trailing slash).
    pub scripts_dir: String,
}

/// `path` is one of the scope's files: the pipeline, the sidecar, or a
/// `<name>.py` directly in the scripts directory.
pub open spec fn in_scope(scope: Scope, path: Seq<char>) -> bool {
    ||| path == scope.pipeline@
    ||| path == scope.sidecar@
    ||| (last_index(path, '/') matches Some(i) && path.subrange(0, i) == scope.scripts_dir@
        && script_name(path.subrange(i + 1, path.len() as int)))
}

/// A path's place in the response: pipeline, then sidecar, then scripts by
/// path.
pub open spec fn rank_of(scope: Scope, path: Seq<char>) -> (u8, Seq<char>) {
    if path == scope.pipeline@ {
        (0, Seq::empty())
    } else if path == scope.sidecar@ {
        (1, Seq::empty())
    } else {
        (2, path)
    }
}

/// The extension of the last named component of `name`, if any.
fn extension_chars(name: &[char]) -> (ext: Option<Vec<char>>)
    ensures
        match ext {
            Some(e) => file_name_of(name@) matches Some(file) && extension_of(file) == Some(e@),
            None => !(file_name_of(name@) matches Some(file) && extension_of(file) is Some),
        },
{
    let text = string_between(name, 0, name.len());
    assert(name@.subrange(0, name@.len() as int) =~= name@);
    crate::files::extension_text(text.as_str())
}

impl Scope {
    /// The scope of a project-relative pipeline path.
    pub fn for_pipeline(relative: &str) -> (scope: Scope)
        ensures
            scope.pipeline@ == relative@,
            scope.sidecar@ == relative@ + ".layout.json"@,
            scope.scripts_dir@ == scripts_dir_of(relative@),
    {
        let chars = chars_of(relative);
        proof {
            crate::text::lemma_last_index(chars@, '/');
        }
        let scripts_dir = match rfind_char(chars.as_slice(), '/') {
            Some(i) => {
                let mut dir = string_between(chars.as_slice(), 0, i);
                dir.append("/scripts");
                dir
            },
            None => "scripts".to_owned(),
        };
        let mut sidecar = relative.to_owned();
        sidecar.append(".layout.json");
        Scope { pipeline: relative.to_owned(), sidecar, scripts_dir }
    }

    /// Is `path` one of the scope's files? Scripts are `<scripts_dir>/
    /// <name>.py` directly in the directory.
    pub fn contains(&self, path: &str) -> (inside: bool)
        ensures
            inside == in_scope(*self, path@),
    {
        if same_text(path, self.pipeline.as_str()) || same_text(path, self.sidecar.as_str()) {
            return true;
        }
        let chars = chars_of(path);
        match rfind_char(chars.as_slice(), '/') {
            Some(i) => {
                proof {
                    crate::text::lemma_last_index(chars@, '/');
                }
                let dir = string_between(chars.as_slice(), 0, i);
                if !same_text(dir.as_str(), self.scripts_dir.as_str()) {
                    return false;
                }
                let name = string_between(chars.as_slice(), i + 1, chars.len());
                let name_chars = chars_of(name.as_str());
                let py: [char; 2] = ['p', 'y'];
                proof {
                    reveal_strlit("py");
                }
                assert(py@ =~= "py"@);
                match extension_chars(name_chars.as_slice()) {
                    Some(ext) => same_chars(ext.as_slice(), &py),
                    None => false,
                }
            },
            None => false,
        }
    }

    /// Pathspecs for a status call with the project dir as cwd.
    pub fn pathspecs(&self) -> (specs: [String; 3])
        ensures
            specs[0]@ == self.pipeline@,
            specs[1]@ == self.sidecar@,
            specs[2]@ == self.scripts_dir@ + "/"@,
    {
        let mut scripts = self.scripts_dir.clone();
        scripts.append("/");
        [self.pipeline.clone(), self.sidecar.clone(), scripts]
    }

    /// Deterministic order for the response: pipeline, sidecar, scripts by
    /// name.
    pub fn rank(&self, path: &str) -> (rank: (u8, String))
        ensures
            (rank.0, rank.1@) == rank_of(*self, path@),
    {
        if same_text(path, self.pipeline.as_str()) {
            (0, String::new())
        } else if same_text(path, self.sidecar.as_str()) {
            (1, String::new())
        } else {
            (2, path.to_owned())
        }
    }
}

// ------------------------------------------------------------- layout --

/// Where the repository is, relative to the project dir.
#[derive(Debug)]
pub struct Layout {
    /// `--show-toplevel`.
    pub root: String,
    /// `--show-prefix` without its trailing slash (`""` at the root).
    pub prefix: String,
    /// `--absolute-git-dir`.
    pub git_dir: PathBuf,
}

/// Root-relative path of a project-relative one.
pub open spec fn root_path(prefix: Seq<char>, project_relative: Seq<char>) -> Seq<char> {
    if prefix.len() == 0 {
        project_relative
    } else {
        prefix + "/"@ + project_relative
    }
}

/// Project-relative path of a root-relative one (`None` = outside the
/// project).
pub open spec fn project_path(prefix: Seq<char>, root_relative: Seq<char>) -> Option<Seq<char>> {
    if prefix.len() == 0 {
        Some(root_relative)
    } else if starts_with(root_relative, prefix + "/"@) {
        Some(root_relative.subrange(prefix.len() + 1int, root_relative.len() as int))
    } else {
        None
    }
}

impl Layout {
    /// Root-relative path of a project-relative one.
    pub fn to_root(&self, project_relative: &str) -> (path: String)
        ensures
            path@ == root_path(self.prefix@, project_relative@),
    {
        if self.prefix.as_str().is_empty() {
            project_relative.to_owned()
        } else {
            let mut path = self.prefix.clone();
            path.append("/");
            path.append(project_relative);
            path
        }
    }

    /// Project-relative path of a root-relative one (`None` = outside the
    /// project).
    pub fn to_project(&self, root_relative: &str) -> (path: Option<String>)
        ensures
            match path {
                Some(p) => project_path(self.prefix@, root_relative@) == Some(p@),
                None => project_path(self.prefix@, root_relative@) is None,
            },
    {
        if self.prefix.as_str().is_empty() {
            return Some(root_relative.to_owned());
        }
        let mut head = self.prefix.clone();
        head.append("/");
        proof {
            reveal_strlit("/");
        }
        let head_chars = chars_of(head.as_str());
        let chars = chars_of(root_relative);
        if chars_start_with(chars.as_slice(), head_chars.as_slice()) {
            Some(string_between(chars.as_slice(), head_chars.len(), chars.len()))
        } else {
            None
        }
    }
}

/// Mapping a project path to the root and back gives it back.
pub proof fn lemma_to_project_undoes_to_root(prefix: Seq<char>, path: Seq<char>)
    ensures
        project_path(prefix, root_path(prefix, path)) == Some(path),
{
    reveal_strlit("/");
    if prefix.len() > 0 {
        let full = prefix + "/"@ + path;
        assert(full.subrange(0, (prefix + "/"@).len() as int) =~= prefix + "/"@);
        assert(full.subrange(prefix.len() + 1int, full.len() as int) =~= path);
    }
}

} // verus!
