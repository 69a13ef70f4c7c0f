//! What git's answers mean: the command line a failure names and its
//! trimmed stderr, the layout `rev-parse` prints, the operation a
//! repository is in the middle of, the commit `log` and `diff-tree`
//! report, and the project summary.
use vstd::prelude::*;
use crate::git::{git_error_has_os_text, git_error_text, project_path, reads_as, GitError, GitRefusal, Layout};
use crate::hunks::{lines_of, text_lines};
use crate::protocol::{git_state_tag, CommitResponse, GitState, Operation, ProjectGit};
use crate::status::{nul_records, nonempty_pieces, opt_view, split_nul, status_records, texts};
use crate::survey::Survey;
use crate::text::{
    chars_of, chars_start_with, contains_text, debug_quoted, debug_text, decimal, has_infix, join,
    joined, lossy_text, push_decimal, starts_with, string_between, string_of, trim_text, trimmed,
    utf8_lossy,
};
use std::path::PathBuf;

verus! {

/// `git <args>`, as a failure names the command.
pub open spec fn command_line(args: Seq<Seq<char>>) -> Seq<char> {
    "git "@ + joined(args, " "@)
}

/// The command line of a git invocation.
pub fn command_text(args: &Vec<String>) -> (text: String)
    ensures
        text@ == command_line(texts(args@)),
{
    let mut text = "git ".to_owned();
    let rest = join(args, " ");
    text.append(rest.as_str());
    text
}

/// A process's stderr as text, trimmed.
pub fn stderr_text(stderr: &[u8]) -> (text: String)
    ensures
        text@ == trimmed(utf8_lossy(stderr@)),
{
    let raw = lossy_text(stderr);
    trim_text(raw.as_str())
}

/// A non-zero exit the caller did not expect: the command, its exit code
/// and its stderr.
pub fn exit_failure(args: &Vec<String>, code: Option<i32>, stderr: &[u8]) -> (error: GitError)
    ensures
        error matches GitError::Failed { command, code: c, stderr: s } && command@ == command_line(
            texts(args@),
        ) && c == code && s@ == trimmed(utf8_lossy(stderr@)),
{
    GitError::Failed { command: command_text(args), code, stderr: stderr_text(stderr) }
}

/// Git's words for a directory outside any work tree (in the C locale
/// every command runs in).
pub fn says_not_a_repository(stderr: &str) -> (outside: bool)
    ensures
        outside == has_infix(stderr@, "not a git repository"@),
{
    contains_text(stderr, "not a git repository")
}

/// `s` without the `/`s it ends with (`str::trim_end_matches('/')`).
pub open spec fn without_trailing_slashes(s: Seq<char>) -> Seq<char>
    decreases s.len(),
{
    if s.len() > 0 && s.last() == '/' {
        without_trailing_slashes(s.drop_last())
    } else {
        s
    }
}

/// `chars` without the `/`s they end with.
fn strip_trailing_slashes(chars: &[char]) -> (out: String)
    ensures
        out@ == without_trailing_slashes(chars@),
{
    let mut end: usize = chars.len();
    assert(chars@.take(end as int) =~= chars@);
    while end > 0 && chars[end - 1] == '/'
        invariant
            0 <= end <= chars@.len(),
            without_trailing_slashes(chars@) == without_trailing_slashes(chars@.take(end as int)),
        decreases end,
    {
        assert(chars@.take(end as int).drop_last() =~= chars@.take(end - 1));
        end -= 1;
    }
    assert(chars@.take(end as int) =~= chars@.subrange(0, end as int));
    string_between(chars, 0, end)
}

/// The path `PathBuf::from` makes of a text (a function of the text
/// alone: the path holds exactly its characters).
pub uninterp spec fn path_of(text: Seq<char>) -> PathBuf;

/// A file-system path from its text (`PathBuf::from`); the path is
/// [`path_of`] the text.
#[verifier::external_body]
fn path_from(text: &str) -> (path: PathBuf)
    ensures
        path == path_of(text@),
{
    PathBuf::from(text)
}

/// The command that finds the repository.
pub open spec fn rev_parse_line() -> Seq<char> {
    "git rev-parse --show-toplevel --show-prefix --absolute-git-dir"@
}

/// Where the repository is, from what `git rev-parse --show-toplevel
/// --show-prefix --absolute-git-dir` printed: exactly three lines, the
/// root, the prefix (its trailing `/` dropped) and the git directory (the
/// path the third line names).
pub fn layout_from_rev_parse(stdout: &[u8]) -> (layout: Result<Layout, GitError>)
    ensures
        match layout {
            Ok(l) => lines_of(utf8_lossy(stdout@)).len() == 3 && l.root@ == lines_of(
                utf8_lossy(stdout@),
            )[0] && l.prefix@ == without_trailing_slashes(lines_of(utf8_lossy(stdout@))[1])
                && l.git_dir == path_of(lines_of(utf8_lossy(stdout@))[2]),
            Err(e) => e matches GitError::Unparsable { command, message } && lines_of(
                utf8_lossy(stdout@),
            ).len() != 3 && command@ == rev_parse_line() && message@ == "expected 3 lines, got "@
                + decimal(lines_of(utf8_lossy(stdout@)).len()) + ": "@ + debug_text(utf8_lossy(stdout@)),
        },
{
    let text = lossy_text(stdout);
    let chars = chars_of(text.as_str());
    let lines = text_lines(chars.as_slice());
    let ghost views = lines@.map_values(|l: Vec<char>| l@);
    if lines.len() != 3 {
        let mut message = "expected 3 lines, got ".to_owned();
        push_decimal(&mut message, lines.len() as u64);
        message.append(": ");
        message.append(debug_quoted(text.as_str()).as_str());
        let command = "git rev-parse --show-toplevel --show-prefix --absolute-git-dir".to_owned();
        return Err(GitError::Unparsable { command, message });
    }
    assert(views[0] == lines@[0]@);
    assert(views[1] == lines@[1]@);
    assert(views[2] == lines@[2]@);
    let root = string_of(lines[0].as_slice());
    let prefix = strip_trailing_slashes(lines[1].as_slice());
    let dir = string_of(lines[2].as_slice());
    Ok(Layout { root, prefix, git_dir: path_from(dir.as_str()) })
}

/// The operation a repository is in the middle of, by the files git
/// leaves in its directory while one is unfinished: `MERGE_HEAD`, then
/// `rebase-merge` or `rebase-apply`, then `CHERRY_PICK_HEAD`, then
/// `REVERT_HEAD`.
pub fn operation_in_progress(
    merge_head: bool,
    rebase_merge: bool,
    rebase_apply: bool,
    cherry_pick_head: bool,
    revert_head: bool,
) -> (operation: Option<Operation>)
    ensures
        operation == if merge_head {
            Some(Operation::Merge)
        } else if rebase_merge || rebase_apply {
            Some(Operation::Rebase)
        } else if cherry_pick_head {
            Some(Operation::CherryPick)
        } else if revert_head {
            Some(Operation::Revert)
        } else {
            None
        },
{
    if merge_head {
        Some(Operation::Merge)
    } else if rebase_merge || rebase_apply {
        Some(Operation::Rebase)
    } else if cherry_pick_head {
        Some(Operation::CherryPick)
    } else if revert_head {
        Some(Operation::Revert)
    } else {
        None
    }
}

/// The path a Windows `\\?\` verbatim path stands for, when it has that
/// prefix and is not a `UNC\` one (as a process cwd it confuses git's own
/// path printing, and git never needs it); `None` keeps the path as it
/// is.
pub fn plain_path(path: &str) -> (plain: Option<String>)
    ensures
        match plain {
            Some(rest) => starts_with(path@, "\\\\?\\"@) && rest@ == path@.skip("\\\\?\\"@.len() as int)
                && !starts_with(rest@, "UNC\\"@),
            None => !(starts_with(path@, "\\\\?\\"@) && !starts_with(
                path@.skip("\\\\?\\"@.len() as int),
                "UNC\\"@,
            )),
        },
{
    let chars = chars_of(path);
    let verbatim = chars_of("\\\\?\\");
    if !chars_start_with(chars.as_slice(), verbatim.as_slice()) {
        return None;
    }
    let rest = string_between(chars.as_slice(), verbatim.len(), chars.len());
    assert(rest@ =~= path@.skip("\\\\?\\"@.len() as int));
    let rest_chars = chars_of(rest.as_str());
    let unc = chars_of("UNC\\");
    if chars_start_with(rest_chars.as_slice(), unc.as_slice()) {
        None
    } else {
        Some(rest)
    }
}

// ------------------------------------------------------------- commit --

/// The command that reads back the new commit.
pub open spec fn log_line() -> Seq<char> {
    "git log -1 --format=%H%n%h%n%s HEAD"@
}

/// The committed files, project-relative where they are inside the
/// project (else as git printed them).
pub open spec fn committed_paths(prefix: Seq<char>, records: Seq<Seq<char>>) -> Seq<Seq<char>> {
    records.map_values(
        |r: Seq<char>|
            match project_path(prefix, r) {
                Some(p) => p,
                None => r,
            },
    )
}

/// The new commit as `git log -1 --format=%H%n%h%n%s HEAD` printed it
/// (its hash, short hash and subject, one per line; the subject may be
/// missing) with the files `git diff-tree --root --no-commit-id
/// --name-only -r -z HEAD` listed.
pub fn commit_outcome(log: &[u8], listed: &[u8], layout: &Layout) -> (outcome: Result<
    CommitResponse,
    GitRefusal,
>)
    ensures
        match outcome {
            Ok(c) => lines_of(utf8_lossy(log@)).len() >= 2 && c.hash@ == lines_of(utf8_lossy(log@))[0]
                && c.short@ == lines_of(utf8_lossy(log@))[1] && c.summary@ == (if lines_of(
                utf8_lossy(log@),
            ).len() >= 3 {
                lines_of(utf8_lossy(log@))[2]
            } else {
                Seq::empty()
            }) && texts(c.files@) == committed_paths(layout.prefix@, status_records(listed@)),
            Err(e) => e matches GitRefusal::Git(GitError::Unparsable { command, message }) && lines_of(
                utf8_lossy(log@),
            ).len() < 2 && command@ == log_line() && message@ == "expected hash, short, subject; got "@
                + debug_text(utf8_lossy(log@)),
        },
{
    let text = lossy_text(log);
    let chars = chars_of(text.as_str());
    let lines = text_lines(chars.as_slice());
    let ghost views = lines@.map_values(|l: Vec<char>| l@);
    if lines.len() < 2 {
        let mut message = "expected hash, short, subject; got ".to_owned();
        message.append(debug_quoted(text.as_str()).as_str());
        let command = "git log -1 --format=%H%n%h%n%s HEAD".to_owned();
        return Err(GitRefusal::Git(GitError::Unparsable { command, message }));
    }
    assert(views[0] == lines@[0]@);
    assert(views[1] == lines@[1]@);
    let hash = string_of(lines[0].as_slice());
    let short = string_of(lines[1].as_slice());
    let summary = if lines.len() >= 3 {
        assert(views[2] == lines@[2]@);
        string_of(lines[2].as_slice())
    } else {
        String::new()
    };
    let raw = nul_records(listed);
    let ghost pieces = nonempty_pieces(split_nul(listed@));
    let ghost records = status_records(listed@);
    let mut files: Vec<String> = Vec::new();
    let mut k: usize = 0;
    while k < raw.len()
        invariant
            0 <= k <= raw@.len(),
            raw@.map_values(|r: Vec<u8>| r@) == pieces,
            records == pieces.map_values(|r: Seq<u8>| utf8_lossy(r)),
            texts(files@) == committed_paths(layout.prefix@, records.take(k as int)),
        decreases raw@.len() - k,
    {
        assert(pieces.len() == raw@.len());
        assert(pieces[k as int] == raw@[k as int]@);
        assert(records[k as int] == utf8_lossy(raw@[k as int]@));
        let root_relative = lossy_text(raw[k].as_slice());
        let path = match layout.to_project(root_relative.as_str()) {
            Some(p) => p,
            None => root_relative,
        };
        assert(path@ == match project_path(layout.prefix@, records[k as int]) {
            Some(p) => p,
            None => records[k as int],
        });
        let ghost prev = files@;
        files.push(path);
        assert(files@ =~= prev.push(path));
        assert(texts(files@) =~= texts(prev).push(path@));
        assert(records.take(k + 1) =~= records.take(k as int).push(records[k as int]));
        assert(texts(files@) =~= committed_paths(layout.prefix@, records.take(k + 1)));
        k += 1;
    }
    assert(records.take(raw@.len() as int) =~= records);
    Ok(CommitResponse { hash, short, summary, files })
}

// ------------------------------------------------------------ summary --

/// The branch a state names.
pub open spec fn state_branch(state: GitState) -> Option<Seq<char>> {
    match state {
        GitState::Repo(info) => opt_view(info.branch),
        GitState::Locked(info) => opt_view(info.branch),
        _ => None,
    }
}

/// The `GET /api/project` git summary: the state's tag, the branch, and
/// how many entries `git status` lists under the project; a git failure
/// is reported as kind `error` with its message.
pub fn project_summary(survey: &Result<Survey, GitError>) -> (summary: ProjectGit)
    ensures
        match survey {
            Ok(s) => summary.kind@ == git_state_tag(s.state) && opt_view(summary.branch) == state_branch(s.state)
                && summary.dirty_count == s.entries@.len() && summary.error is None,
            Err(e) => summary.error matches Some(m) && reads_as(m@, git_error_text(*e), git_error_has_os_text(*e))
                && summary.kind@ == "error"@ && summary.branch is None && summary.dirty_count == 0,
        },
{
    match survey {
        Ok(s) => {
            let branch = match s.state.repo() {
                Some(info) => match &info.branch {
                    Some(b) => Some(b.clone()),
                    None => None,
                },
                None => None,
            };
            ProjectGit {
                kind: s.state.tag().to_owned(),
                branch,
                dirty_count: s.entries.len(),
                error: None,
            }
        },
        Err(error) => ProjectGit {
            kind: "error".to_owned(),
            branch: None,
            dirty_count: 0,
            error: Some(error.message()),
        },
    }
}

} // verus!
