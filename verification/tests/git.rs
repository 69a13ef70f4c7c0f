use cicada_server::git::{refuse, GitError, GitRefusal, Layout, Scope};
use cicada_server::hunks::{
    line_nodes, markers, node_names, parse_hunks, Hunk, LineNode, LineShape, SourceLine,
};
use cicada_server::protocol::{
    ChangeKind, FileStatus, GitErrorKind, GitState, NodeChange, Operation, RemovedNode, RepoInfo,
    Upstream,
};
use cicada_server::runs::{
    command_text, commit_outcome, exit_failure, layout_from_rev_parse, operation_in_progress,
    plain_path, project_summary, says_not_a_repository,
};
use cicada_server::status::{parse_porcelain_v2, parse_status_records, Entry, EntryKind};
use cicada_server::survey::{check_revert_paths, is_blank, text_hash, MarkerStep, Survey};
use std::path::PathBuf;

fn layout(prefix: &str) -> Layout {
    Layout {
        root: "/r".into(),
        prefix: prefix.into(),
        git_dir: PathBuf::from("/r/.git"),
    }
}

#[test]
fn verbatim_prefix_is_stripped_for_the_cwd() {
    assert_eq!(plain_path(r"\\?\C:\proj"), Some(r"C:\proj".to_owned()));
    // A `UNC\` verbatim path and a plain one are kept as they are.
    assert_eq!(plain_path(r"\\?\UNC\server\share"), None);
    assert_eq!(plain_path("/proj"), None);
}

#[test]
fn scope_is_the_apply_text_set() {
    let scope = Scope::for_pipeline("examples/p.cic");
    assert_eq!(scope.sidecar, "examples/p.cic.layout.json");
    assert_eq!(scope.scripts_dir, "examples/scripts");
    assert!(scope.contains("examples/p.cic"));
    assert!(scope.contains("examples/p.cic.layout.json"));
    assert!(scope.contains("examples/scripts/a.py"));
    assert!(!scope.contains("examples/scripts/sub/a.py"));
    assert!(!scope.contains("examples/scripts/.py"));
    assert!(!scope.contains("examples/scripts/notes.txt"));
    assert!(!scope.contains("examples/q.cic"));
    assert!(!scope.contains("scripts/a.py"));
    let root = Scope::for_pipeline("p.cic");
    assert_eq!(root.scripts_dir, "scripts");
    assert!(root.contains("scripts/a.py"));
    assert_eq!(
        root.pathspecs(),
        [
            "p.cic".to_owned(),
            "p.cic.layout.json".to_owned(),
            "scripts/".to_owned()
        ]
    );
}

#[test]
fn porcelain_v2_records_parse() {
    let raw = b"# branch.oid 0123456789abcdef0123456789abcdef01234567\0\
                # branch.head main\0\
                # branch.upstream origin/main\0\
                # branch.ab +2 -1\0\
                1 .M N... 100644 100644 100644 abc def examples/p.cic\0\
                1 A. N... 000000 100644 100644 000 abc examples/scripts/new.py\0\
                1 D. N... 100644 000000 000000 abc 000 examples/scripts/old.py\0\
                1 AD N... 000000 100644 000000 000 abc examples/scripts/probe_ad.py\0\
                2 R. N... 100644 100644 100644 abc abc R100 examples/b.cic\0examples/a.cic\0\
                u UU N... 100644 100644 100644 100644 a b c examples/scripts/merge.py\0\
                ? examples/p.cic.layout.json\0\
                ! examples/scripts/__pycache__/x.pyc\0\
                ! examples/scripts/local_probe.py\0";
    let parsed = parse_porcelain_v2(raw).unwrap();
    assert_eq!(parsed.headers.head.as_deref(), Some("main"));
    assert_eq!(parsed.headers.upstream.as_deref(), Some("origin/main"));
    assert_eq!(parsed.headers.ahead_behind, Some((2, 1)));
    assert!(!parsed.headers.unborn());
    let info = parsed.headers.info(&layout("examples"), Some(Operation::Merge));
    assert_eq!(
        info,
        RepoInfo {
            root: "/r".into(),
            prefix: "examples".into(),
            branch: Some("main".into()),
            head_short: Some("0123456".into()),
            upstream: Some(Upstream {
                name: "origin/main".into(),
                ahead: 2,
                behind: 1
            }),
            unborn: false,
            operation: Some(Operation::Merge),
        }
    );
    // The tag beside the facts, for `repo` and `locked` alike (the branch
    // chip never blanks under a lock).
    let repo = GitState::Repo(info.clone());
    assert_eq!(repo.tag(), "repo");
    assert_eq!(repo.repo().unwrap().branch.as_deref(), Some("main"));
    assert_eq!(repo.repo().unwrap().operation.unwrap().name(), "merge");
    let locked = GitState::Locked(info.clone());
    assert_eq!(locked.tag(), "locked");
    assert_eq!(locked.repo().unwrap().prefix, "examples");
    assert_eq!(locked.repo().unwrap().upstream.as_ref().unwrap().ahead, 2);
    assert_eq!(GitState::NotARepo.tag(), "not_a_repo");
    assert!(GitState::NotARepo.repo().is_none());
    let state = GitState::Repo(RepoInfo {
        operation: None,
        ..info
    });
    let statuses: Vec<(String, FileStatus, bool, bool)> = parsed
        .entries
        .iter()
        .map(|e| (e.path.clone(), e.file_status(), e.known(), e.in_head()))
        .collect();
    assert_eq!(
        statuses,
        vec![
            ("examples/p.cic".into(), FileStatus::Modified, true, true),
            ("examples/scripts/new.py".into(), FileStatus::Added, true, false),
            ("examples/scripts/old.py".into(), FileStatus::Deleted, true, true),
            // Added to the index, then deleted from disk: `deleted` to the
            // eye, yet HEAD never had it.
            ("examples/scripts/probe_ad.py".into(), FileStatus::Deleted, true, false),
            ("examples/b.cic".into(), FileStatus::Renamed, true, false),
            ("examples/scripts/merge.py".into(), FileStatus::Modified, true, true),
            ("examples/p.cic.layout.json".into(), FileStatus::Untracked, false, false),
            ("examples/scripts/__pycache__/x.pyc".into(), FileStatus::Untracked, false, false),
            ("examples/scripts/local_probe.py".into(), FileStatus::Untracked, false, false),
        ]
    );
    // The scope filter: root-relative → project-relative, `.py` only,
    // scope order — and the ignored script left out.
    let survey = Survey {
        state: state.clone(),
        layout: Some(layout("examples")),
        unborn: false,
        entries: parsed.entries.clone(),
    };
    let files = survey.scope_files(&Scope::for_pipeline("p.cic"));
    let published: Vec<(&str, FileStatus, bool)> = files
        .iter()
        .map(|f| (f.path.as_str(), f.status, f.in_head))
        .collect();
    assert_eq!(
        published,
        [
            ("p.cic", FileStatus::Modified, true),
            ("p.cic.layout.json", FileStatus::Untracked, false),
            ("scripts/merge.py", FileStatus::Modified, true),
            ("scripts/new.py", FileStatus::Added, false),
            ("scripts/old.py", FileStatus::Deleted, true),
            ("scripts/probe_ad.py", FileStatus::Deleted, false),
        ],
        "`in_head` is the revert rule per file — not a function of `status`"
    );
    // On an unborn branch nothing has a HEAD version, whatever the entry
    // says.
    let unborn = Survey {
        state: state.clone(),
        layout: Some(layout("examples")),
        unborn: true,
        entries: parsed.entries.clone(),
    };
    assert!(unborn
        .scope_files(&Scope::for_pipeline("p.cic"))
        .iter()
        .all(|f| !f.in_head));
    assert!(survey.pipeline_in_head(&Scope::for_pipeline("p.cic")));
    assert!(
        !survey.pipeline_in_head(&Scope::for_pipeline("b.cic")),
        "the new side of a rename has no HEAD version"
    );
    assert!(
        !survey.pipeline_in_head(&Scope::for_pipeline("scripts/new.py")),
        "index-only"
    );
    // A write under an operation in progress is refused before any command
    // runs.
    let merging = Survey {
        state: GitState::Repo(RepoInfo {
            operation: Some(Operation::CherryPick),
            ..survey.state.repo().unwrap().clone()
        }),
        layout: Some(layout("examples")),
        unborn: false,
        entries: Vec::new(),
    };
    assert!(matches!(
        merging.repo_or_refuse(),
        Err(GitRefusal::OperationInProgress(Operation::CherryPick))
    ));
    let body = merging.repo_or_refuse().unwrap_err().body();
    assert_eq!(body.operation.unwrap().name(), "cherry_pick");
}

#[test]
fn porcelain_v2_unborn_and_detached() {
    let parsed = parse_porcelain_v2(b"# branch.oid (initial)\0# branch.head main\0").unwrap();
    assert!(parsed.headers.unborn());
    let info = parsed.headers.info(&layout(""), None);
    assert_eq!(
        (info.branch.as_deref(), info.head_short, info.unborn),
        (Some("main"), None, true)
    );
    let parsed =
        parse_porcelain_v2(b"# branch.oid abcdef1234567\0# branch.head (detached)\0").unwrap();
    let info = parsed.headers.info(&layout(""), None);
    assert_eq!((info.branch, info.head_short.as_deref()), (None, Some("abcdef1")));
    assert!(parse_porcelain_v2(b"9 what\0").is_err());
    assert!(parse_porcelain_v2(b"2 R. N... 100644 100644 100644 a b R100 new\0").is_err());
}

#[test]
fn hunk_headers_parse() {
    let diff = "diff --git a/p.cic b/p.cic\n\
                index 1..2 100644\n\
                --- a/p.cic\n\
                +++ b/p.cic\n\
                @@ -2 +2 @@ size = slider(value=2.0)\n\
                -size = slider(value=2.0)\n\
                +size = slider(value=3.0)\n\
                @@ -4,0 +5,2 @@\n\
                +a = 1\n\
                +b = 2\n\
                @@ -7,3 +9,0 @@\n\
                -x = 1\n\
                -y = 2\n\
                -z = 3\n\
                \\ No newline at end of file\n";
    assert_eq!(
        parse_hunks(diff),
        vec![
            Hunk {
                old_start: 2,
                old_count: 1,
                new_start: 2,
                new_count: 1
            },
            Hunk {
                old_start: 4,
                old_count: 0,
                new_start: 5,
                new_count: 2
            },
            Hunk {
                old_start: 7,
                old_count: 3,
                new_start: 9,
                new_count: 0
            },
        ]
    );
    assert!(parse_hunks("").is_empty());
}

const HEAD: &str = "# cicada 1\n\
                    size = slider(value=2.0, min=0.5, max=5.0)\n\
                    span = construct_domain(start=0.0, end=size)\n\
                    block = box(x=span, y=span, z=span)\n\
                    #off ghost = sphere(radius=size)\n\
                    extra = 4.0\n";

/// The lines of the small pipelines these tests use, as the parser shapes
/// them: a binding (or an `#off` line) is a statement named by its
/// target; pragmas, comments and blank lines are no node.
fn source_lines(text: &str) -> Vec<SourceLine> {
    text.lines()
        .map(|raw| {
            let trimmed = raw.trim();
            let shape = if trimmed.is_empty()
                || (trimmed.starts_with('#') && !trimmed.starts_with("#off "))
            {
                LineShape::Other
            } else {
                let body = trimmed.strip_prefix("#off ").unwrap_or(trimmed);
                LineShape::Statement(
                    body.chars()
                        .take_while(|c| c.is_alphanumeric() || *c == '_')
                        .collect(),
                )
            };
            SourceLine {
                shape,
                raw: raw.to_owned(),
            }
        })
        .collect()
}

/// The node lines of a small pipeline.
fn node_lines(text: &str) -> Vec<LineNode> {
    line_nodes(&source_lines(text))
}

fn single_hunk(old: &str, new: &str) -> Vec<Hunk> {
    let a: Vec<&str> = old.lines().collect();
    let b: Vec<&str> = new.lines().collect();
    let prefix = a.iter().zip(&b).take_while(|(x, y)| x == y).count();
    let suffix = a[prefix..]
        .iter()
        .rev()
        .zip(b[prefix..].iter().rev())
        .take_while(|(x, y)| x == y)
        .count();
    let old_count = a.len() - prefix - suffix;
    let new_count = b.len() - prefix - suffix;
    if old_count == 0 && new_count == 0 {
        return Vec::new();
    }
    vec![Hunk {
        old_start: if old_count == 0 { prefix } else { prefix + 1 },
        old_count,
        new_start: if new_count == 0 { prefix } else { prefix + 1 },
        new_count,
    }]
}

fn diff_markers(work: &str) -> (Vec<NodeChange>, Vec<RemovedNode>) {
    let hunks = single_hunk(HEAD, work);
    markers(&node_lines(HEAD), &node_lines(work), &hunks)
}

#[test]
fn modified_param_marks_that_node_only() {
    let work = HEAD.replace("value=2.0", "value=3.0");
    let (nodes, removed) = diff_markers(&work);
    assert_eq!(
        nodes,
        vec![NodeChange {
            name: "size".into(),
            change: ChangeKind::Modified,
            from: None
        }]
    );
    assert!(removed.is_empty());
}

#[test]
fn added_binding_is_added_and_deleted_is_removed_with_its_head_line() {
    let work = format!("{HEAD}ball = sphere(radius=size)\n");
    let (nodes, removed) = diff_markers(&work);
    assert_eq!(
        nodes,
        vec![NodeChange {
            name: "ball".into(),
            change: ChangeKind::Added,
            from: None
        }]
    );
    assert!(removed.is_empty());
    let work = HEAD.replace("block = box(x=span, y=span, z=span)\n", "");
    let (nodes, removed) = diff_markers(&work);
    assert!(nodes.is_empty());
    assert_eq!(
        removed,
        vec![RemovedNode {
            name: "block".into(),
            line_in_head: 4
        }]
    );
}

#[test]
fn same_rhs_under_a_new_name_is_a_rename_and_differing_rhs_is_not() {
    let work = HEAD.replace("block = box(", "cube = box(");
    let (nodes, removed) = diff_markers(&work);
    assert_eq!(
        nodes,
        vec![NodeChange {
            name: "cube".into(),
            change: ChangeKind::Renamed,
            from: Some("block".into())
        }]
    );
    assert!(removed.is_empty(), "the pair consumed the removal");
    let work = HEAD.replace(
        "block = box(x=span, y=span, z=span)",
        "cube = box(x=span, y=span, z=size)",
    );
    let (nodes, removed) = diff_markers(&work);
    assert_eq!(nodes[0].change, ChangeKind::Added);
    assert_eq!(removed[0].name, "block");
}

#[test]
fn a_rename_pairs_within_one_hunk_only() {
    let work = HEAD.replace("span = construct_domain(start=0.0, end=size)\n", "")
        + "later = construct_domain(start=0.0, end=size)\n";
    let hunks = vec![
        Hunk {
            old_start: 3,
            old_count: 1,
            new_start: 2,
            new_count: 0,
        },
        Hunk {
            old_start: 6,
            old_count: 0,
            new_start: 6,
            new_count: 1,
        },
    ];
    let (nodes, removed) = markers(&node_lines(HEAD), &node_lines(&work), &hunks);
    assert_eq!(
        nodes,
        vec![NodeChange {
            name: "later".into(),
            change: ChangeKind::Added,
            from: None
        }]
    );
    assert_eq!(
        removed,
        vec![RemovedNode {
            name: "span".into(),
            line_in_head: 3
        }]
    );
    let work = HEAD.replace(
        "span = construct_domain(start=0.0, end=size)\n",
        "later = construct_domain(start=0.0, end=size)\n",
    );
    let (nodes, removed) = diff_markers(&work);
    assert_eq!(nodes[0].change, ChangeKind::Renamed);
    assert_eq!(nodes[0].from.as_deref(), Some("span"));
    assert!(removed.is_empty());
}

#[test]
fn off_toggle_and_broken_lines_name_their_nodes() {
    let work = HEAD.replace("span = construct", "#off span = construct");
    let (nodes, _) = diff_markers(&work);
    assert_eq!(
        nodes[0],
        NodeChange {
            name: "span".into(),
            change: ChangeKind::Modified,
            from: None
        }
    );
    let work = HEAD.replace("#off ghost = sphere", "ghost = sphere");
    let (nodes, _) = diff_markers(&work);
    assert_eq!(nodes[0].name, "ghost");
    assert_eq!(nodes[0].change, ChangeKind::Modified);
    let work = format!("{HEAD}oops = (\n");
    let (nodes, _) = diff_markers(&work);
    assert_eq!(nodes[0].name, "oops");
    assert_eq!(nodes[0].change, ChangeKind::Added);
}

#[test]
fn unchanged_lines_never_mark_even_when_neighbours_move() {
    let work = HEAD.replacen("# cicada 1\n", "# cicada 1\nfirst = 1.0\n", 1);
    let (nodes, removed) = diff_markers(&work);
    assert_eq!(nodes.len(), 1);
    assert_eq!(nodes[0].name, "first");
    assert!(removed.is_empty());
    let (nodes, removed) = diff_markers(HEAD);
    assert!(nodes.is_empty() && removed.is_empty());
}

#[test]
fn refusal_bodies_carry_kind_and_facts() {
    let body = GitRefusal::Git(GitError::Failed {
        command: "git commit".into(),
        code: Some(128),
        stderr: "fatal: boom".into(),
    })
    .body();
    assert_eq!(body.kind, GitErrorKind::GitFailed);
    assert_eq!(body.command.as_deref(), Some("git commit"));
    assert_eq!(body.code, Some(Some(128)));
    assert_eq!(body.stderr.as_deref(), Some("fatal: boom"));
    assert_eq!(
        GitRefusal::Untracked("p.cic".into()).body().path.as_deref(),
        Some("p.cic")
    );
    assert_eq!(GitRefusal::Locked.body().kind, GitErrorKind::Locked);
    let ignored = GitRefusal::Ignored("p.cic".into()).body();
    assert_eq!(
        (ignored.kind, ignored.path.as_deref()),
        (GitErrorKind::Ignored, Some("p.cic"))
    );
    assert_eq!(GitRefusal::NoWriter("p.cic".into()).body().kind, GitErrorKind::Lease);
    assert_eq!(
        GitRefusal::NoSuchPipeline("q.cic".into()).body().kind,
        GitErrorKind::NoSuchPipeline
    );
    assert_eq!(GitRefusal::Internal("join".into()).body().kind, GitErrorKind::Internal);
    assert_eq!(
        refuse(GitError::Failed {
            command: "git add".into(),
            code: Some(128),
            stderr: "fatal: Unable to create '/r/.git/index.lock': File exists.".into(),
        })
        .kind(),
        GitErrorKind::Locked
    );
    assert_eq!(
        refuse(GitError::NotFound {
            program: "git".into()
        })
        .kind(),
        GitErrorKind::GitNotFound
    );
    assert_eq!(
        GitRefusal::Git(GitError::Timeout {
            command: "git commit".into(),
            timeout_ms: 30_000
        })
        .kind(),
        GitErrorKind::GitTimeout
    );
}

// ----------------------------------------------------------------------

fn dirty_survey(entries: Vec<Entry>) -> Survey {
    let parsed = parse_porcelain_v2(b"# branch.oid 0123456789abcdef\0# branch.head main\0").unwrap();
    Survey::of_status(layout(""), cicada_server::status::Parsed { entries, ..parsed }, false, None)
}

fn entry(path: &str, kind: EntryKind, x: char, y: char) -> Entry {
    Entry {
        path: path.into(),
        kind,
        x,
        y,
    }
}

#[test]
fn every_record_error_names_what_it_could_not_read() {
    assert_eq!(
        parse_porcelain_v2(b"nospace\0").unwrap_err(),
        "record without a tag: \"nospace\""
    );
    assert_eq!(
        parse_porcelain_v2(b"# branch.ab +x -1\0").unwrap_err(),
        "unreadable branch.ab: \"+x -1\""
    );
    assert_eq!(
        parse_porcelain_v2(b"1 .M N... a b\0").unwrap_err(),
        "short `1` record: \"1 .M N... a b\""
    );
    assert_eq!(
        parse_porcelain_v2(b"1 .MX N... 1 2 3 4 5 p\0").unwrap_err(),
        "bad XY field \".MX\" in \"1 .MX N... 1 2 3 4 5 p\""
    );
    assert_eq!(
        parse_porcelain_v2(b"9 what\0").unwrap_err(),
        "unknown record tag \"9\": \"9 what\""
    );
    assert_eq!(
        parse_porcelain_v2(b"2 R. N... 100644 100644 100644 a b R100 new\0").unwrap_err(),
        "rename record without its original path: \"2 R. N... 100644 100644 100644 a b R100 new\""
    );
    // A path with spaces keeps them; unknown headers change nothing.
    let parsed = parse_status_records(&vec![
        "# branch.future x".to_owned(),
        "? my notes.txt".to_owned(),
    ])
    .unwrap();
    assert_eq!(parsed.headers.oid, None);
    assert_eq!(parsed.entries[0].path, "my notes.txt");
}

#[test]
fn a_whole_scope_revert_restores_what_has_a_head_version_and_reports_the_rest() {
    let survey = dirty_survey(vec![
        entry("scripts/b.py", EntryKind::Changed, '.', 'M'),
        entry("p.cic", EntryKind::Changed, '.', 'M'),
        entry("scripts/a.py", EntryKind::Untracked, '?', '?'),
        entry("other.cic", EntryKind::Changed, '.', 'M'),
    ]);
    let scope = Scope::for_pipeline("p.cic");
    let plan = survey.revert_plan(&scope, None).unwrap();
    assert_eq!(plan.reverted, vec!["p.cic".to_owned(), "scripts/b.py".to_owned()]);
    assert_eq!(plan.untracked, vec!["scripts/a.py".to_owned()]);
    assert!(plan.touched_scripts);
    let response = plan.into_response(true);
    assert_eq!(response.reverted.len(), 2);
    assert!(response.reloaded);
    // Asking for the untracked script by name is refused: reverting it
    // would delete it.
    let asked = vec!["scripts/a.py".to_owned()];
    assert!(matches!(
        survey.revert_plan(&scope, Some(&asked)),
        Err(GitRefusal::Untracked(p)) if p == "scripts/a.py"
    ));
    // Asking for the pipeline alone restores it and touches no script.
    let asked = vec!["p.cic".to_owned()];
    let plan = survey.revert_plan(&scope, Some(&asked)).unwrap();
    assert_eq!(plan.reverted, vec!["p.cic".to_owned()]);
    assert!(!plan.touched_scripts);
    // A path outside the scope is refused before git is asked anything.
    let outside = vec!["other.cic".to_owned()];
    match check_revert_paths(&scope, Some(&outside)) {
        Err(GitRefusal::PathNotAllowed { path, why }) => {
            assert_eq!(path, "other.cic");
            assert_eq!(
                why,
                "a revert may restore this pipeline (`p.cic`), its sidecar (`p.cic.layout.json`), or a script beside it (`scripts/<name>.py`) — nothing else"
            );
        }
        other => panic!("expected path_not_allowed, got {other:?}"),
    }
    assert!(check_revert_paths(&scope, None).is_ok());
    // A clean pipeline with nothing else dirty: nothing to revert.
    let clean = dirty_survey(vec![entry("scripts/a.py", EntryKind::Untracked, '?', '?')]);
    assert!(matches!(
        clean.revert_plan(&scope, None),
        Err(GitRefusal::NothingToRevert)
    ));
    // An untracked pipeline is refused whatever else is dirty.
    let new = dirty_survey(vec![entry("p.cic", EntryKind::Untracked, '?', '?')]);
    assert!(matches!(
        new.revert_plan(&scope, None),
        Err(GitRefusal::Untracked(p)) if p == "p.cic"
    ));
}

#[test]
fn a_commit_takes_the_dirty_scope_and_refuses_an_ignored_pipeline() {
    let scope = Scope::for_pipeline("p.cic");
    let survey = dirty_survey(vec![
        entry("p.cic", EntryKind::Changed, '.', 'M'),
        entry("scripts/a.py", EntryKind::Untracked, '?', '?'),
        entry("scripts/x.pyc", EntryKind::Untracked, '?', '?'),
    ]);
    let files = survey.commit_files(&scope).unwrap();
    let paths: Vec<&str> = files.iter().map(|f| f.path.as_str()).collect();
    assert_eq!(paths, ["p.cic", "scripts/a.py"]);
    let ignored = dirty_survey(vec![entry("p.cic", EntryKind::Ignored, '!', '!')]);
    assert!(matches!(
        ignored.commit_files(&scope),
        Err(GitRefusal::Ignored(p)) if p == "p.cic"
    ));
    let clean = dirty_survey(Vec::new());
    assert!(matches!(
        clean.commit_files(&scope),
        Err(GitRefusal::NothingToCommit)
    ));
    let outside = Survey::bare(GitState::NotARepo);
    assert!(matches!(outside.commit_files(&scope), Err(GitRefusal::NotARepo)));
    assert!(is_blank(" \t\n\u{3000}"));
    assert!(!is_blank("  fix: x "));
}

#[test]
fn the_commit_reads_back_its_log_and_files() {
    let done = commit_outcome(
        b"0123456789abcdef\n0123456\nfix the box\n",
        b"examples/p.cic\0examples/scripts/a.py\0elsewhere.txt\0",
        &layout("examples"),
    )
    .unwrap();
    assert_eq!(done.hash, "0123456789abcdef");
    assert_eq!(done.short, "0123456");
    assert_eq!(done.summary, "fix the box");
    assert_eq!(done.files, ["p.cic", "scripts/a.py", "elsewhere.txt"]);
    let no_subject = commit_outcome(b"abc\nab\n", b"", &layout("")).unwrap();
    assert_eq!(no_subject.summary, "");
    match commit_outcome(b"abc\n", b"", &layout("")) {
        Err(GitRefusal::Git(GitError::Unparsable { command, message })) => {
            assert_eq!(command, "git log -1 --format=%H%n%h%n%s HEAD");
            assert_eq!(message, "expected hash, short, subject; got \"abc\\n\"");
        }
        other => panic!("expected unparsable, got {other:?}"),
    }
}

#[test]
fn rev_parse_output_is_the_layout() {
    let found = layout_from_rev_parse(b"/r\nexamples/\n/r/.git\n").unwrap();
    assert_eq!(found.root, "/r");
    assert_eq!(found.prefix, "examples");
    assert_eq!(found.git_dir, PathBuf::from("/r/.git"));
    let top = layout_from_rev_parse(b"/r\n\n/r/.git\n").unwrap();
    assert_eq!(top.prefix, "");
    match layout_from_rev_parse(b"/r\n") {
        Err(GitError::Unparsable { command, message }) => {
            assert_eq!(command, "git rev-parse --show-toplevel --show-prefix --absolute-git-dir");
            assert_eq!(message, "expected 3 lines, got 1: \"/r\\n\"");
        }
        other => panic!("expected unparsable, got {other:?}"),
    }
}

#[test]
fn failures_name_the_command_and_trim_stderr() {
    let args = vec!["status".to_owned(), "--porcelain=v2".to_owned()];
    assert_eq!(command_text(&args), "git status --porcelain=v2");
    match exit_failure(&args, Some(128), b"  fatal: not a git repository (or any parent)\n") {
        GitError::Failed {
            command,
            code,
            stderr,
        } => {
            assert_eq!(command, "git status --porcelain=v2");
            assert_eq!(code, Some(128));
            assert_eq!(stderr, "fatal: not a git repository (or any parent)");
            assert!(says_not_a_repository(&stderr));
        }
        other => panic!("expected failed, got {other:?}"),
    }
    assert!(!says_not_a_repository("fatal: bad revision"));
}

#[test]
fn operations_in_progress_follow_the_documented_precedence() {
    assert_eq!(operation_in_progress(false, false, false, false, false), None);
    assert_eq!(operation_in_progress(false, false, false, false, true), Some(Operation::Revert));
    assert_eq!(operation_in_progress(false, false, false, true, true), Some(Operation::CherryPick));
    assert_eq!(operation_in_progress(false, false, true, true, true), Some(Operation::Rebase));
    assert_eq!(operation_in_progress(false, true, false, false, false), Some(Operation::Rebase));
    assert_eq!(operation_in_progress(true, true, true, true, true), Some(Operation::Merge));
}

#[test]
fn the_summary_and_the_status_read_the_survey() {
    let survey = dirty_survey(vec![entry("p.cic", EntryKind::Changed, '.', 'M')]);
    let summary = project_summary(&Ok(survey));
    assert_eq!(summary.kind, "repo");
    assert_eq!(summary.branch.as_deref(), Some("main"));
    assert_eq!(summary.dirty_count, 1);
    assert_eq!(summary.error, None);
    let failed = project_summary(&Err(GitError::NotFound {
        program: "git".into(),
    }));
    assert_eq!(failed.kind, "error");
    assert_eq!(
        failed.error.as_deref(),
        Some("no `git` on PATH — install git or put it on PATH")
    );
    let scope = Scope::for_pipeline("p.cic");
    let survey = dirty_survey(vec![entry("p.cic", EntryKind::Changed, '.', 'M')]);
    assert_eq!(survey.marker_step(&scope), MarkerStep::Diff);
    let response = survey.status_response(&scope, Vec::new(), Vec::new(), "h".into());
    assert!(response.pipeline.known_to_git && response.pipeline.dirty && !response.pipeline.ignored);
    assert_eq!(response.scope.len(), 1);
    let clean = dirty_survey(Vec::new());
    assert_eq!(clean.marker_step(&scope), MarkerStep::Clean);
    let new = dirty_survey(vec![entry("p.cic", EntryKind::Untracked, '?', '?')]);
    assert_eq!(new.marker_step(&scope), MarkerStep::AllAdded);
    let bare = Survey::bare(GitState::NotARepo).status_response(&scope, Vec::new(), Vec::new(), "h".into());
    assert!(!bare.pipeline.known_to_git && bare.scope.is_empty());
}

#[test]
fn the_text_hash_is_blake3_hex() {
    assert_eq!(
        text_hash(b""),
        "af1349b9f5f9a1a6a0404dea36dcc9499bcb25c9adc112b7cc9a93cae41f3262"
    );
    assert_eq!(text_hash(b"abc").len(), 64);
    assert_ne!(text_hash(b"abc"), text_hash(b"abd"));
}

#[test]
fn lines_name_their_nodes_in_order() {
    let nodes = node_lines(HEAD);
    let seen: Vec<(usize, &str, Option<&str>)> = nodes
        .iter()
        .map(|n| (n.line, n.name.as_str(), n.rhs.as_deref()))
        .collect();
    assert_eq!(
        seen,
        vec![
            (1, "size", Some("slider(value=2.0, min=0.5, max=5.0)")),
            (2, "span", Some("construct_domain(start=0.0, end=size)")),
            (3, "block", Some("box(x=span, y=span, z=span)")),
            (4, "ghost", Some("sphere(radius=size)")),
            (5, "extra", Some("4.0")),
        ]
    );
    let broken = [
        SourceLine {
            shape: LineShape::Broken(None),
            raw: "= oops".to_owned(),
        },
        SourceLine {
            shape: LineShape::Other,
            raw: "# a comment".to_owned(),
        },
        SourceLine {
            shape: LineShape::Disabled(None),
            raw: "#off".to_owned(),
        },
        SourceLine {
            shape: LineShape::Broken(Some("half".to_owned())),
            raw: "half = box(".to_owned(),
        },
    ];
    let nodes = line_nodes(&broken);
    let seen: Vec<(usize, &str, Option<&str>)> = nodes
        .iter()
        .map(|n| (n.line, n.name.as_str(), n.rhs.as_deref()))
        .collect();
    assert_eq!(
        seen,
        vec![
            (0, "line_1", Some("oops")),
            (2, "line_3", None),
            (3, "half", Some("box(")),
        ]
    );
    assert_eq!(node_names(&broken), vec!["line_1", "line_3", "half"]);
}

#[test]
fn a_read_failure_names_the_path_then_the_os_words() {
    let error = GitError::Read {
        path: PathBuf::from("/r/examples/a.cic"),
        source: std::io::Error::new(std::io::ErrorKind::NotFound, "gone"),
    };
    assert_eq!(error.message(), "reading /r/examples/a.cic: gone");
}
