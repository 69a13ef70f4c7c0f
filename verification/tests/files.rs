use cicada_server::files::{
    entry_kind, forward_slashes, is_pipeline_name, listing_place, modified_ms, normalize_dir,
    project_entry, signed_millis, skipped_directory, sort_entries, FilesError, ProjectEntry,
    SKIPPED_DIRECTORIES,
};
use cicada_server::protocol::{FileEntry, FileKind, FilesErrorKind};
use std::time::UNIX_EPOCH;

#[test]
fn normalisation_accepts_plain_relative_paths_and_drops_empty_and_dot_segments() {
    let seg = |s: &str| {
        normalize_dir(s)
            .unwrap()
            .iter()
            .map(String::as_str)
            .collect::<Vec<_>>()
            .join("/")
    };
    assert_eq!(seg(""), "");
    assert_eq!(seg("."), "");
    assert_eq!(seg("a"), "a");
    assert_eq!(seg("a/b"), "a/b");
    assert_eq!(seg("a//b/"), "a/b");
    assert_eq!(seg("./a/./b"), "a/b");
    assert_eq!(seg("with space/ünïcode"), "with space/ünïcode");
}

#[test]
fn normalisation_refuses_every_escape_before_touching_the_file_system() {
    // The refusal is lexical: no root is consulted at all.
    for dir in [
        "..",
        "../",
        "a/..",
        "a/../..",
        "../etc",
        "/etc",
        "/",
        "//server/share",
        "C:/Windows",
        "C:\\Windows",
        "a\\b",
        "a:b",
        "a\0b",
    ] {
        let error = normalize_dir(dir).expect_err(dir);
        assert_eq!(
            error.kind(),
            FilesErrorKind::PathNotAllowed,
            "{dir:?}: {}",
            error.message()
        );
        assert_eq!(error.dir(), dir);
        assert!(
            matches!(error, FilesError::PathNotAllowed { .. }),
            "{dir:?}: {}",
            error.message()
        );
    }
}

#[test]
fn the_refusal_body_is_kind_message_path() {
    let error = normalize_dir("../x").unwrap_err();
    let body = error.body();
    assert_eq!(body.kind.tag(), "path_not_allowed");
    assert_eq!(body.path, "../x");
    assert_eq!(
        body.message,
        "`../x` is not a root-relative directory path: a `..` segment"
    );
}

#[test]
fn file_times_are_signed_milliseconds() {
    assert_eq!(modified_ms(UNIX_EPOCH), 0);
    assert_eq!(
        modified_ms(UNIX_EPOCH + std::time::Duration::from_millis(1_500)),
        1_500
    );
    assert_eq!(
        modified_ms(UNIX_EPOCH - std::time::Duration::from_millis(2_500)),
        -2_500
    );
}

#[test]
fn signed_millis_saturate_both_ways() {
    assert_eq!(signed_millis(Ok(7)), 7);
    assert_eq!(signed_millis(Err(7)), -7);
    assert_eq!(signed_millis(Ok(u128::MAX)), i64::MAX);
    assert_eq!(signed_millis(Err(u128::MAX)), -i64::MAX);
}

#[test]
fn kinds_sort_directories_first() {
    assert!(FileKind::Dir < FileKind::Pipeline);
}

#[test]
fn pipelines_are_dot_cic_in_any_ascii_case() {
    assert!(is_pipeline_name("alpha.cic"));
    assert!(is_pipeline_name("Beta.CIC"));
    assert!(is_pipeline_name("upper.CiC"));
    assert!(is_pipeline_name("sub/p.cic"));
    assert!(is_pipeline_name("x..cic"));
    assert!(!is_pipeline_name(".cic"), "a dot-name has no extension");
    assert!(!is_pipeline_name("notes.cic.txt"));
    assert!(!is_pipeline_name("README.md"));
    assert!(!is_pipeline_name("cic"));
    assert!(!is_pipeline_name(".."));
    assert!(!is_pipeline_name(""));
    assert!(!is_pipeline_name("a.cicc"));
}

#[test]
fn every_refusal_reason_reads_as_documented() {
    let reason = |dir: &str| match normalize_dir(dir).unwrap_err() {
        FilesError::PathNotAllowed { reason, .. } => reason,
        other => panic!("{}", other.message()),
    };
    assert_eq!(reason("a\0b"), "a NUL byte");
    assert_eq!(reason("a\\b"), "a backslash — paths are `/`-separated");
    assert_eq!(reason("C:/x"), "a `:` — no drive prefixes or streams");
    assert_eq!(reason("/etc"), "an absolute path");
    assert_eq!(reason("a/../b"), "a `..` segment");
    assert_eq!(SKIPPED_DIRECTORIES, ["node_modules", "target"]);
}

#[test]
fn other_refusals_read_and_tag_as_documented() {
    let outside = FilesError::OutsideRoot { dir: "link".into() };
    assert_eq!(outside.kind(), FilesErrorKind::PathNotAllowed);
    assert_eq!(
        outside.message(),
        "`link` resolves outside the served root — refused"
    );
    let missing = FilesError::NotFound { dir: "gone".into() };
    assert_eq!(missing.kind().tag(), "not_found");
    assert_eq!(missing.message(), "no directory `gone` under the root");
    let file = FilesError::NotADirectory { dir: "p.cic".into() };
    assert_eq!(file.kind(), FilesErrorKind::NotFound);
    assert_eq!(file.message(), "`p.cic` is not a directory");
    let io = FilesError::Io {
        dir: "locked".into(),
        source: std::io::Error::other("denied"),
    };
    assert_eq!(io.kind().tag(), "io_error");
    assert_eq!(io.message(), "reading `locked`: denied");
    assert_eq!(io.dir(), "locked");
}

/// What a directory read makes of `(name, is_dir, is_file)` entries: the
/// skipped directories out, the rest named by kind, then sorted.
fn listed(raw: &[(&str, bool, bool)]) -> Vec<(String, FileKind)> {
    let mut entries = Vec::new();
    for (stamp, &(name, is_dir, is_file)) in raw.iter().enumerate() {
        if !is_file && skipped_directory(name, false) {
            continue;
        }
        if let Some(kind) = entry_kind(name, is_dir, is_file) {
            entries.push(FileEntry {
                name: name.to_owned(),
                kind,
                modified_ms: i64::try_from(stamp).unwrap(),
            });
        }
    }
    sort_entries(entries)
        .into_iter()
        .map(|entry| (entry.name, entry.kind))
        .collect()
}

#[test]
fn the_root_lists_directories_then_pipelines_in_case_insensitive_order() {
    let raw = [
        ("sub", true, false),
        ("Zeta", true, false),
        ("alpha", true, false),
        (".git", true, false),
        ("node_modules", true, false),
        ("target", true, false),
        ("Beta.cic", false, true),
        ("alpha.cic", false, true),
        ("upper.CIC", false, true),
        ("README.md", false, true),
        ("notes.cic.txt", false, true),
    ];
    let expected: Vec<(String, FileKind)> = [
        ("alpha", FileKind::Dir),
        ("sub", FileKind::Dir),
        ("Zeta", FileKind::Dir),
        ("alpha.cic", FileKind::Pipeline),
        ("Beta.cic", FileKind::Pipeline),
        ("upper.CIC", FileKind::Pipeline),
    ]
    .iter()
    .map(|(n, k)| ((*n).to_owned(), *k))
    .collect();
    assert_eq!(listed(&raw), expected);
}

#[test]
fn equal_names_but_for_case_keep_a_fixed_order() {
    let sorted = listed(&[("b.cic", false, true), ("B.cic", false, true), ("a", true, false)]);
    let names: Vec<&str> = sorted.iter().map(|(n, _)| n.as_str()).collect();
    assert_eq!(names, vec!["a", "B.cic", "b.cic"]);
}

#[test]
fn skipped_directories_are_dot_names_the_list_and_os_hidden_ones() {
    assert!(skipped_directory(".git", false));
    assert!(skipped_directory("node_modules", false));
    assert!(skipped_directory("target", false));
    assert!(skipped_directory("Visible", true));
    assert!(!skipped_directory("Visible", false));
    assert!(!skipped_directory("targets", false));
    assert_eq!(entry_kind("x.cic", false, true), Some(FileKind::Pipeline));
    assert_eq!(entry_kind("x.cic", true, false), Some(FileKind::Dir));
    assert_eq!(entry_kind("x.txt", false, true), None);
    assert_eq!(entry_kind("x.cic", false, false), None);
}

#[test]
fn a_nested_listing_reports_its_dir_and_parent() {
    let place = |dir: &str| listing_place(&normalize_dir(dir).unwrap());
    assert_eq!(place(""), (String::new(), None));
    assert_eq!(place("sub"), ("sub".to_owned(), Some(String::new())));
    for spelling in ["sub/inner", "sub//inner/", "./sub/./inner"] {
        assert_eq!(
            place(spelling),
            ("sub/inner".to_owned(), Some("sub".to_owned())),
            "{spelling}"
        );
    }
}

#[test]
fn the_project_walk_lists_pipelines_and_the_scripts_beside_them() {
    assert_eq!(project_entry("examples", true, false), ProjectEntry::Descend);
    assert_eq!(project_entry("scripts", true, false), ProjectEntry::Descend);
    assert_eq!(project_entry(".git", true, false), ProjectEntry::Pass);
    assert_eq!(project_entry("node_modules", true, false), ProjectEntry::Pass);
    assert_eq!(project_entry("target", true, true), ProjectEntry::Pass);
    assert_eq!(project_entry("wall.cic", false, false), ProjectEntry::Pipeline);
    assert_eq!(project_entry("wall.cic", false, true), ProjectEntry::Pipeline);
    // The extension is exact: no case folding, no inner dots.
    assert_eq!(project_entry("upper.CIC", false, false), ProjectEntry::Pass);
    assert_eq!(project_entry("notes.cic.txt", false, false), ProjectEntry::Pass);
    assert_eq!(project_entry(".cic", false, false), ProjectEntry::Pass);
    assert_eq!(project_entry("gear.py", false, true), ProjectEntry::Script);
    assert_eq!(project_entry("gear.py", false, false), ProjectEntry::Pass);
    assert_eq!(forward_slashes(r"examples\wall.cic"), "examples/wall.cic");
    assert_eq!(forward_slashes("a/b.cic"), "a/b.cic");
}

#[test]
fn normalising_the_joined_segments_gives_them_back() {
    for dir in ["a//b/", "./a/./b", "x", "", ".", "a/b/c/"] {
        let segments = normalize_dir(dir).unwrap();
        let again = normalize_dir(&segments.join("/")).unwrap();
        assert_eq!(again, segments, "{dir}");
    }
}
