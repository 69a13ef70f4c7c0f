use cicada_server::files::{root_name, validate_pipeline_ref};
use cicada_server::notation::{marshallable, node_collision, parse_notation, Collision};
use cicada_server::protocol::GitErrorKind;
use cicada_server::routes::{git_status_code, presented_token, token_accepted, writer_client};

#[test]
fn notation_parses_depth_and_optionality() {
    let t = parse_notation("[Point]").unwrap();
    assert_eq!((t.base, t.list_depth, t.optional), ("Point", 1, false));
    let t = parse_notation("Number?").unwrap();
    assert_eq!((t.base, t.list_depth, t.optional), ("Number", 0, true));
    let t = parse_notation("[[Number]]").unwrap();
    assert_eq!(t.list_depth, 2);
    let t = parse_notation("[[Watertight<Mesh>]]").unwrap();
    assert_eq!((t.base, t.list_depth, t.optional), ("Watertight<Mesh>", 2, false));
    let t = parse_notation("Closed<Curve>?").unwrap();
    assert_eq!((t.base, t.list_depth, t.optional), ("Closed<Curve>", 0, true));
    for base in ["Mesh", "Plane", "Curve"] {
        assert_eq!(parse_notation(base).unwrap().base, base);
    }
    let error = parse_notation("Frobnicator").unwrap_err();
    assert!(error.contains("Watertight<Mesh>"), "lists the kinds: {error}");
    assert!(parse_notation("Xform").is_err(), "outside the set");
}

#[test]
fn a_refused_notation_names_every_kind_in_order() {
    assert_eq!(
        parse_notation("Xform").unwrap_err(),
        "type `Xform` cannot cross the Python boundary — script ports take Number, Integer, Boolean, Text, Point, Vector, Domain, Plane, Mesh, Watertight<Mesh>, Curve, Closed<Curve>, with [list] nesting and ? optionality"
    );
    assert_eq!(marshallable().len(), 12);
    // Surrounding white space is ignored; a bracket without its pair is not
    // nesting.
    assert_eq!(parse_notation("  [Text] ").unwrap().list_depth, 1);
    assert!(parse_notation("[Text").is_err());
}

#[test]
fn pipeline_references_are_plain_relative_cic_paths() {
    assert_eq!(validate_pipeline_ref("p.cic"), Ok("p.cic".to_owned()));
    assert_eq!(validate_pipeline_ref("examples/P.CIC"), Ok("examples/P.CIC".to_owned()));
    for bad in ["", "/abs/p.cic", "../p.cic", "a/../p.cic", "./p.cic", "a\\p.cic", "C:p.cic", "p.txt", ".cic"] {
        assert_eq!(validate_pipeline_ref(bad), Err(bad.to_owned()), "{bad}");
    }
    assert_eq!(root_name("/home/u/project"), Some("project".to_owned()));
    assert_eq!(root_name("/"), None);
}

#[test]
fn the_token_gate_and_the_writer_id() {
    assert_eq!(presented_token(Some("q"), Some("Bearer h"), Some("x")), Some("q".to_owned()));
    assert_eq!(presented_token(None, Some("Bearer h"), Some("x")), Some("h".to_owned()));
    assert_eq!(presented_token(None, Some("Basic h"), Some("x")), Some("x".to_owned()));
    assert_eq!(presented_token(None, None, None), None);
    assert!(token_accepted("s3cret", None, Some("Bearer s3cret"), None));
    assert!(!token_accepted("s3cret", Some("wrong"), Some("Bearer s3cret"), None));
    assert_eq!(writer_client(Some(7), Some("9")), Some(7));
    assert_eq!(writer_client(None, Some("9")), Some(9));
    assert_eq!(writer_client(None, Some("x9")), None);
    assert_eq!(writer_client(None, Some("4294967296")), None);
    assert_eq!(git_status_code(GitErrorKind::Locked), 423);
    assert_eq!(git_status_code(GitErrorKind::PathNotAllowed), 422);
    assert_eq!(git_status_code(GitErrorKind::NoSuchPipeline), 404);
    assert_eq!(git_status_code(GitErrorKind::GitTimeout), 500);
}

#[test]
fn a_script_node_may_not_take_a_stdlib_or_an_earlier_name() {
    let stdlib = vec!["add".to_owned(), "box".to_owned()];
    let taken = vec!["gear".to_owned()];
    assert_eq!(node_collision(&stdlib, &taken, "box"), Some(Collision::Stdlib));
    assert_eq!(node_collision(&stdlib, &taken, "gear"), Some(Collision::Duplicate));
    assert_eq!(node_collision(&stdlib, &taken, "sprocket"), None);
    // The standard library is checked first.
    let taken = vec!["add".to_owned()];
    assert_eq!(node_collision(&stdlib, &taken, "add"), Some(Collision::Stdlib));
}
