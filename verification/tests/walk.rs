use cicada_server::targets::{effectful_bindings, Exclusion, TargetStatement};
use cicada_server::walk::{
    exclude_cycles, exclude_targets, gate, reachable_bindings, split_diagnostics, statement_fate,
    strict_walk,
    walk_order, Excluded,
};

fn statement(targets: &[&str], references: &[&str], call: Option<&str>) -> TargetStatement {
    TargetStatement {
        targets: targets.iter().map(|s| s.to_string()).collect(),
        references: references.iter().map(|s| s.to_string()).collect(),
        call: call.map(|s| s.to_string()),
    }
}

fn names(list: &[&str]) -> Vec<String> {
    list.iter().map(|s| s.to_string()).collect()
}

#[test]
fn the_walk_visits_roots_by_line_then_each_statement_once_fed() {
    // 0: c = add(a=b)   (forward reference)
    // 1: b = 1.0
    // 2: a = 2.0
    // 3: d = add(a=c, b=a)
    let statements = vec![
        statement(&["c"], &["b"], Some("add")),
        statement(&["b"], &[], None),
        statement(&["a"], &[], None),
        statement(&["d"], &["c", "a"], Some("add")),
    ];
    assert_eq!(walk_order(&statements).order, vec![1, 2, 0, 3]);
}

#[test]
fn a_cycle_and_what_it_feeds_are_left_over_and_named() {
    // 0: x = f(y)   1: y = g(x)   2: z = h(y)   3: w = 1.0   4: s = k(s)
    let statements = vec![
        statement(&["x"], &["y"], Some("f")),
        statement(&["y"], &["x"], Some("g")),
        statement(&["z"], &["y"], Some("h")),
        statement(&["w"], &[], None),
        statement(&["s"], &["s"], Some("k")),
    ];
    let walked = walk_order(&statements);
    assert_eq!(walked.order, vec![3]);
    let mut excluded = Excluded::new();
    excluded.insert("z".to_owned(), Exclusion::Diagnostics);
    exclude_cycles(&mut excluded, &statements, &walked);
    let mut map: Vec<(String, Exclusion)> = excluded.entries.clone();
    map.sort_by(|a, b| a.0.cmp(&b.0));
    assert_eq!(
        map,
        vec![
            ("s".to_owned(), Exclusion::Lowering("part of a cycle".into())),
            ("x".to_owned(), Exclusion::Lowering("part of a cycle".into())),
            ("y".to_owned(), Exclusion::Lowering("part of a cycle".into())),
            ("z".to_owned(), Exclusion::Diagnostics),
        ]
    );
}

#[test]
fn a_statement_is_red_blocked_or_lowered() {
    let statements = vec![
        statement(&["a"], &[], None),
        statement(&["b"], &["a", "ghost"], Some("add")),
        statement(&["c"], &["nope"], Some("add")),
        statement(&["d"], &["a"], Some("add")),
    ];
    let red = names(&["a"]);
    let mut excluded = Excluded::new();
    excluded.insert("ghost".to_owned(), Exclusion::Disabled);
    assert_eq!(statement_fate(&statements, 0, &red, &excluded), Some(Exclusion::Diagnostics));
    exclude_targets(&mut excluded, &statements[0], &Exclusion::Diagnostics);
    // The first excluded or unknown reference names the culprit.
    assert_eq!(
        statement_fate(&statements, 1, &red, &excluded),
        Some(Exclusion::FedBy("a".into()))
    );
    assert_eq!(
        statement_fate(&statements, 2, &red, &excluded),
        Some(Exclusion::FedBy("nope".into()))
    );
    assert!(excluded.contains("a") && excluded.contains("ghost") && !excluded.contains("d"));
    let clean = Excluded::new();
    assert_eq!(statement_fate(&statements, 3, &[], &clean), None);
    excluded.insert_if_absent("a".to_owned(), Exclusion::Disabled);
    assert_eq!(excluded.entries.iter().filter(|(n, _)| n == "a").count(), 1);
}

#[test]
fn the_gate_scopes_diagnostics_to_the_cone() {
    // good = add(a=1.0, b=2.0); bad = add(a=nope, b=2.0)
    let statements = vec![
        statement(&["good"], &[], Some("add")),
        statement(&["bad"], &["nope"], Some("add")),
    ];
    let diagnostics = vec![Some("bad".to_owned()), None];
    let (blocking, outside) = gate(&statements, &diagnostics, &names(&["good"]));
    assert_eq!((blocking, outside), (vec![1], vec![0]));
    let (blocking, outside) = gate(&statements, &diagnostics, &names(&["bad"]));
    assert_eq!((blocking, outside), (vec![0, 1], vec![]));
    let mut cone = reachable_bindings(&statements, &names(&["bad"]));
    cone.sort();
    assert_eq!(cone, names(&["bad", "nope"]));
    let mut all = reachable_bindings(&statements, &Vec::new());
    all.sort();
    assert_eq!(all, names(&["bad", "good", "nope"]));
    assert_eq!(
        split_diagnostics(&diagnostics, &names(&["good"])),
        (vec![1], vec![0])
    );
    let effectful = effectful_bindings(
        &[statement(&["dump"], &["m"], Some("export_obj")), statement(&["m"], &[], None)],
        &names(&["export_obj"]),
    );
    assert_eq!(effectful, names(&["dump"]));
}

#[test]
fn gate_scopes_to_the_cone() {
    // good = add(a=1.0, b=2.0); bad = add(a=nope, b=2.0): the one
    // diagnostic (the unknown `nope`) sits on the `bad` binding.
    let statements = vec![
        statement(&["good"], &[], Some("add")),
        statement(&["bad"], &["nope"], Some("add")),
    ];
    let diagnostics = vec![Some("bad".to_owned())];
    let (blocking, outside) = gate(&statements, &diagnostics, &names(&["good"]));
    assert!(blocking.is_empty(), "the bad binding is outside good's cone");
    assert_eq!(outside.len(), diagnostics.len());
    let (blocking, _) = gate(&statements, &diagnostics, &names(&["bad"]));
    assert!(!blocking.is_empty());
}

#[test]
fn a_strict_walk_takes_the_target_cone_in_kahn_order() {
    let statements = vec![
        statement(&["c"], &["b"], Some("g")),
        statement(&["unrelated"], &[], Some("h")),
        statement(&["a"], &[], None),
        statement(&["b"], &["a"], Some("f")),
    ];
    let walk = strict_walk(&statements, &names(&["c"])).unwrap();
    assert_eq!(walk.statements, vec![0, 2, 3]);
    // Positions in `statements`: a (1), then b (2), then c (0).
    assert_eq!(walk.order, vec![1, 2, 0]);
    assert!(walk.complete);
    let mut cone = walk.cone.clone();
    cone.sort();
    assert_eq!(cone, names(&["a", "b", "c"]));
    assert_eq!(
        strict_walk(&statements, &names(&["c", "nope", "gone"])).err(),
        Some("nope".to_owned())
    );
}

#[test]
fn a_cycle_in_the_cone_leaves_the_strict_walk_incomplete() {
    let statements = vec![
        statement(&["x"], &["y"], Some("f")),
        statement(&["y"], &["x"], Some("g")),
        statement(&["z"], &[], None),
    ];
    let walk = strict_walk(&statements, &names(&["x"])).unwrap();
    assert_eq!(walk.statements, vec![0, 1]);
    assert!(walk.order.is_empty());
    assert!(!walk.complete);
}
