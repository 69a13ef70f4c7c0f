use cicada_server::budget::{
    budget_after, budget_start, choose_tier, tally_lookups, verdict, BudgetStats, Tally, TierStep,
};
use cicada_server::display::{DisplayTier, Served};
use cicada_server::targets::{resolve_targets, Exclusion, TargetError, TargetStatement};

fn statement(targets: &[&str], references: &[&str], call: Option<&str>) -> TargetStatement {
    TargetStatement {
        targets: targets.iter().map(|s| s.to_string()).collect(),
        references: references.iter().map(|s| s.to_string()).collect(),
        call: call.map(|s| s.to_string()),
    }
}

fn effectful() -> Vec<String> {
    vec!["export_obj".to_owned()]
}

#[test]
fn default_targets_are_non_effectful_leaves_and_exporter_inputs() {
    // a = 1.0
    // b = add(a=a, b=2.0)
    // c = 3.0
    // m = box(x=d, y=d, z=d)
    // d = construct_domain(start=0.0, end=1.0)
    // dx = unit_x()
    // ms = linear_array(geometry=m, direction=dx, count=1)
    // dump = export_obj(meshes=ms, path="x.obj")
    let statements = vec![
        statement(&["a"], &[], None),
        statement(&["b"], &["a"], Some("add")),
        statement(&["c"], &[], None),
        statement(&["m"], &["d", "d", "d"], Some("box")),
        statement(&["d"], &[], Some("construct_domain")),
        statement(&["dx"], &[], Some("unit_x")),
        statement(&["ms"], &["m", "dx"], Some("linear_array")),
        statement(&["dump"], &["ms"], Some("export_obj")),
    ];
    let targets = resolve_targets(&statements, &effectful(), &Vec::new()).unwrap();
    // b and c are leaves; m feeds ms feeds dump (effectful) — dump is
    // skipped and its input ms becomes a target.
    assert_eq!(targets.names, vec!["b", "c", "ms"]);
    assert_eq!(targets.skipped_effectful, vec!["dump"]);
}

#[test]
fn explicit_target_must_exist() {
    let statements = vec![statement(&["a"], &[], None)];
    assert_eq!(
        resolve_targets(&statements, &effectful(), &vec!["zzz".to_owned()]).unwrap_err(),
        TargetError::Unknown("zzz".to_owned())
    );
    assert_eq!(
        resolve_targets(&[], &effectful(), &Vec::new()).unwrap_err(),
        TargetError::Nothing
    );
    let named = resolve_targets(&statements, &effectful(), &vec!["a".to_owned()]).unwrap();
    assert_eq!(named.names, vec!["a"]);
    assert!(named.skipped_effectful.is_empty());
    assert_eq!(
        TargetError::Unknown("zzz".to_owned()).message(),
        "no binding named `zzz` in the pipeline"
    );
    assert_eq!(
        TargetError::Nothing.message(),
        "the pipeline binds nothing to compute (effectful bindings run only via --node / explicit run)"
    );
}

#[test]
fn an_effectful_leaf_alone_is_nothing_to_compute_and_inputs_count_once() {
    let only_export = vec![statement(&["dump"], &[], Some("export_obj"))];
    assert_eq!(
        resolve_targets(&only_export, &effectful(), &Vec::new()).unwrap_err(),
        TargetError::Nothing
    );
    let twice = vec![
        statement(&["x"], &[], None),
        statement(&["e1"], &["x", "x"], Some("export_obj")),
        statement(&["e2"], &["x"], Some("export_obj")),
        statement(&["y"], &[], None),
    ];
    let targets = resolve_targets(&twice, &effectful(), &Vec::new()).unwrap();
    assert_eq!(targets.names, vec!["x", "y"]);
    assert_eq!(targets.skipped_effectful, vec!["e1", "e2"]);
}

#[test]
fn exclusions_read_as_the_canvas_shows_them() {
    assert_eq!(Exclusion::Diagnostics.status(), "red");
    assert_eq!(Exclusion::Disabled.status(), "red");
    assert_eq!(Exclusion::Lowering("part of a cycle".into()).status(), "red");
    assert_eq!(Exclusion::FedBy("spin".into()).status(), "blocked");
    assert_eq!(Exclusion::Diagnostics.reason(), "has diagnostics");
    assert_eq!(Exclusion::Disabled.reason(), "disabled (`#off`)");
    assert_eq!(Exclusion::Lowering("part of a cycle".into()).reason(), "part of a cycle");
    assert_eq!(Exclusion::FedBy("spin".into()).reason(), "fed by red `spin`");
}

#[test]
fn the_budget_draws_fine_when_it_fits_else_preview() {
    let limit = 100;
    // No solids: drawn as asked, nothing measured.
    assert_eq!(
        budget_start(false, DisplayTier::Fine, limit),
        TierStep::Decided(verdict(limit, DisplayTier::Fine, DisplayTier::Fine, 0))
    );
    assert_eq!(
        budget_start(true, DisplayTier::Fine, limit),
        TierStep::Measure {
            tier: DisplayTier::Fine,
            stop_past: Some(limit)
        }
    );
    assert_eq!(
        budget_start(true, DisplayTier::Preview, limit),
        TierStep::Measure {
            tier: DisplayTier::Preview,
            stop_past: None
        }
    );
    // The fine tally fits: drawn fine.
    let fine = tally_lookups(&[(Served::Hit, Some(40)), (Served::Miss, Some(60))], Some(limit));
    assert_eq!((fine.triangles, fine.hits, fine.misses), (100, 1, 1));
    assert!(!fine.exceeded(Some(limit)));
    assert_eq!(
        budget_after(DisplayTier::Fine, limit, DisplayTier::Fine, fine.triangles, false),
        TierStep::Decided(BudgetStats {
            limit,
            requested: DisplayTier::Fine,
            drawn: DisplayTier::Fine,
            triangles: 100,
            over_budget: false
        })
    );
    // The fine tally stops once past the budget; preview is measured.
    let over = tally_lookups(
        &[(Served::Hit, Some(80)), (Served::Hit, Some(30)), (Served::Miss, Some(500))],
        Some(limit),
    );
    assert_eq!((over.triangles, over.hits, over.misses), (110, 2, 0));
    assert!(over.exceeded(Some(limit)));
    assert_eq!(
        budget_after(DisplayTier::Fine, limit, DisplayTier::Fine, over.triangles, true),
        TierStep::Measure {
            tier: DisplayTier::Preview,
            stop_past: None
        }
    );
    // Even preview exceeds: drawn at preview, over budget.
    let preview = tally_lookups(&[(Served::Miss, Some(70)), (Served::Miss, None), (Served::Hit, Some(50))], None);
    assert_eq!(preview.triangles, 120);
    assert_eq!(
        budget_after(DisplayTier::Fine, limit, DisplayTier::Preview, preview.triangles, false),
        TierStep::Decided(BudgetStats {
            limit,
            requested: DisplayTier::Fine,
            drawn: DisplayTier::Preview,
            triangles: 120,
            over_budget: true
        })
    );
    let mut tally = Tally::new();
    assert!(tally.wants_more(Some(0)));
    tally.record(Served::Hit, Some(1));
    assert!(!tally.wants_more(Some(0)));
    assert!(tally.wants_more(None));
}

#[test]
fn the_budget_decision_ignores_the_order_of_the_solids() {
    let limit = 100;
    let decide = |fine: &[(Served, Option<u64>)], preview: &[(Served, Option<u64>)]| {
        let tally = tally_lookups(fine, Some(limit));
        match budget_after(DisplayTier::Fine, limit, DisplayTier::Fine, tally.triangles, tally.exceeded(Some(limit))) {
            TierStep::Decided(stats) => stats,
            TierStep::Measure { .. } => {
                let p = tally_lookups(preview, None);
                match budget_after(DisplayTier::Fine, limit, DisplayTier::Preview, p.triangles, false) {
                    TierStep::Decided(stats) => stats,
                    TierStep::Measure { .. } => unreachable!(),
                }
            }
        }
    };
    let fine = [(Served::Hit, Some(80)), (Served::Miss, Some(5)), (Served::Hit, Some(30))];
    let fine_reordered = [(Served::Hit, Some(30)), (Served::Hit, Some(80)), (Served::Miss, Some(5))];
    let preview = [(Served::Miss, Some(20)), (Served::Miss, None), (Served::Hit, Some(9))];
    let preview_reordered = [(Served::Hit, Some(9)), (Served::Miss, Some(20)), (Served::Miss, None)];
    let first = decide(&fine, &preview);
    assert_eq!(first, decide(&fine_reordered, &preview_reordered));
    assert_eq!((first.drawn, first.triangles, first.over_budget), (DisplayTier::Preview, 29, false));
    let small = [(Served::Hit, Some(40)), (Served::Miss, Some(60))];
    let small_reordered = [(Served::Miss, Some(60)), (Served::Hit, Some(40))];
    assert_eq!(decide(&small, &preview), decide(&small_reordered, &preview_reordered));
    assert_eq!(decide(&small, &preview).drawn, DisplayTier::Fine);
}

#[test]
fn choose_tier_draws_fine_when_it_fits_else_preview() {
    let limit = 100;
    let fits = [(Served::Hit, Some(40)), (Served::Miss, Some(60))];
    let small = [(Served::Hit, Some(4)), (Served::Miss, Some(6))];
    assert_eq!(
        choose_tier(DisplayTier::Fine, limit, &fits, &small),
        BudgetStats { limit, requested: DisplayTier::Fine, drawn: DisplayTier::Fine, triangles: 100, over_budget: false }
    );
    let over = [(Served::Hit, Some(80)), (Served::Hit, Some(30))];
    assert_eq!(
        choose_tier(DisplayTier::Fine, limit, &over, &small),
        BudgetStats { limit, requested: DisplayTier::Fine, drawn: DisplayTier::Preview, triangles: 10, over_budget: false }
    );
    let big = [(Served::Miss, Some(70)), (Served::Miss, Some(50))];
    assert_eq!(
        choose_tier(DisplayTier::Fine, limit, &over, &big),
        BudgetStats { limit, requested: DisplayTier::Fine, drawn: DisplayTier::Preview, triangles: 120, over_budget: true }
    );
    assert_eq!(
        choose_tier(DisplayTier::Preview, limit, &fits, &small).drawn,
        DisplayTier::Preview
    );
    assert_eq!(
        choose_tier(DisplayTier::Fine, limit, &[], &[]),
        BudgetStats { limit, requested: DisplayTier::Fine, drawn: DisplayTier::Fine, triangles: 0, over_budget: false }
    );
}
