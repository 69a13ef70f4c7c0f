use cicada_server::scrub::{
    idle_view, ineligible_view, nearest_first, Ineligible, WarmQueue, SCRUB_BYTE_CAP,
    SCRUB_MAX_POSITIONS, SCRUB_PORT,
};

#[test]
fn nearest_first_alternates_sides_and_finishes_the_longer_side() {
    assert_eq!(nearest_first(10, 3), [3, 4, 2, 5, 1, 6, 0, 7, 8, 9]);
    assert_eq!(nearest_first(5, 0), [0, 1, 2, 3, 4]);
    assert_eq!(nearest_first(5, 4), [4, 3, 2, 1, 0]);
    assert_eq!(nearest_first(1, 0), [0]);
    assert_eq!(nearest_first(0, 0), Vec::<usize>::new());
    assert_eq!(
        nearest_first(3, 99),
        [2, 1, 0],
        "a center beyond the end clamps"
    );
}

#[test]
fn nearest_first_is_a_permutation_for_every_center() {
    for count in 0..20usize {
        for center in 0..25usize {
            let order = nearest_first(count, center);
            let mut sorted = order.clone();
            sorted.sort_unstable();
            assert_eq!(sorted, (0..count).collect::<Vec<_>>());
            if count > 0 {
                assert_eq!(order[0], center.min(count - 1));
                let c = center.min(count - 1);
                for pair in order.windows(2) {
                    assert!(pair[0].abs_diff(c) <= pair[1].abs_diff(c));
                }
            }
        }
    }
}

#[test]
fn the_queue_walks_its_order_applies_the_cap_and_views_itself() {
    let values: Vec<String> = (0..5).map(|i| format!("{i}.0")).collect();
    let mut q = WarmQueue::new(7, "size", "value", values, nearest_first(5, 2));
    assert_eq!(q.next(), Some(2));
    assert!(q.warming());
    q.record_warm(2, 10, 100);
    assert_eq!(q.next(), Some(3));
    q.record_red(3);
    assert_eq!(q.next(), Some(1));
    assert_eq!(q.warmed.iter().copied().collect::<Vec<_>>(), [2]);
    q.in_flight = Some(1);
    q.record_preempted();
    assert_eq!(q.in_flight, None);
    assert_eq!(q.next(), Some(1), "a pre-empted position is next again");
    q.record_warm(1, 95, 100);
    assert!(q.capped, "10 + 95 ≥ 100");
    assert_eq!(q.next(), None);
    assert!(q.finished() && !q.warming());
    let view = q.view(true);
    assert!(view.on);
    assert_eq!(view.positions, 5);
    assert_eq!(view.warmed, vec![1, 2]);
    assert!(!view.warming);
    assert_eq!(view.bytes, 105);
    assert!(view.capped);
    assert_eq!(view.ineligible, None);
    let idle = idle_view(19, false);
    assert_eq!(
        (idle.on, idle.positions, idle.warmed.len(), idle.warming, idle.bytes, idle.capped),
        (false, 19, 0, false, 0, false)
    );
    let refused = ineligible_view(true, &Ineligible::StepZero);
    assert_eq!(refused.positions, 0);
    assert_eq!(
        refused.ineligible.as_deref(),
        Some("step is 0 — a continuous slider has no positions to warm")
    );
}

#[test]
fn a_queue_without_a_cap_finishes_when_every_position_is_visited() {
    let values: Vec<String> = (0..3).map(|i| format!("{i}.0")).collect();
    let mut q = WarmQueue::new(1, "s", SCRUB_PORT, values, nearest_first(3, 0));
    while let Some(next) = q.next() {
        q.record_warm(next, 1, SCRUB_BYTE_CAP);
    }
    assert!(q.finished());
    assert!(!q.capped);
    assert_eq!(q.view(true).warmed, vec![0, 1, 2]);
    assert_eq!(q.bytes, 3);
}

#[test]
fn refusals_read_as_the_client_shows_them() {
    assert_eq!(
        Ineligible::TooManyPositions { positions: 51 }.message(),
        "too many positions (51 > 32)"
    );
    assert_eq!(
        Ineligible::Wired(vec!["max".into()]).message(),
        "max is wired — the positions are a function of literal min, max and step"
    );
    assert_eq!(
        Ineligible::Wired(vec!["min".into(), "max".into()]).message(),
        "min and max are wired — the positions are a function of literal min, max and step"
    );
    assert_eq!(
        Ineligible::NotASlider.message(),
        "not a slider — only sliders scrub-cache"
    );
    assert_eq!(Ineligible::InvertedBounds.message(), "max is below min");
    assert_eq!(SCRUB_MAX_POSITIONS, 32);
    assert_eq!(SCRUB_BYTE_CAP, 256 * 1024 * 1024);
}

#[test]
fn bytes_saturate_at_the_counter_limit() {
    let mut q = WarmQueue::new(1, "s", "value", vec!["0.0".into()], vec![0]);
    q.record_warm(0, u64::MAX, u64::MAX);
    q.record_red(0);
    assert_eq!(q.bytes, u64::MAX);
    assert!(q.capped);
}
