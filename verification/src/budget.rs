//! The triangle budget's decision for one output: the tally of a value
//! set's triangles at a tier (stopping once past the limit), and the
//! tier the output is drawn at — the requested one, else the preview
//! tier, marked over budget when even that does not fit.
use vstd::prelude::*;
use crate::display::{DisplayTier, Served};

verus! {

/// The triangle budget's verdict for one output.
#[derive(Debug, Clone, Copy, PartialEq, Eq, Structural)]
pub struct BudgetStats {
    /// The budget: triangles per output per generation.
    pub limit: u64,
    /// The tier the generation asked for.
    pub requested: DisplayTier,
    /// The tier the output is drawn at: `requested`, or `Preview` when
    /// the request would exceed the limit.
    pub drawn: DisplayTier,
    /// The distinct solids' triangles at the drawn tier (exact).
    pub triangles: u64,
    /// Even the preview tier exceeds the limit: drawn at preview anyway,
    /// and said so.
    pub over_budget: bool,
}

/// The verdict for drawing at `drawn` with `triangles`.
pub open spec fn verdict_of(limit: u64, requested: DisplayTier, drawn: DisplayTier, triangles: u64) -> BudgetStats {
    BudgetStats { limit, requested, drawn, triangles, over_budget: triangles > limit }
}

/// The verdict for drawing at `drawn` with `triangles`.
pub fn verdict(limit: u64, requested: DisplayTier, drawn: DisplayTier, triangles: u64) -> (stats: BudgetStats)
    ensures
        stats == verdict_of(limit, requested, drawn, triangles),
{
    BudgetStats { limit, requested, drawn, triangles, over_budget: triangles > limit }
}

/// The next step of a budget decision.
#[derive(Debug, Clone, Copy, PartialEq, Eq, Structural)]
pub enum TierStep {
    /// Tally the solids at `tier`; with `stop_past`, stop meshing once the
    /// running total is past it.
    Measure { tier: DisplayTier, stop_past: Option<u64> },
    /// The decision.
    Decided(BudgetStats),
}

/// How a budget decision starts: a value without solids is drawn as
/// asked (no triangles, nothing measured); a fine request measures the
/// fine tier against the limit; a preview request measures the preview
/// tier in full.
pub fn budget_start(has_solids: bool, requested: DisplayTier, limit: u64) -> (step: TierStep)
    ensures
        step == if !has_solids {
            TierStep::Decided(verdict_of(limit, requested, requested, 0))
        } else if requested == DisplayTier::Fine {
            TierStep::Measure { tier: DisplayTier::Fine, stop_past: Some(limit) }
        } else {
            TierStep::Measure { tier: DisplayTier::Preview, stop_past: None }
        },
{
    if !has_solids {
        TierStep::Decided(verdict(limit, requested, requested, 0))
    } else {
        match requested {
            DisplayTier::Fine => TierStep::Measure { tier: DisplayTier::Fine, stop_past: Some(limit) },
            DisplayTier::Preview => TierStep::Measure { tier: DisplayTier::Preview, stop_past: None },
        }
    }
}

/// The step after a tally at `measured`: the fine tier drawn when its
/// tally did not exceed the limit, else the preview tier measured; the
/// preview tier drawn with what its tally found.
pub fn budget_after(
    requested: DisplayTier,
    limit: u64,
    measured: DisplayTier,
    triangles: u64,
    exceeded: bool,
) -> (step: TierStep)
    ensures
        step == if measured == DisplayTier::Fine {
            if !exceeded {
                TierStep::Decided(verdict_of(limit, requested, DisplayTier::Fine, triangles))
            } else {
                TierStep::Measure { tier: DisplayTier::Preview, stop_past: None }
            }
        } else {
            TierStep::Decided(verdict_of(limit, requested, DisplayTier::Preview, triangles))
        },
{
    match measured {
        DisplayTier::Fine => if !exceeded {
            TierStep::Decided(verdict(limit, requested, DisplayTier::Fine, triangles))
        } else {
            TierStep::Measure { tier: DisplayTier::Preview, stop_past: None }
        },
        DisplayTier::Preview => TierStep::Decided(verdict(limit, requested, DisplayTier::Preview, triangles)),
    }
}

// -------------------------------------------------------------- tally --

/// A tally in progress: the running triangle total and how the cache
/// served the lookups so far.
#[derive(Debug, Clone, Copy, PartialEq, Eq, Structural)]
pub struct Tally {
    /// Triangles counted so far.
    pub triangles: u64,
    /// Lookups the cache answered.
    pub hits: u64,
    /// Lookups that called the kernel.
    pub misses: u64,
}

impl Tally {
    /// Nothing counted yet.
    pub fn new() -> (tally: Tally)
        ensures
            tally == (Tally { triangles: 0, hits: 0, misses: 0 }),
    {
        Tally { triangles: 0, hits: 0, misses: 0 }
    }

    /// Is the next solid still worth meshing? Not once the running total
    /// is past the limit: the verdict "exceeds" is already certain.
    pub fn wants_more(&self, limit: Option<u64>) -> (more: bool)
        ensures
            more == !(limit matches Some(l) && self.triangles > l),
    {
        match limit {
            Some(l) => self.triangles <= l,
            None => true,
        }
    }

    /// Count one solid's lookup: how the cache served it, and its
    /// triangles (`None` for a refusal, which counts none). The counters
    /// wrap as atomic counters do.
    pub fn record(&mut self, served: Served, triangles: Option<u64>)
        ensures
            final(self).triangles == (match triangles {
                Some(t) => (old(self).triangles + t) % 0x1_0000_0000_0000_0000,
                None => old(self).triangles as int,
            }),
            final(self).hits == (if served == Served::Hit {
                (old(self).hits + 1) % 0x1_0000_0000_0000_0000
            } else {
                old(self).hits as int
            }),
            final(self).misses == (if served == Served::Miss {
                (old(self).misses + 1) % 0x1_0000_0000_0000_0000
            } else {
                old(self).misses as int
            }),
    {
        match served {
            Served::Hit => {
                self.hits = self.hits.wrapping_add(1);
            },
            Served::Miss => {
                self.misses = self.misses.wrapping_add(1);
            },
        }
        match triangles {
            Some(t) => {
                self.triangles = self.triangles.wrapping_add(t);
            },
            None => {},
        }
    }

    /// Did the tally pass the limit?
    pub fn exceeded(&self, limit: Option<u64>) -> (over: bool)
        ensures
            over == (limit matches Some(l) && self.triangles > l),
    {
        match limit {
            Some(l) => self.triangles > l,
            None => false,
        }
    }
}

/// The triangles of a run of solids (a refusal counts none).
pub open spec fn total_of(counts: Seq<Option<u64>>) -> int
    decreases counts.len(),
{
    if counts.len() == 0 {
        0
    } else {
        total_of(counts.drop_last()) + match counts.last() {
            Some(t) => t as int,
            None => 0,
        }
    }
}

/// The total a serial tally of `counts` reaches: each solid meshed while
/// the running total is not past the limit, the rest skipped.
pub open spec fn tally_total(counts: Seq<Option<u64>>, limit: Option<u64>) -> int
    decreases counts.len(),
{
    if counts.len() == 0 {
        0
    } else {
        let before = tally_total(counts.drop_last(), limit);
        if limit matches Some(l) && before > l {
            before
        } else {
            before + match counts.last() {
                Some(t) => t as int,
                None => 0,
            }
        }
    }
}

/// The triangle counts of a run of lookups.
pub open spec fn counts_of(lookups: Seq<(Served, Option<u64>)>) -> Seq<Option<u64>> {
    lookups.map_values(|l: (Served, Option<u64>)| l.1)
}

/// Tally, serially and in order, solids whose cache lookups would answer
/// `lookups` (how each is served, and its triangles — `None` for a
/// refusal), stopping once the running total is past `limit`: the
/// skipped ones are not looked up.
pub fn tally_lookups(lookups: &[(Served, Option<u64>)], limit: Option<u64>) -> (tally: Tally)
    requires
        total_of(counts_of(lookups@)) <= u64::MAX,
    ensures
        tally.triangles == tally_total(counts_of(lookups@), limit),
{
    let ghost counts = counts_of(lookups@);
    let mut tally = Tally::new();
    let mut k: usize = 0;
    while k < lookups.len()
        invariant
            0 <= k <= lookups@.len(),
            counts == counts_of(lookups@),
            total_of(counts) <= u64::MAX,
            tally.triangles == tally_total(counts.take(k as int), limit),
        decreases lookups@.len() - k,
    {
        proof {
            assert(counts.take(k + 1).drop_last() =~= counts.take(k as int));
            assert(counts.take(k + 1).last() == counts[k as int]);
            lemma_tally_within_total(counts.take(k + 1), limit);
            lemma_total_prefix(counts, k + 1);
        }
        if tally.wants_more(limit) {
            let (served, triangles) = lookups[k];
            assert(counts[k as int] == triangles);
            tally.record(served, triangles);
        }
        k += 1;
    }
    assert(counts.take(lookups@.len() as int) =~= counts);
    tally
}

/// A tally never counts more than all the triangles.
proof fn lemma_tally_within_total(counts: Seq<Option<u64>>, limit: Option<u64>)
    ensures
        0 <= tally_total(counts, limit) <= total_of(counts),
    decreases counts.len(),
{
    if counts.len() > 0 {
        lemma_tally_within_total(counts.drop_last(), limit);
        lemma_total_nonneg(counts.drop_last());
    }
}

proof fn lemma_total_nonneg(counts: Seq<Option<u64>>)
    ensures
        total_of(counts) >= 0,
    decreases counts.len(),
{
    if counts.len() > 0 {
        lemma_total_nonneg(counts.drop_last());
    }
}

/// A prefix holds no more triangles than the whole.
proof fn lemma_total_prefix(counts: Seq<Option<u64>>, n: int)
    requires
        0 <= n <= counts.len(),
    ensures
        total_of(counts.take(n)) <= total_of(counts),
    decreases counts.len() - n,
{
    if n < counts.len() {
        lemma_total_prefix(counts, n + 1);
        assert(counts.take(n + 1).drop_last() =~= counts.take(n));
        lemma_total_nonneg(counts.take(n));
    } else {
        assert(counts.take(n) =~= counts);
    }
}

/// The verdict is the value set's, never the meshing order's: a tally
/// against a limit passes it exactly when all the triangles together do,
/// and when they fit the total is exact.
pub proof fn lemma_tally_verdict_is_the_sets(counts: Seq<Option<u64>>, limit: u64)
    ensures
        (tally_total(counts, Some(limit)) > limit) == (total_of(counts) > limit),
        total_of(counts) <= limit ==> tally_total(counts, Some(limit)) == total_of(counts),
    decreases counts.len(),
{
    if counts.len() > 0 {
        let rest = counts.drop_last();
        lemma_tally_verdict_is_the_sets(rest, limit);
        lemma_tally_within_total(rest, Some(limit));
        lemma_tally_within_total(counts, Some(limit));
        lemma_total_nonneg(rest);
    }
}

/// The decision the steps come to for a value with solids, its tallies
/// run serially: the fine tally (against the limit) when fine is asked
/// for, then the preview tally when that did not fit.
pub open spec fn decided(
    requested: DisplayTier,
    limit: u64,
    fine: Seq<Option<u64>>,
    preview: Seq<Option<u64>>,
) -> BudgetStats {
    if requested == DisplayTier::Fine && !(tally_total(fine, Some(limit)) > limit) {
        verdict_of(limit, requested, DisplayTier::Fine, tally_total(fine, Some(limit)) as u64)
    } else {
        verdict_of(limit, requested, DisplayTier::Preview, tally_total(preview, None) as u64)
    }
}

/// The budget's decision: a fine request is drawn fine exactly when its
/// solids' fine triangles fit the limit, with their exact total and
/// within budget; otherwise the output is drawn at preview with the exact
/// preview total, over budget exactly when that does not fit either.
pub proof fn lemma_budget_decision(
    requested: DisplayTier,
    limit: u64,
    fine: Seq<Option<u64>>,
    preview: Seq<Option<u64>>,
)
    requires
        total_of(fine) <= u64::MAX,
        total_of(preview) <= u64::MAX,
    ensures
        (decided(requested, limit, fine, preview).drawn == DisplayTier::Fine) == (requested
            == DisplayTier::Fine && total_of(fine) <= limit),
        decided(requested, limit, fine, preview).drawn == DisplayTier::Fine ==> decided(
            requested,
            limit,
            fine,
            preview,
        ).triangles == total_of(fine) && !decided(requested, limit, fine, preview).over_budget,
        decided(requested, limit, fine, preview).drawn == DisplayTier::Preview ==> decided(
            requested,
            limit,
            fine,
            preview,
        ).triangles == total_of(preview) && decided(requested, limit, fine, preview).over_budget == (
        total_of(preview) > limit),
        decided(requested, limit, fine, preview).requested == requested,
        decided(requested, limit, fine, preview).limit == limit,
{
    lemma_tally_verdict_is_the_sets(fine, limit);
    lemma_tally_no_limit(preview);
    lemma_total_nonneg(fine);
    lemma_total_nonneg(preview);
}

/// Without a limit a tally counts everything.
proof fn lemma_tally_no_limit(counts: Seq<Option<u64>>)
    ensures
        tally_total(counts, None) == total_of(counts),
    decreases counts.len(),
{
    if counts.len() > 0 {
        lemma_tally_no_limit(counts.drop_last());
    }
}


/// Taking one solid out of a run takes its triangles off the total.
proof fn lemma_total_remove(counts: Seq<Option<u64>>, j: int)
    requires
        0 <= j < counts.len(),
    ensures
        total_of(counts) == total_of(counts.remove(j)) + match counts[j] {
            Some(t) => t as int,
            None => 0,
        },
    decreases counts.len(),
{
    if j == counts.len() - 1 {
        assert(counts.remove(j) =~= counts.drop_last());
    } else {
        lemma_total_remove(counts.drop_last(), j);
        assert(counts.remove(j).drop_last() =~= counts.drop_last().remove(j));
        assert(counts.remove(j).last() == counts.last());
        assert(counts.drop_last()[j] == counts[j]);
    }
}

/// The total of a run does not depend on the order of its solids.
pub proof fn lemma_total_ignores_order(a: Seq<Option<u64>>, b: Seq<Option<u64>>)
    requires
        a.to_multiset() == b.to_multiset(),
    ensures
        total_of(a) == total_of(b),
    decreases a.len(),
{
    broadcast use vstd::seq_lib::group_to_multiset_ensures;

    if a.len() == 0 {
        assert(b.to_multiset().len() == 0);
        assert(b =~= Seq::<Option<u64>>::empty());
    } else {
        let x = a.last();
        let rest = a.drop_last();
        assert(rest.push(x) =~= a);
        assert(a.to_multiset() =~= rest.to_multiset().insert(x));
        assert(b.to_multiset().count(x) > 0);
        assert(b.contains(x));
        let j = choose|j: int| 0 <= j < b.len() && b[j] == x;
        assert(b.remove(j).to_multiset() =~= b.to_multiset().remove(x));
        assert(rest.to_multiset() =~= b.remove(j).to_multiset());
        lemma_total_ignores_order(rest, b.remove(j));
        lemma_total_remove(b, j);
    }
}

/// The budget's decision does not depend on the order the solids come
/// in: the same solids, in any order, get the same tier, total and
/// verdict.
pub proof fn lemma_budget_decision_ignores_order(
    requested: DisplayTier,
    limit: u64,
    fine: Seq<Option<u64>>,
    preview: Seq<Option<u64>>,
    fine_again: Seq<Option<u64>>,
    preview_again: Seq<Option<u64>>,
)
    requires
        total_of(fine) <= u64::MAX,
        total_of(preview) <= u64::MAX,
        fine.to_multiset() == fine_again.to_multiset(),
        preview.to_multiset() == preview_again.to_multiset(),
    ensures
        decided(requested, limit, fine, preview) == decided(requested, limit, fine_again, preview_again),
{
    lemma_total_ignores_order(fine, fine_again);
    lemma_total_ignores_order(preview, preview_again);
    lemma_budget_decision(requested, limit, fine, preview);
    lemma_budget_decision(requested, limit, fine_again, preview_again);
}


/// The tier a generation's solids are drawn at, from what their cache
/// lookups answer at each tier (`fine[k]` and `preview[k]` for the same
/// solid): a value without solids is drawn as asked with no triangles; a
/// fine request is drawn fine exactly when the fine triangles fit the
/// limit; otherwise the preview tier is drawn with its exact total, over
/// budget exactly when that does not fit either.
pub fn choose_tier(
    requested: DisplayTier,
    limit: u64,
    fine: &[(Served, Option<u64>)],
    preview: &[(Served, Option<u64>)],
) -> (stats: BudgetStats)
    requires
        fine@.len() == preview@.len(),
        total_of(counts_of(fine@)) <= u64::MAX,
        total_of(counts_of(preview@)) <= u64::MAX,
    ensures
        stats.limit == limit,
        stats.requested == requested,
        fine@.len() == 0 ==> stats.drawn == requested && stats.triangles == 0,
        fine@.len() > 0 ==> stats.drawn == (if requested == DisplayTier::Fine && total_of(counts_of(fine@))
            <= limit {
            DisplayTier::Fine
        } else {
            DisplayTier::Preview
        }),
        fine@.len() > 0 ==> stats.triangles == (if stats.drawn == DisplayTier::Fine {
            total_of(counts_of(fine@))
        } else {
            total_of(counts_of(preview@))
        }),
        stats.over_budget == (stats.triangles > limit),
        fine@.len() > 0 ==> stats == decided(requested, limit, counts_of(fine@), counts_of(preview@)),
{
    let step = budget_start(fine.len() > 0, requested, limit);
    proof {
        lemma_budget_decision(requested, limit, counts_of(fine@), counts_of(preview@));
        lemma_tally_verdict_is_the_sets(counts_of(fine@), limit);
        lemma_tally_no_limit(counts_of(preview@));
    }
    match step {
        TierStep::Decided(stats) => stats,
        TierStep::Measure { tier, stop_past } => {
            let mut fine_fits = false;
            let mut fine_total: u64 = 0;
            if tier == DisplayTier::Fine {
                let tally = tally_lookups(fine, stop_past);
                fine_fits = !tally.exceeded(stop_past);
                fine_total = tally.triangles;
            }
            if fine_fits {
                verdict(limit, requested, DisplayTier::Fine, fine_total)
            } else {
                let tally = tally_lookups(preview, None);
                verdict(limit, requested, DisplayTier::Preview, tally.triangles)
            }
        },
    }
}

} // verus!
