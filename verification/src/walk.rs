//! The lowering walk over a pipeline's statements: Kahn's order (each
//! statement after every statement that defines a name it references;
//! what a cycle blocks is left over), and each statement's fate on the
//! way — red by its own diagnostics, blocked by an excluded or unknown
//! upstream name, or lowered — with the leftovers named as part of a
//! cycle.
use vstd::prelude::*;
use crate::status::texts;
use crate::targets::{
    first_unbound, lemma_first_unbound_prefix, mentions, statement_view, statement_views, Exclusion,
    StatementView, TargetStatement,
};
use crate::text::same_text;

verus! {

// -------------------------------------------------------------- order --

/// The last statement binding `name` (a later binding of a name wins).
pub open spec fn definer(stmts: Seq<StatementView>, name: Seq<char>) -> Option<int>
    decreases stmts.len(),
{
    if stmts.len() == 0 {
        None
    } else if stmts.last().targets.contains(name) {
        Some(stmts.len() - 1)
    } else {
        definer(stmts.drop_last(), name)
    }
}

/// Statement `d` defines a name statement `i` references.
pub open spec fn feeds(stmts: Seq<StatementView>, i: int, d: int) -> bool {
    exists|j: int|
        0 <= j < stmts[i].references.len() && #[trigger] definer(stmts, stmts[i].references[j]) == Some(d)
}

/// How many of the statements below `n` that feed `i` are not yet done.
pub open spec fn waiting(stmts: Seq<StatementView>, i: int, done: Seq<bool>, n: int) -> int
    decreases n,
{
    if n <= 0 {
        0
    } else {
        waiting(stmts, i, done, n - 1) + if feeds(stmts, i, n - 1) && !done[n - 1] {
            1int
        } else {
            0int
        }
    }
}

/// What `definer` finds: a statement binding the name, and none after it.
proof fn lemma_definer(stmts: Seq<StatementView>, name: Seq<char>)
    ensures
        definer(stmts, name) matches Some(d) ==> 0 <= d < stmts.len() && stmts[d].targets.contains(name)
            && forall|k: int| d < k < stmts.len() ==> !stmts[k].targets.contains(name),
        definer(stmts, name) is None ==> forall|k: int| 0 <= k < stmts.len() ==> !stmts[k].targets.contains(name),
    decreases stmts.len(),
{
    if stmts.len() > 0 && !stmts.last().targets.contains(name) {
        lemma_definer(stmts.drop_last(), name);
        assert forall|k: int| 0 <= k < stmts.len() - 1 implies stmts[k] == stmts.drop_last()[k] by {}
    }
}

/// Waiting counts are never negative, never above `n`, and zero exactly
/// when every feeding statement below `n` is done.
proof fn lemma_waiting(stmts: Seq<StatementView>, i: int, done: Seq<bool>, n: int)
    ensures
        0 <= waiting(stmts, i, done, n),
        n >= 0 ==> waiting(stmts, i, done, n) <= n,
        waiting(stmts, i, done, n) == 0 <==> forall|d: int| 0 <= d < n && feeds(stmts, i, d) ==> done[d],
    decreases n,
{
    if n > 0 {
        lemma_waiting(stmts, i, done, n - 1);
    }
}

/// Finishing `x` takes it off every waiting count it was on.
proof fn lemma_waiting_done(stmts: Seq<StatementView>, i: int, done: Seq<bool>, x: int, n: int)
    requires
        0 <= x < done.len(),
        n <= done.len(),
    ensures
        waiting(stmts, i, done.update(x, true), n) == waiting(stmts, i, done, n) - if 0 <= x < n && feeds(
            stmts,
            i,
            x,
        ) && !done[x] {
            1int
        } else {
            0int
        },
    decreases n,
{
    if n > 0 {
        lemma_waiting_done(stmts, i, done, x, n - 1);
    }
}

/// The statement that binds `name` last.
fn definer_of(stmts: &[TargetStatement], name: &str) -> (d: Option<usize>)
    ensures
        match d {
            Some(d) => definer(statement_views(stmts@), name@) == Some(d as int),
            None => definer(statement_views(stmts@), name@) is None,
        },
{
    let ghost sv = statement_views(stmts@);
    let mut k: usize = stmts.len();
    assert(sv.take(k as int) =~= sv);
    while k > 0
        invariant
            0 <= k <= stmts@.len(),
            sv == statement_views(stmts@),
            definer(sv, name@) == definer(sv.take(k as int), name@),
        decreases k,
    {
        let st = &stmts[k - 1];
        assert(sv[k - 1] == statement_view(*st));
        assert(sv.take(k as int).last() == sv[k - 1]);
        assert(sv.take(k as int).drop_last() =~= sv.take(k - 1));
        let mut j: usize = 0;
        let mut found = false;
        while j < st.targets.len()
            invariant
                0 <= j <= st.targets@.len(),
                texts(st.targets@) == sv[k - 1].targets,
                found == (exists|m: int| 0 <= m < j && texts(st.targets@)[m] == name@),
            decreases st.targets@.len() - j,
        {
            assert(texts(st.targets@)[j as int] == st.targets@[j as int]@);
            if same_text(st.targets[j].as_str(), name) {
                found = true;
            }
            j += 1;
        }
        if found {
            return Some(k - 1);
        }
        k -= 1;
    }
    None
}

/// The definers of statement `i`'s references, one per reference.
pub open spec fn definers_of(stmts: Seq<StatementView>, i: int) -> Seq<Option<int>> {
    stmts[i].references.map_values(|r: Seq<char>| definer(stmts, r))
}

/// The plain values of definer lists.
pub open spec fn opt_ints(ds: Seq<Option<usize>>) -> Seq<Option<int>> {
    ds.map_values(
        |d: Option<usize>|
            match d {
                Some(x) => Some(x as int),
                None => None,
            },
    )
}

/// Does one of `defs` name `d`?
fn names_definer(defs: &Vec<Option<usize>>, d: usize) -> (found: bool)
    ensures
        found == exists|j: int| 0 <= j < defs@.len() && #[trigger] opt_ints(defs@)[j] == Some(d as int),
{
    let mut j: usize = 0;
    while j < defs.len()
        invariant
            0 <= j <= defs@.len(),
            forall|m: int| 0 <= m < j ==> #[trigger] opt_ints(defs@)[m] != Some(d as int),
        decreases defs@.len() - j,
    {
        if defs[j] == Some(d) {
            assert(opt_ints(defs@)[j as int] == Some(d as int));
            return true;
        }
        j += 1;
    }
    false
}

/// The order the lowering walk visits statements in: Kahn's, first the
/// statements nothing feeds (by line), then each statement as soon as
/// the last statement feeding it has been visited.
pub struct WalkOrder {
    /// Statement indices, in visiting order.
    pub order: Vec<usize>,
}

/// `order` lists distinct statements, each after every statement that
/// feeds it, and every statement it leaves out is fed by another left
/// out (a cycle, or something behind one).
pub open spec fn kahn_order(stmts: Seq<StatementView>, order: Seq<usize>) -> bool {
    &&& forall|a: int| 0 <= a < order.len() ==> #[trigger] order[a] < stmts.len()
    &&& forall|a: int, b: int| 0 <= a < b < order.len() ==> order[a] != order[b]
    &&& forall|a: int, d: int|
        0 <= a < order.len() && #[trigger] feeds(stmts, order[a] as int, d) ==> exists|b: int|
            0 <= b < a && order[b] == d
    &&& forall|i: int|
        0 <= i < stmts.len() && !#[trigger] listed(order, i) ==> exists|d: int|
            0 <= d < stmts.len() && #[trigger] feeds(stmts, i, d) && !listed(order, d)
}

/// Every statement feeding the `a`-th of `order` comes before it.
pub open spec fn fed_before(stmts: Seq<StatementView>, order: Seq<usize>, a: int) -> bool {
    forall|e: int| #[trigger] feeds(stmts, order[a] as int, e) ==> exists|q: int| 0 <= q < a && order[q] == e as usize
}

/// Statement `i` is in `order`.
pub open spec fn listed(order: Seq<usize>, i: int) -> bool {
    order.contains(i as usize)
}

/// Feeding statements are statements.
proof fn lemma_feeds_in_range(stmts: Seq<StatementView>, i: int, d: int)
    requires
        feeds(stmts, i, d),
    ensures
        0 <= d < stmts.len(),
{
    let j = choose|j: int|
        0 <= j < stmts[i].references.len() && #[trigger] definer(stmts, stmts[i].references[j]) == Some(d);
    lemma_definer(stmts, stmts[i].references[j]);
}

/// Strictly increasing.
pub open spec fn rising(s: Seq<usize>) -> bool {
    forall|a: int, b: int| 0 <= a < b < s.len() ==> #[trigger] s[a] < #[trigger] s[b]
}

/// Two strictly increasing sequences of the same elements are the same.
proof fn lemma_rising_unique(a: Seq<usize>, b: Seq<usize>)
    requires
        rising(a),
        rising(b),
        forall|v: usize| a.contains(v) <==> b.contains(v),
    ensures
        a == b,
    decreases a.len(),
{
    if a.len() == 0 {
        if b.len() > 0 {
            assert(b.contains(b[0]));
        }
        assert(a =~= b);
    } else {
        assert(a.contains(a[0]));
        assert(b.len() > 0);
        assert(b.contains(b[0]));
        let i = choose|i: int| 0 <= i < a.len() && a[i] == b[0];
        let j = choose|j: int| 0 <= j < b.len() && b[j] == a[0];
        if j > 0 {
            assert(b[0] < b[j]);
            if i > 0 {
                assert(a[0] < a[i]);
            }
        }
        let ra = a.drop_first();
        let rb = b.drop_first();
        assert forall|v: usize| ra.contains(v) <==> rb.contains(v) by {
            if ra.contains(v) {
                let p = choose|p: int| 0 <= p < ra.len() && ra[p] == v;
                assert(a[p + 1] == v);
                assert(a.contains(v));
                let q = choose|q: int| 0 <= q < b.len() && b[q] == v;
                if q == 0 {
                    assert(a[0] < a[p + 1]);
                }
                assert(rb[q - 1] == v);
            }
            if rb.contains(v) {
                let p = choose|p: int| 0 <= p < rb.len() && rb[p] == v;
                assert(b[p + 1] == v);
                assert(b.contains(v));
                let q = choose|q: int| 0 <= q < a.len() && a[q] == v;
                if q == 0 {
                    assert(b[0] < b[p + 1]);
                }
                assert(ra[q - 1] == v);
            }
        }
        lemma_rising_unique(ra, rb);
        assert(a =~= seq![a[0]] + ra);
        assert(b =~= seq![b[0]] + rb);
    }
}

/// The statements below `m`, in order, that finishing `x` frees: fed by
/// `x` and waiting on it alone.
pub open spec fn freed_by(stmts: Seq<StatementView>, x: int, done: Seq<bool>, n: int, m: int) -> Seq<usize>
    decreases m,
{
    if m <= 0 {
        Seq::empty()
    } else {
        let before = freed_by(stmts, x, done, n, m - 1);
        if feeds(stmts, m - 1, x) && waiting(stmts, m - 1, done, n) == 1 {
            before.push((m - 1) as usize)
        } else {
            before
        }
    }
}

/// The statements below `m`, in order, that nothing feeds.
pub open spec fn roots_below(stmts: Seq<StatementView>, n: int, m: int) -> Seq<usize>
    decreases m,
{
    if m <= 0 {
        Seq::empty()
    } else {
        let before = roots_below(stmts, n, m - 1);
        if waiting(stmts, m - 1, Seq::new(n as nat, |k: int| false), n) == 0 {
            before.push((m - 1) as usize)
        } else {
            before
        }
    }
}

/// The queue of a first-in first-out walk after its remaining steps: the
/// statement at `head` is finished, the statements it frees join the
/// back of the queue, and so on while the queue has statements left.
pub open spec fn fifo_walk(
    stmts: Seq<StatementView>,
    n: int,
    queue: Seq<usize>,
    head: int,
    done: Seq<bool>,
    fuel: nat,
) -> Seq<usize>
    decreases fuel,
{
    if fuel == 0 || head < 0 || head >= queue.len() {
        queue
    } else {
        let x = queue[head] as int;
        fifo_walk(
            stmts,
            n,
            queue + freed_by(stmts, x, done, n, n),
            head + 1,
            done.update(x, true),
            (fuel - 1) as nat,
        )
    }
}

/// Kahn's walk, exactly: the statements nothing feeds, by line, then each
/// statement as soon as the last statement feeding it is finished — the
/// statements one finishing frees joining the queue by line.
pub open spec fn kahn_walk(stmts: Seq<StatementView>) -> Seq<usize> {
    let n = stmts.len() as int;
    fifo_walk(stmts, n, roots_below(stmts, n, n), 0, Seq::new(n as nat, |k: int| false), n as nat)
}

proof fn lemma_freed_by(stmts: Seq<StatementView>, x: int, done: Seq<bool>, n: int, m: int)
    requires
        m <= usize::MAX,
    ensures
        rising(freed_by(stmts, x, done, n, m)),
        forall|v: usize|
            #[trigger] freed_by(stmts, x, done, n, m).contains(v) <==> (v < m && feeds(stmts, v as int, x)
                && waiting(stmts, v as int, done, n) == 1),
    decreases m,
{
    if m > 0 {
        lemma_freed_by(stmts, x, done, n, m - 1);
        let before = freed_by(stmts, x, done, n, m - 1);
        let now = freed_by(stmts, x, done, n, m);
        let last = (m - 1) as usize;
        if feeds(stmts, m - 1, x) && waiting(stmts, m - 1, done, n) == 1 {
            assert(now =~= before.push(last));
            assert forall|v: usize| now.contains(v) <==> (v < m && feeds(stmts, v as int, x) && waiting(
                stmts,
                v as int,
                done,
                n,
            ) == 1) by {
                if now.contains(v) {
                    let p = choose|p: int| 0 <= p < now.len() && now[p] == v;
                    if p < before.len() {
                        assert(before[p] == v);
                        assert(before.contains(v));
                    }
                }
                if v < m && feeds(stmts, v as int, x) && waiting(stmts, v as int, done, n) == 1 {
                    if v == last {
                        assert(now[before.len() as int] == v);
                    } else {
                        assert(before.contains(v));
                        let p = choose|p: int| 0 <= p < before.len() && before[p] == v;
                        assert(now[p] == v);
                    }
                }
            }
            assert forall|a: int, b: int| 0 <= a < b < now.len() implies #[trigger] now[a] < #[trigger] now[b] by {
                if b < before.len() {
                    assert(now[a] == before[a] && now[b] == before[b]);
                } else {
                    assert(now[a] == before[a]);
                    assert(before.contains(before[a]));
                }
            }
        } else {
            assert(now == before);
        }
    } else {
        assert(freed_by(stmts, x, done, n, m) =~= Seq::<usize>::empty());
    }
}

/// Kahn's order of the statements.
pub fn walk_order(stmts: &[TargetStatement]) -> (walk: WalkOrder)
    ensures
        walk.order@ == kahn_walk(statement_views(stmts@)),
        kahn_order(statement_views(stmts@), walk.order@),
{
    let ghost sv = statement_views(stmts@);
    let n = stmts.len();
    // Each reference's definer.
    let mut defs: Vec<Vec<Option<usize>>> = Vec::new();
    let mut i: usize = 0;
    while i < n
        invariant
            0 <= i <= n,
            n == stmts@.len(),
            sv == statement_views(stmts@),
            defs@.len() == i,
            forall|k: int| 0 <= k < i ==> #[trigger] opt_ints(defs@[k]@) == definers_of(sv, k),
        decreases n - i,
    {
        let st = &stmts[i];
        assert(sv[i as int] == statement_view(*st));
        let mut row: Vec<Option<usize>> = Vec::new();
        let mut j: usize = 0;
        while j < st.references.len()
            invariant
                0 <= j <= st.references@.len(),
                0 <= i < n,
                sv == statement_views(stmts@),
                texts(st.references@) == sv[i as int].references,
                opt_ints(row@) == definers_of(sv, i as int).take(j as int),
            decreases st.references@.len() - j,
        {
            assert(texts(st.references@)[j as int] == st.references@[j as int]@);
            let d = definer_of(stmts, st.references[j].as_str());
            let ghost prev = row@;
            row.push(d);
            assert(row@ =~= prev.push(d));
            assert(definers_of(sv, i as int).take(j + 1) =~= definers_of(sv, i as int).take(j as int).push(
                definers_of(sv, i as int)[j as int],
            ));
            assert(opt_ints(row@) =~= opt_ints(prev).push(definers_of(sv, i as int)[j as int]));
            j += 1;
        }
        assert(definers_of(sv, i as int).take(j as int) =~= definers_of(sv, i as int));
        defs.push(row);
        i += 1;
    }
    // Who feeds whom: `fed[d]` lists, ascending, the statements `d` feeds;
    // `pending[i]` counts the statements feeding `i`.
    let ghost none: Seq<bool> = Seq::new(n as nat, |k: int| false);
    let mut pending: Vec<usize> = Vec::new();
    let mut fed: Vec<Vec<usize>> = Vec::new();
    let mut d: usize = 0;
    while d < n
        invariant
            0 <= d <= n,
            n == stmts@.len(),
            sv == statement_views(stmts@),
            defs@.len() == n,
            forall|k: int| 0 <= k < n ==> #[trigger] opt_ints(defs@[k]@) == definers_of(sv, k),
            fed@.len() == d,
            forall|x: int, p: int|
                0 <= x < d && 0 <= p < fed@[x]@.len() ==> #[trigger] fed@[x]@[p] < n && feeds(
                    sv,
                    fed@[x]@[p] as int,
                    x,
                ),
            forall|x: int, p: int, q: int|
                0 <= x < d && 0 <= p < q < fed@[x]@.len() ==> #[trigger] fed@[x]@[p] < #[trigger] fed@[x]@[q],
            forall|x: int, k: int|
                0 <= x < d && 0 <= k < n && feeds(sv, k, x) ==> #[trigger] fed@[x]@.contains(k as usize),
        decreases n - d,
    {
        let mut row: Vec<usize> = Vec::new();
        let mut k: usize = 0;
        while k < n
            invariant
                0 <= k <= n,
                0 <= d < n,
                n == stmts@.len(),
                sv == statement_views(stmts@),
                defs@.len() == n,
                forall|m: int| 0 <= m < n ==> #[trigger] opt_ints(defs@[m]@) == definers_of(sv, m),
                forall|p: int| 0 <= p < row@.len() ==> #[trigger] row@[p] < k && feeds(sv, row@[p] as int, d as int),
                forall|p: int, q: int| 0 <= p < q < row@.len() ==> #[trigger] row@[p] < #[trigger] row@[q],
                forall|m: int| 0 <= m < k && feeds(sv, m, d as int) ==> #[trigger] row@.contains(m as usize),
            decreases n - k,
        {
            let up = names_definer(&defs[k], d);
            proof {
                assert(opt_ints(defs@[k as int]@) == definers_of(sv, k as int));
                if up {
                    let j = choose|j: int|
                        0 <= j < defs@[k as int]@.len() && #[trigger] opt_ints(defs@[k as int]@)[j] == Some(
                            d as int,
                        );
                    assert(definer(sv, sv[k as int].references[j]) == Some(d as int));
                }
                if feeds(sv, k as int, d as int) {
                    let j = choose|j: int|
                        0 <= j < sv[k as int].references.len() && #[trigger] definer(
                            sv,
                            sv[k as int].references[j],
                        ) == Some(d as int);
                    assert(opt_ints(defs@[k as int]@)[j] == Some(d as int));
                }
            }
            if up {
                let ghost prev = row@;
                row.push(k);
                assert(row@ =~= prev.push(k));
                assert forall|m: int| 0 <= m < k + 1 && feeds(sv, m, d as int) implies #[trigger] row@.contains(
                    m as usize,
                ) by {
                    if m < k {
                        assert(prev.contains(m as usize));
                        let p = choose|p: int| 0 <= p < prev.len() && prev[p] == m as usize;
                        assert(row@[p] == m as usize);
                    } else {
                        assert(row@[prev.len() as int] == k);
                    }
                }
            }
            k += 1;
        }
        fed.push(row);
        d += 1;
    }
    let mut k: usize = 0;
    while k < n
        invariant
            0 <= k <= n,
            n == stmts@.len(),
            sv == statement_views(stmts@),
            defs@.len() == n,
            forall|m: int| 0 <= m < n ==> #[trigger] opt_ints(defs@[m]@) == definers_of(sv, m),
            none == Seq::new(n as nat, |m: int| false),
            pending@.len() == k,
            forall|m: int| 0 <= m < k ==> #[trigger] pending@[m] as int == waiting(sv, m, none, n as int),
            fed@.len() == n,
            forall|x: int, p: int|
                0 <= x < n && 0 <= p < fed@[x]@.len() ==> #[trigger] fed@[x]@[p] < n && feeds(
                    sv,
                    fed@[x]@[p] as int,
                    x,
                ),
            forall|x: int, p: int, q: int|
                0 <= x < n && 0 <= p < q < fed@[x]@.len() ==> #[trigger] fed@[x]@[p] < #[trigger] fed@[x]@[q],
            forall|x: int, k: int|
                0 <= x < n && 0 <= k < n && feeds(sv, k, x) ==> #[trigger] fed@[x]@.contains(k as usize),
        decreases n - k,
    {
        let mut count: usize = 0;
        let mut x: usize = 0;
        while x < n
            invariant
                0 <= x <= n,
                0 <= k < n,
                n == stmts@.len(),
                sv == statement_views(stmts@),
                defs@.len() == n,
                forall|m: int| 0 <= m < n ==> #[trigger] opt_ints(defs@[m]@) == definers_of(sv, m),
                none == Seq::new(n as nat, |m: int| false),
                count as int == waiting(sv, k as int, none, x as int),
                count <= x,
            decreases n - x,
        {
            let up = names_definer(&defs[k], x);
            proof {
                assert(opt_ints(defs@[k as int]@) == definers_of(sv, k as int));
                if up {
                    let j = choose|j: int|
                        0 <= j < defs@[k as int]@.len() && #[trigger] opt_ints(defs@[k as int]@)[j] == Some(
                            x as int,
                        );
                    assert(definer(sv, sv[k as int].references[j]) == Some(x as int));
                }
                if feeds(sv, k as int, x as int) {
                    let j = choose|j: int|
                        0 <= j < sv[k as int].references.len() && #[trigger] definer(
                            sv,
                            sv[k as int].references[j],
                        ) == Some(x as int);
                    assert(opt_ints(defs@[k as int]@)[j] == Some(x as int));
                }
            }
            if up {
                count += 1;
            }
            x += 1;
        }
        pending.push(count);
        k += 1;
    }
    // Kahn's walk: the roots by line, then each statement once the last
    // statement feeding it is done.
    let mut done: Vec<bool> = Vec::new();
    let mut ready: Vec<usize> = Vec::new();
    let mut r: usize = 0;
    while r < n
        invariant
            0 <= r <= n,
            n == stmts@.len(),
            sv == statement_views(stmts@),
            none == Seq::new(n as nat, |m: int| false),
            pending@.len() == n,
            forall|m: int| 0 <= m < n ==> #[trigger] pending@[m] as int == waiting(sv, m, none, n as int),
            fed@.len() == n,
            forall|x: int, p: int|
                0 <= x < n && 0 <= p < fed@[x]@.len() ==> #[trigger] fed@[x]@[p] < n && feeds(
                    sv,
                    fed@[x]@[p] as int,
                    x,
                ),
            forall|x: int, p: int, q: int|
                0 <= x < n && 0 <= p < q < fed@[x]@.len() ==> #[trigger] fed@[x]@[p] < #[trigger] fed@[x]@[q],
            forall|x: int, k: int|
                0 <= x < n && 0 <= k < n && feeds(sv, k, x) ==> #[trigger] fed@[x]@.contains(k as usize),
            done@ == Seq::new(r as nat, |m: int| false),
            forall|p: int| 0 <= p < ready@.len() ==> #[trigger] ready@[p] < r,
            forall|p: int, q: int| 0 <= p < q < ready@.len() ==> #[trigger] ready@[p] < #[trigger] ready@[q],
            forall|m: int| 0 <= m < r ==> (#[trigger] ready@.contains(m as usize) <==> pending@[m] == 0),
            ready@ == roots_below(sv, n as int, r as int),
        decreases n - r,
    {
        done.push(false);
        let ghost prev = ready@;
        if pending[r] == 0 {
            ready.push(r);
            assert(ready@ =~= prev.push(r));
            assert(ready@[prev.len() as int] == r);
        }
        assert(ready@ == roots_below(sv, n as int, r + 1));
        proof {
            assert forall|m: int| 0 <= m < r + 1 implies (#[trigger] ready@.contains(m as usize) <==> pending@[m]
                == 0) by {
                if ready@.contains(m as usize) {
                    let p = choose|p: int| 0 <= p < ready@.len() && ready@[p] == m as usize;
                    if m != r {
                        assert(p < prev.len());
                        assert(prev.contains(m as usize));
                    }
                }
                if m < r && prev.contains(m as usize) {
                    let p = choose|p: int| 0 <= p < prev.len() && prev[p] == m as usize;
                    assert(ready@[p] == m as usize);
                }
                if m == r && ready@.contains(m as usize) && pending@[m] != 0 {
                    let p = choose|p: int| 0 <= p < ready@.len() && ready@[p] == m as usize;
                    assert(ready@ == prev);
                    assert(prev[p] < r);
                }
            }
        }
        r += 1;
    }
    assert(done@ =~= none);
    proof {
        assert forall|p: int| 0 <= p < ready@.len() implies #[trigger] fed_before(sv, ready@, p) by {
            let m = ready@[p] as int;
            assert(ready@.contains(m as usize));
            assert(pending@[m] == 0);
            assert(waiting(sv, m, none, n as int) == 0);
            lemma_waiting(sv, m, none, n as int);
            assert forall|e: int| #[trigger] feeds(sv, ready@[p] as int, e) implies false by {
                lemma_feeds_in_range(sv, m, e);
                assert(!none[e]);
            }
        }
    }
    proof {
        lemma_undone_none(n as int);
        assert(done@ =~= Seq::new(n as nat, |m: int| false));
    }
    let mut head: usize = 0;
    while head < ready.len()
        invariant
            fifo_walk(sv, n as int, ready@, head as int, done@, undone(done@, n as int) as nat) == kahn_walk(sv),
            undone(done@, n as int) >= 0,
            n <= usize::MAX,
            0 <= head <= ready@.len(),
            n == stmts@.len(),
            sv == statement_views(stmts@),
            pending@.len() == n,
            done@.len() == n,
            fed@.len() == n,
            forall|x: int, p: int|
                0 <= x < n && 0 <= p < fed@[x]@.len() ==> #[trigger] fed@[x]@[p] < n && feeds(
                    sv,
                    fed@[x]@[p] as int,
                    x,
                ),
            forall|x: int, p: int, q: int|
                0 <= x < n && 0 <= p < q < fed@[x]@.len() ==> #[trigger] fed@[x]@[p] < #[trigger] fed@[x]@[q],
            forall|x: int, k: int|
                0 <= x < n && 0 <= k < n && feeds(sv, k, x) ==> #[trigger] fed@[x]@.contains(k as usize),
            forall|p: int| 0 <= p < ready@.len() ==> #[trigger] ready@[p] < n,
            forall|p: int, q: int| 0 <= p < q < ready@.len() ==> ready@[p] != ready@[q],
            forall|m: int| 0 <= m < n ==> (#[trigger] done@[m] <==> ready@.take(head as int).contains(m as usize)),
            forall|m: int| 0 <= m < n ==> #[trigger] pending@[m] as int == waiting(sv, m, done@, n as int),
            forall|m: int|
                0 <= m < n ==> (#[trigger] ready@.contains(m as usize) <==> waiting(sv, m, done@, n as int) == 0),
            forall|p: int| 0 <= p < ready@.len() ==> #[trigger] fed_before(sv, ready@, p),
        decreases undone(done@, n as int),
    {
        let x = ready[head];
        let ghost before = done@;
        proof {
            assert(!ready@.take(head as int).contains(x)) by {
                if ready@.take(head as int).contains(x) {
                    let q = choose|q: int| 0 <= q < head && ready@.take(head as int)[q] == x;
                    assert(ready@[q] == ready@[head as int]);
                }
            }
            assert(!before[x as int]);
            lemma_undone_done(before, x as int, n as int);
        }
        let ghost h0 = head as int;
        done.set(x, true);
        head += 1;
        proof {
            assert(ready@.take(head as int) =~= ready@.take(h0).push(x));
            assert forall|m: int| 0 <= m < n implies (#[trigger] done@[m] <==> ready@.take(head as int).contains(
                m as usize,
            )) by {
                if m == x {
                    assert(ready@.take(head as int)[h0] == x);
                } else {
                    assert(done@[m] == before[m]);
                    if ready@.take(head as int).contains(m as usize) {
                        let q = choose|q: int| 0 <= q < head && ready@.take(head as int)[q] == m as usize;
                        assert(ready@.take(h0)[q] == m as usize);
                    }
                    if ready@.take(h0).contains(m as usize) {
                        let q = choose|q: int| 0 <= q < h0 && ready@.take(h0)[q] == m as usize;
                        assert(ready@.take(head as int)[q] == m as usize);
                    }
                }
            }
            assert forall|m: int| 0 <= m < n implies waiting(sv, m, done@, n as int) == waiting(sv, m, before, n as int)
                - if feeds(sv, m, x as int) {
                1int
            } else {
                0int
            } by {
                assert(done@ == before.update(x as int, true));
                lemma_waiting_done(sv, m, before, x as int, n as int);
            }
        }
        let row = &fed[x];
        let ghost q0 = ready@;
        let ghost start = q0.len() as int;
        proof {
            assert(ready@.skip(start) =~= Seq::<usize>::empty());
            assert(ready@.take(start) =~= q0);
            assert(row@.take(0) =~= Seq::<usize>::empty());
        }
        proof {
            assert(row@.subrange(0, row@.len() as int) =~= row@);
            assert forall|m: int| 0 <= m < n implies (row@.contains(m as usize) <==> feeds(sv, m, x as int)) by {
                if row@.contains(m as usize) {
                    let a = choose|a: int| 0 <= a < row@.len() && row@[a] == m as usize;
                    assert(fed@[x as int]@[a] == m as usize);
                }
            }
            assert forall|m: int| 0 <= m < n && feeds(sv, m, x as int) implies !ready@.contains(m as usize) by {
                lemma_waiting(sv, m, before, n as int);
                assert(!before[x as int]);
                assert(waiting(sv, m, before, n as int) != 0);
            }
        }
        let mut p: usize = 0;
        while p < row.len()
            invariant
                0 <= p <= row@.len(),
                0 <= x < n,
                row@ == fed@[x as int]@,
                0 < head <= ready@.len(),
                n == stmts@.len(),
                sv == statement_views(stmts@),
                pending@.len() == n,
                done@.len() == n,
                done@[x as int],
                forall|a: int| 0 <= a < row@.len() ==> #[trigger] row@[a] < n && feeds(sv, row@[a] as int, x as int),
                forall|a: int, b: int| 0 <= a < b < row@.len() ==> #[trigger] row@[a] < #[trigger] row@[b],
                forall|k: int| 0 <= k < n && feeds(sv, k, x as int) ==> #[trigger] row@.contains(k as usize),
                forall|a: int| 0 <= a < ready@.len() ==> #[trigger] ready@[a] < n,
                forall|a: int, b: int| 0 <= a < b < ready@.len() ==> ready@[a] != ready@[b],
                forall|m: int| 0 <= m < n ==> (#[trigger] done@[m] <==> ready@.take(head as int).contains(m as usize)),
                forall|m: int|
                    0 <= m < n ==> #[trigger] pending@[m] as int == waiting(sv, m, done@, n as int) + if row@.subrange(
                        p as int,
                        row@.len() as int,
                    ).contains(m as usize) {
                        1int
                    } else {
                        0int
                    },
                forall|m: int|
                    0 <= m < n && !row@.subrange(p as int, row@.len() as int).contains(m as usize) ==> (
                    #[trigger] ready@.contains(m as usize) <==> waiting(sv, m, done@, n as int) == 0),
                forall|m: int|
                    0 <= m < n && row@.subrange(p as int, row@.len() as int).contains(m as usize) ==> !(
                    #[trigger] ready@.contains(m as usize)),
                forall|a: int| 0 <= a < ready@.len() ==> #[trigger] fed_before(sv, ready@, a),
                start == q0.len(),
                ready@.len() >= start,
                ready@.take(start) == q0,
                rising(ready@.skip(start)),
                forall|v: usize|
                    #[trigger] ready@.skip(start).contains(v) <==> (row@.take(p as int).contains(v) && waiting(
                        sv,
                        v as int,
                        before,
                        n as int,
                    ) == 1),
                forall|m: int|
                    0 <= m < n ==> #[trigger] waiting(sv, m, done@, n as int) == waiting(sv, m, before, n as int)
                        - if feeds(sv, m, x as int) {
                        1int
                    } else {
                        0int
                    },
            decreases row@.len() - p,
        {
            let m = row[p];
            let ghost rest = row@.subrange(p as int, row@.len() as int);
            let ghost after = row@.subrange(p + 1, row@.len() as int);
            assert(rest[0] == m);
            assert(rest.contains(m));
            assert(!after.contains(m)) by {
                if after.contains(m) {
                    let a = choose|a: int| 0 <= a < after.len() && after[a] == m;
                    assert(row@[p + 1 + a] == m);
                }
            }
            assert forall|v: usize| #[trigger] rest.contains(v) && v != m implies after.contains(v) by {
                let a = choose|a: int| 0 <= a < rest.len() && rest[a] == v;
                assert(a != 0);
                assert(after[a - 1] == v);
            }
            assert forall|v: usize| #[trigger] after.contains(v) implies rest.contains(v) by {
                let a = choose|a: int| 0 <= a < after.len() && after[a] == v;
                assert(rest[a + 1] == v);
            }
            proof {
                lemma_waiting(sv, m as int, done@, n as int);
                assert(pending@[m as int] as int == waiting(sv, m as int, done@, n as int) + 1);
            }
            let left = pending[m] - 1;
            pending.set(m, left);
            let ghost prev_ready = ready@;
            proof {
                assert(row@.take(p + 1) =~= row@.take(p as int).push(m));
                assert(feeds(sv, m as int, x as int));
                assert((left == 0) == (waiting(sv, m as int, before, n as int) == 1));
                assert forall|v: usize| #[trigger] row@.take(p as int).contains(v) implies v < m by {
                    let seen_before = row@.take(p as int);
                    let q = choose|q: int| 0 <= q < seen_before.len() && seen_before[q] == v;
                    assert(row@[q] == v);
                }
            }
            if left == 0 {
                let ghost prev = ready@;
                ready.push(m);
                assert(ready@ =~= prev.push(m));
                proof {
                    assert(ready@.take(start) =~= prev.take(start));
                    assert(ready@.skip(start) =~= prev.skip(start).push(m));
                    assert forall|a: int, b: int| 0 <= a < b < ready@.skip(start).len() implies #[trigger] ready@.skip(start)[a]
                        < #[trigger] ready@.skip(start)[b] by {
                        let old_tail = prev.skip(start);
                        if b < old_tail.len() {
                            assert(ready@.skip(start)[a] == old_tail[a] && ready@.skip(start)[b] == old_tail[b]);
                        } else {
                            assert(ready@.skip(start)[a] == old_tail[a]);
                            assert(old_tail.contains(old_tail[a]));
                        }
                    }
                    assert forall|v: usize| #[trigger] ready@.skip(start).contains(v) <==> (row@.take(p + 1).contains(v)
                        && waiting(sv, v as int, before, n as int) == 1) by {
                        let old_tail = prev.skip(start);
                        lemma_push_contains(old_tail, m, v);
                        lemma_push_contains(row@.take(p as int), m, v);
                        assert(old_tail.contains(v) <==> (row@.take(p as int).contains(v) && waiting(
                            sv,
                            v as int,
                            before,
                            n as int,
                        ) == 1));
                    }
                }
                proof {
                    assert(ready@[prev.len() as int] == m);
                    assert(!prev.contains(m));
                    assert forall|a: int, b: int| 0 <= a < b < ready@.len() implies ready@[a] != ready@[b] by {
                        if b == prev.len() {
                            assert(ready@[a] == prev[a]);
                        } else {
                            assert(ready@[a] == prev[a] && ready@[b] == prev[b]);
                        }
                    }
                    assert forall|e: int| #[trigger] feeds(sv, m as int, e) implies exists|q: int|
                        0 <= q < prev.len() && ready@[q] == e as usize by {
                        lemma_feeds_in_range(sv, m as int, e);
                        lemma_waiting(sv, m as int, done@, n as int);
                        assert(done@[e]);
                        assert(prev.take(head as int).contains(e as usize));
                        let q = choose|q: int| 0 <= q < head && prev.take(head as int)[q] == e as usize;
                        assert(ready@[q] == e as usize);
                    }
                    assert forall|a: int| 0 <= a < ready@.len() implies #[trigger] fed_before(sv, ready@, a) by {
                        if a < prev.len() {
                            assert(ready@[a] == prev[a]);
                            assert(fed_before(sv, prev, a));
                            assert forall|e: int| #[trigger] feeds(sv, ready@[a] as int, e) implies exists|q: int|
                                0 <= q < a && ready@[q] == e as usize by {
                                let q = choose|q: int| 0 <= q < a && prev[q] == e as usize;
                                assert(ready@[q] == e as usize);
                            }
                        }
                    }
                    assert(ready@.take(head as int) =~= prev.take(head as int));
                    assert forall|v: int| 0 <= v < n && #[trigger] ready@.contains(v as usize) && v != m implies prev.contains(
                        v as usize,
                    ) by {
                        let a = choose|a: int| 0 <= a < ready@.len() && ready@[a] == v as usize;
                        assert(a < prev.len());
                    }
                    assert forall|v: int| 0 <= v < n && prev.contains(v as usize) implies #[trigger] ready@.contains(
                        v as usize,
                    ) by {
                        let a = choose|a: int| 0 <= a < prev.len() && prev[a] == v as usize;
                        assert(ready@[a] == v as usize);
                    }
                }
            }
            proof {
                if left != 0 {
                    assert(ready@ == prev_ready);
                    assert forall|v: usize| #[trigger] ready@.skip(start).contains(v) <==> (row@.take(p + 1).contains(v)
                        && waiting(sv, v as int, before, n as int) == 1) by {
                        let seen_now = row@.take(p + 1);
                        if seen_now.contains(v) && v != m {
                            let q = choose|q: int| 0 <= q < seen_now.len() && seen_now[q] == v;
                            assert(q < p);
                            assert(row@.take(p as int)[q] == v);
                        }
                        let seen_before = row@.take(p as int);
                        if seen_before.contains(v) {
                            let q = choose|q: int| 0 <= q < seen_before.len() && seen_before[q] == v;
                            assert(row@.take(p + 1)[q] == v);
                        }
                    }
                }
            }
            p += 1;
        }
        proof {
            assert(row@.subrange(row@.len() as int, row@.len() as int) =~= Seq::<usize>::empty());
            assert(row@.take(row@.len() as int) =~= row@);
            let freed = freed_by(sv, x as int, before, n as int, n as int);
            lemma_freed_by(sv, x as int, before, n as int, n as int);
            assert forall|v: usize| ready@.skip(start).contains(v) <==> freed.contains(v) by {
                if ready@.skip(start).contains(v) {
                    assert(row@.contains(v));
                    let a = choose|a: int| 0 <= a < row@.len() && row@[a] == v;
                    assert(fed@[x as int]@[a] == v);
                }
                if freed.contains(v) {
                    assert(row@.contains(v));
                }
            }
            lemma_rising_unique(ready@.skip(start), freed);
            assert(ready@ =~= q0 + freed);
            assert(undone(before, n as int) >= 1);
            assert(fifo_walk(sv, n as int, q0, h0, before, undone(before, n as int) as nat) == fifo_walk(
                sv,
                n as int,
                q0 + freed,
                h0 + 1,
                before.update(x as int, true),
                (undone(before, n as int) - 1) as nat,
            ));
        }
    }
    proof {
        assert(ready@.take(head as int) =~= ready@);
        let order = ready@;
        assert forall|a: int, d: int|
            0 <= a < order.len() && #[trigger] feeds(sv, order[a] as int, d) implies exists|b: int|
            0 <= b < a && order[b] == d by {
            assert(fed_before(sv, order, a));
            let q = choose|q: int| 0 <= q < a && order[q] == d as usize;
            lemma_feeds_in_range(sv, order[a] as int, d);
            assert(order[q] == d);
        }
        assert forall|i: int|
            0 <= i < sv.len() && !#[trigger] listed(order, i) implies exists|d: int|
            0 <= d < sv.len() && #[trigger] feeds(sv, i, d) && !listed(order, d) by {
            assert(!ready@.contains(i as usize));
            lemma_waiting(sv, i, done@, n as int);
            let d = choose|d: int| 0 <= d < n && feeds(sv, i, d) && !done@[d];
            assert(!order.contains(d as usize));
        }
    }
    WalkOrder { order: ready }
}

/// How many statements below `n` are not done.
pub open spec fn undone(done: Seq<bool>, n: int) -> int
    decreases n,
{
    if n <= 0 {
        0
    } else {
        undone(done, n - 1) + if !done[n - 1] {
            1int
        } else {
            0int
        }
    }
}

/// Finishing an undone statement leaves one fewer undone.
proof fn lemma_undone_done(done: Seq<bool>, x: int, n: int)
    requires
        0 <= x < n <= done.len(),
        !done[x],
    ensures
        undone(done.update(x, true), n) == undone(done, n) - 1,
        undone(done.update(x, true), n) >= 0,
    decreases n,
{
    if n - 1 > x {
        lemma_undone_done(done, x, n - 1);
    } else {
        lemma_undone_nonneg(done, n - 1);
        lemma_undone_same(done, x, n - 1);
    }
}

/// What a pushed sequence contains.
proof fn lemma_push_contains(s: Seq<usize>, x: usize, v: usize)
    ensures
        s.push(x).contains(v) <==> (s.contains(v) || v == x),
{
    if s.push(x).contains(v) && v != x {
        let a = choose|a: int| 0 <= a < s.push(x).len() && s.push(x)[a] == v;
        assert(s[a] == v);
    }
    if s.contains(v) {
        let a = choose|a: int| 0 <= a < s.len() && s[a] == v;
        assert(s.push(x)[a] == v);
    }
    if v == x {
        assert(s.push(x)[s.len() as int] == v);
    }
}

proof fn lemma_undone_none(n: int)
    requires
        n >= 0,
    ensures
        undone(Seq::new(n as nat, |m: int| false), n) == n,
{
    lemma_undone_prefix_none(n, n);
}

proof fn lemma_undone_prefix_none(n: int, k: int)
    requires
        0 <= k <= n,
    ensures
        undone(Seq::new(n as nat, |m: int| false), k) == k,
    decreases k,
{
    if k > 0 {
        lemma_undone_prefix_none(n, k - 1);
    }
}

proof fn lemma_undone_nonneg(done: Seq<bool>, n: int)
    ensures
        undone(done, n) >= 0,
    decreases n,
{
    if n > 0 {
        lemma_undone_nonneg(done, n - 1);
    }
}

proof fn lemma_undone_same(done: Seq<bool>, x: int, n: int)
    requires
        0 <= n <= x < done.len(),
    ensures
        undone(done.update(x, true), n) == undone(done, n),
    decreases n,
{
    if n > 0 {
        lemma_undone_same(done, x, n - 1);
    }
}


// -------------------------------------------------------------- fates --

impl Exclusion {
    /// The same exclusion, as a new value.
    pub fn duplicate(&self) -> (copy: Exclusion)
        ensures
            copy == *self,
    {
        match self {
            Exclusion::Diagnostics => Exclusion::Diagnostics,
            Exclusion::Disabled => Exclusion::Disabled,
            Exclusion::Lowering(message) => Exclusion::Lowering(message.clone()),
            Exclusion::FedBy(upstream) => Exclusion::FedBy(upstream.clone()),
        }
    }
}

/// The bindings excluded so far, each with why (a later entry for a name
/// replaces an earlier one).
pub struct Excluded {
    /// The entries, in the order they were made.
    pub entries: Vec<(String, Exclusion)>,
}

/// The exclusions as a map from binding name.
pub open spec fn excluded_map(entries: Seq<(String, Exclusion)>) -> Map<Seq<char>, Exclusion>
    decreases entries.len(),
{
    if entries.len() == 0 {
        Map::empty()
    } else {
        excluded_map(entries.drop_last()).insert(entries.last().0@, entries.last().1)
    }
}

impl Excluded {
    /// Nothing excluded.
    pub fn new() -> (excluded: Excluded)
        ensures
            excluded_map(excluded.entries@) == Map::<Seq<char>, Exclusion>::empty(),
    {
        Excluded { entries: Vec::new() }
    }

    /// Exclude `name` for `why` (replacing an earlier reason).
    pub fn insert(&mut self, name: String, why: Exclusion)
        ensures
            excluded_map(final(self).entries@) == excluded_map(old(self).entries@).insert(name@, why),
    {
        let ghost prev = self.entries@;
        self.entries.push((name, why));
        assert(self.entries@.drop_last() =~= prev);
    }

    /// Is `name` excluded?
    pub fn contains(&self, name: &str) -> (found: bool)
        ensures
            found == excluded_map(self.entries@).dom().contains(name@),
    {
        let mut k: usize = self.entries.len();
        assert(self.entries@.take(k as int) =~= self.entries@);
        while k > 0
            invariant
                0 <= k <= self.entries@.len(),
                excluded_map(self.entries@).dom().contains(name@) == excluded_map(
                    self.entries@.take(k as int),
                ).dom().contains(name@),
            decreases k,
        {
            assert(self.entries@.take(k as int).drop_last() =~= self.entries@.take(k - 1));
            assert(self.entries@.take(k as int).last() == self.entries@[k - 1]);
            if same_text(self.entries[k - 1].0.as_str(), name) {
                return true;
            }
            k -= 1;
        }
        false
    }

    /// Exclude `name` for `why` unless it is excluded already.
    pub fn insert_if_absent(&mut self, name: String, why: Exclusion)
        ensures
            excluded_map(final(self).entries@) == if excluded_map(old(self).entries@).dom().contains(name@) {
                excluded_map(old(self).entries@)
            } else {
                excluded_map(old(self).entries@).insert(name@, why)
            },
    {
        if !self.contains(name.as_str()) {
            self.insert(name, why);
        }
    }
}

/// What the walk does with a statement: red by its own diagnostics,
/// blocked by an upstream name, or lowered.
pub enum Fate {
    /// One of its targets has diagnostics.
    Red,
    /// The first referenced name that is excluded or bound nowhere.
    Blocked(Seq<char>),
    /// Neither: lower it.
    Lower,
}

/// The first of `refs` that is excluded or bound by no statement.
pub open spec fn first_blocking(
    stmts: Seq<StatementView>,
    refs: Seq<Seq<char>>,
    excluded: Map<Seq<char>, Exclusion>,
) -> Option<Seq<char>>
    decreases refs.len(),
{
    if refs.len() == 0 {
        None
    } else if excluded.dom().contains(refs[0]) || definer(stmts, refs[0]) is None {
        Some(refs[0])
    } else {
        first_blocking(stmts, refs.drop_first(), excluded)
    }
}

/// A statement's fate: red when one of its targets has diagnostics
/// (`red` names them), else blocked by the first referenced name that is
/// excluded or unknown, else lowered.
pub open spec fn fate_of(
    stmts: Seq<StatementView>,
    s: StatementView,
    red: Seq<Seq<char>>,
    excluded: Map<Seq<char>, Exclusion>,
) -> Fate {
    if exists|t: int| 0 <= t < s.targets.len() && red.contains(#[trigger] s.targets[t]) {
        Fate::Red
    } else {
        match first_blocking(stmts, s.references, excluded) {
            Some(name) => Fate::Blocked(name),
            None => Fate::Lower,
        }
    }
}

/// A referenced name that stops a statement from lowering: excluded, or
/// bound by no statement.
pub open spec fn stops_lowering(stmts: Seq<StatementView>, excluded: Map<Seq<char>, Exclusion>, name: Seq<char>) -> bool {
    excluded.dom().contains(name) || !(exists|i: int, t: int|
        0 <= i < stmts.len() && 0 <= t < stmts[i].targets.len() && #[trigger] stmts[i].targets[t] == name)
}

proof fn lemma_definer_binds(stmts: Seq<StatementView>, name: Seq<char>)
    ensures
        (definer(stmts, name) is None) == !(exists|i: int, t: int|
            0 <= i < stmts.len() && 0 <= t < stmts[i].targets.len() && #[trigger] stmts[i].targets[t] == name),
    decreases stmts.len(),
{
    if stmts.len() > 0 {
        lemma_definer_binds(stmts.drop_last(), name);
        if stmts.last().targets.contains(name) {
            let t = choose|t: int| 0 <= t < stmts.last().targets.len() && stmts.last().targets[t] == name;
            assert(stmts[stmts.len() - 1].targets[t] == name);
        } else {
            if exists|i: int, t: int|
                0 <= i < stmts.len() && 0 <= t < stmts[i].targets.len() && #[trigger] stmts[i].targets[t] == name {
                let (i, t) = choose|i: int, t: int|
                    0 <= i < stmts.len() && 0 <= t < stmts[i].targets.len() && #[trigger] stmts[i].targets[t]
                        == name;
                if i == stmts.len() - 1 {
                    assert(stmts.last().targets[t] == name);
                    assert(stmts.last().targets.contains(name));
                } else {
                    assert(stmts.drop_last()[i].targets[t] == name);
                }
            }
            if exists|i: int, t: int|
                0 <= i < stmts.len() - 1 && 0 <= t < stmts.drop_last()[i].targets.len()
                    && #[trigger] stmts.drop_last()[i].targets[t] == name {
                let (i, t) = choose|i: int, t: int|
                    0 <= i < stmts.len() - 1 && 0 <= t < stmts.drop_last()[i].targets.len()
                        && #[trigger] stmts.drop_last()[i].targets[t] == name;
                assert(stmts[i].targets[t] == name);
            }
        }
    }
}

proof fn lemma_first_blocking_is_first(
    stmts: Seq<StatementView>,
    refs: Seq<Seq<char>>,
    excluded: Map<Seq<char>, Exclusion>,
)
    ensures
        (first_blocking(stmts, refs, excluded) is None) == (forall|k: int|
            0 <= k < refs.len() ==> !stops_lowering(stmts, excluded, #[trigger] refs[k])),
        forall|k: int|
            0 <= k < refs.len() && stops_lowering(stmts, excluded, #[trigger] refs[k]) && (forall|m: int|
                0 <= m < k ==> !stops_lowering(stmts, excluded, refs[m])) ==> first_blocking(stmts, refs, excluded)
                == Some(refs[k]),
    decreases refs.len(),
{
    if refs.len() > 0 {
        let rest = refs.drop_first();
        lemma_first_blocking_is_first(stmts, rest, excluded);
        lemma_definer_binds(stmts, refs[0]);
        assert forall|k: int| 0 < k < refs.len() implies #[trigger] refs[k] == rest[k - 1] by {}
        if !stops_lowering(stmts, excluded, refs[0]) {
            if first_blocking(stmts, rest, excluded) is None {
                assert forall|k: int| 0 <= k < refs.len() implies !stops_lowering(stmts, excluded, #[trigger] refs[k]) by {
                    if k > 0 {
                        assert(refs[k] == rest[k - 1]);
                    }
                }
            } else {
                let k = choose|k: int| 0 <= k < rest.len() && stops_lowering(stmts, excluded, #[trigger] rest[k]);
                assert(refs[k + 1] == rest[k]);
            }
            assert forall|k: int|
                0 <= k < refs.len() && stops_lowering(stmts, excluded, #[trigger] refs[k]) && (forall|m: int|
                    0 <= m < k ==> !stops_lowering(stmts, excluded, refs[m])) implies first_blocking(
                stmts,
                refs,
                excluded,
            ) == Some(refs[k]) by {
                assert(k > 0);
                assert(refs[k] == rest[k - 1]);
                assert forall|m: int| 0 <= m < k - 1 implies !stops_lowering(stmts, excluded, #[trigger] rest[m]) by {
                    assert(rest[m] == refs[m + 1]);
                }
            }
        }
    }
}

/// A statement is lowered only when none of its inputs can stop it: red
/// when one of its targets is red; otherwise blocked by the first
/// referenced name that is excluded or bound by no statement, wherever it
/// stands among the references; lowered exactly when there is none.
pub proof fn lemma_excluded_inputs_block(
    stmts: Seq<StatementView>,
    s: StatementView,
    red: Seq<Seq<char>>,
    excluded: Map<Seq<char>, Exclusion>,
)
    ensures
        (fate_of(stmts, s, red, excluded) is Red) == (exists|t: int|
            0 <= t < s.targets.len() && red.contains(#[trigger] s.targets[t])),
        (forall|t: int| 0 <= t < s.targets.len() ==> !red.contains(#[trigger] s.targets[t])) ==> {
            &&& (fate_of(stmts, s, red, excluded) is Lower) == (forall|k: int|
                0 <= k < s.references.len() ==> !stops_lowering(stmts, excluded, #[trigger] s.references[k]))
            &&& forall|k: int|
                0 <= k < s.references.len() && stops_lowering(stmts, excluded, #[trigger] s.references[k]) && (forall|m: int|
                    0 <= m < k ==> !stops_lowering(stmts, excluded, s.references[m])) ==> fate_of(stmts, s, red, excluded)
                    == Fate::Blocked(s.references[k])
        },
{
    lemma_first_blocking_is_first(stmts, s.references, excluded);
}

/// Does `names` hold `name`?
fn holds(names: &[String], name: &str) -> (found: bool)
    ensures
        found == texts(names@).contains(name@),
{
    let ghost all = texts(names@);
    let mut k: usize = 0;
    while k < names.len()
        invariant
            0 <= k <= names@.len(),
            all == texts(names@),
            forall|m: int| 0 <= m < k ==> all[m] != name@,
        decreases names@.len() - k,
    {
        assert(all[k as int] == names@[k as int]@);
        if same_text(names[k].as_str(), name) {
            return true;
        }
        k += 1;
    }
    false
}

/// The exclusion a statement's fate gives it before lowering is tried:
/// `Diagnostics` when red, `FedBy` the culprit when blocked; `None` means
/// lower it (a refusal of the lowering is then an exclusion of its own).
pub fn statement_fate(
    stmts: &[TargetStatement],
    at: usize,
    red: &[String],
    excluded: &Excluded,
) -> (why: Option<Exclusion>)
    requires
        at < stmts@.len(),
    ensures
        match fate_of(
            statement_views(stmts@),
            statement_views(stmts@)[at as int],
            texts(red@),
            excluded_map(excluded.entries@),
        ) {
            Fate::Red => why == Some(Exclusion::Diagnostics),
            Fate::Blocked(name) => why matches Some(Exclusion::FedBy(n)) && n@ == name,
            Fate::Lower => why is None,
        },
{
    let ghost sv = statement_views(stmts@);
    let st = &stmts[at];
    assert(sv[at as int] == statement_view(*st));
    let mut t: usize = 0;
    while t < st.targets.len()
        invariant
            0 <= t <= st.targets@.len(),
            at < stmts@.len(),
            sv == statement_views(stmts@),
            sv[at as int] == statement_view(*st),
            forall|m: int| 0 <= m < t ==> !texts(red@).contains(#[trigger] sv[at as int].targets[m]),
        decreases st.targets@.len() - t,
    {
        assert(sv[at as int].targets[t as int] == st.targets@[t as int]@);
        if holds(red, st.targets[t].as_str()) {
            return Some(Exclusion::Diagnostics);
        }
        t += 1;
    }
    let ghost refs = sv[at as int].references;
    assert(sv[at as int].targets.len() == st.targets@.len());
    let mut j: usize = 0;
    assert(refs.skip(0) =~= refs);
    while j < st.references.len()
        invariant
            0 <= j <= st.references@.len(),
            at < stmts@.len(),
            sv == statement_views(stmts@),
            sv[at as int] == statement_view(*st),
            refs == sv[at as int].references,
            forall|m: int|
                0 <= m < sv[at as int].targets.len() ==> !texts(red@).contains(#[trigger] sv[at as int].targets[m]),
            first_blocking(sv, refs, excluded_map(excluded.entries@)) == first_blocking(
                sv,
                refs.skip(j as int),
                excluded_map(excluded.entries@),
            ),
        decreases st.references@.len() - j,
    {
        let name = st.references[j].as_str();
        assert(refs[j as int] == name@);
        assert(refs.skip(j as int)[0] == refs[j as int]);
        assert(refs.skip(j as int).drop_first() =~= refs.skip(j + 1));
        if excluded.contains(name) || definer_of(stmts, name).is_none() {
            return Some(Exclusion::FedBy(name.to_owned()));
        }
        j += 1;
    }
    assert(refs.skip(j as int) =~= Seq::<Seq<char>>::empty());
    None
}

/// Record a statement's exclusion on each of its targets.
pub fn exclude_targets(excluded: &mut Excluded, statement: &TargetStatement, why: &Exclusion)
    ensures
        excluded_map(final(excluded).entries@) == excluded_with(
            excluded_map(old(excluded).entries@),
            texts(statement.targets@),
            *why,
        ),
{
    let ghost names = texts(statement.targets@);
    let ghost start = excluded_map(excluded.entries@);
    let mut t: usize = 0;
    assert(names.take(0) =~= Seq::<Seq<char>>::empty());
    while t < statement.targets.len()
        invariant
            0 <= t <= statement.targets@.len(),
            names == texts(statement.targets@),
            excluded_map(excluded.entries@) == excluded_with(start, names.take(t as int), *why),
        decreases statement.targets@.len() - t,
    {
        assert(names[t as int] == statement.targets@[t as int]@);
        assert(names.take(t + 1).drop_last() =~= names.take(t as int));
        excluded.insert(statement.targets[t].clone(), why.duplicate());
        t += 1;
    }
    assert(names.take(statement.targets@.len() as int) =~= names);
}

/// The exclusions with each of `names` excluded for `why`.
pub open spec fn excluded_with(
    excluded: Map<Seq<char>, Exclusion>,
    names: Seq<Seq<char>>,
    why: Exclusion,
) -> Map<Seq<char>, Exclusion>
    decreases names.len(),
{
    if names.len() == 0 {
        excluded
    } else {
        excluded_with(excluded, names.drop_last(), why).insert(names.last(), why)
    }
}

/// The exclusions with each of `names` excluded for `why` where it is
/// not excluded already.
pub open spec fn excluded_unless(
    excluded: Map<Seq<char>, Exclusion>,
    names: Seq<Seq<char>>,
    why: Exclusion,
) -> Map<Seq<char>, Exclusion>
    decreases names.len(),
{
    if names.len() == 0 {
        excluded
    } else {
        let before = excluded_unless(excluded, names.drop_last(), why);
        if before.dom().contains(names.last()) {
            before
        } else {
            before.insert(names.last(), why)
        }
    }
}

/// After the walk: every target of a statement the walk left over (a
/// cycle, or behind one) not excluded already is named as part of a
/// cycle.
pub fn exclude_cycles(excluded: &mut Excluded, stmts: &[TargetStatement], walked: &WalkOrder)
    ensures
        forall|i: int, t: int|
            0 <= i < stmts@.len() && !listed(walked.order@, i) && 0 <= t < stmts@[i].targets@.len()
                ==> #[trigger] excluded_map(final(excluded).entries@).dom().contains(stmts@[i].targets@[t]@),
        forall|name: Seq<char>|
            #[trigger] excluded_map(old(excluded).entries@).dom().contains(name) ==> excluded_map(
                final(excluded).entries@,
            )[name] == excluded_map(old(excluded).entries@)[name],
        forall|name: Seq<char>|
            #[trigger] excluded_map(final(excluded).entries@).dom().contains(name) && !excluded_map(
                old(excluded).entries@,
            ).dom().contains(name) ==> cycle_reason(excluded_map(final(excluded).entries@)[name])
                && leftover_target(stmts@, walked.order@, name),
{
    let ghost start = excluded_map(excluded.entries@);
    let mut i: usize = 0;
    while i < stmts.len()
        invariant
            0 <= i <= stmts@.len(),
            forall|a: int, t: int|
                0 <= a < i && !listed(walked.order@, a) && 0 <= t < stmts@[a].targets@.len()
                    ==> #[trigger] excluded_map(excluded.entries@).dom().contains(stmts@[a].targets@[t]@),
            forall|name: Seq<char>|
                #[trigger] start.dom().contains(name) ==> excluded_map(excluded.entries@).dom().contains(name)
                    && excluded_map(excluded.entries@)[name] == start[name],
            forall|name: Seq<char>|
                #[trigger] excluded_map(excluded.entries@).dom().contains(name) && !start.dom().contains(name)
                    ==> cycle_reason(excluded_map(excluded.entries@)[name]) && leftover_target(
                    stmts@,
                    walked.order@,
                    name,
                ),
        decreases stmts@.len() - i,
    {
        if !in_order(&walked.order, i) {
            let st = &stmts[i];
            let mut t: usize = 0;
            while t < st.targets.len()
                invariant
                    0 <= t <= st.targets@.len(),
                    0 <= i < stmts@.len(),
                    *st == stmts@[i as int],
                    !listed(walked.order@, i as int),
                    forall|a: int, u: int|
                        0 <= a < i && !listed(walked.order@, a) && 0 <= u < stmts@[a].targets@.len()
                            ==> #[trigger] excluded_map(excluded.entries@).dom().contains(stmts@[a].targets@[u]@),
                    forall|u: int|
                        0 <= u < t ==> #[trigger] excluded_map(excluded.entries@).dom().contains(
                            stmts@[i as int].targets@[u]@,
                        ),
                    forall|name: Seq<char>|
                        #[trigger] start.dom().contains(name) ==> excluded_map(excluded.entries@).dom().contains(
                            name,
                        ) && excluded_map(excluded.entries@)[name] == start[name],
                    forall|name: Seq<char>|
                        #[trigger] excluded_map(excluded.entries@).dom().contains(name) && !start.dom().contains(
                            name,
                        ) ==> cycle_reason(excluded_map(excluded.entries@)[name]) && leftover_target(
                            stmts@,
                            walked.order@,
                            name,
                        ),
                decreases st.targets@.len() - t,
            {
                let why = Exclusion::Lowering("part of a cycle".to_owned());
                proof {
                    reveal_strlit("part of a cycle");
                    assert(leftover_target(stmts@, walked.order@, stmts@[i as int].targets@[t as int]@));
                }
                excluded.insert_if_absent(st.targets[t].clone(), why);
                t += 1;
            }
        }
        i += 1;
    }
}

/// The reason a cycle's bindings are excluded with.
pub open spec fn cycle_reason(why: Exclusion) -> bool {
    why matches Exclusion::Lowering(m) && m@ == "part of a cycle"@
}

/// `name` is bound by a statement the walk left over.
pub open spec fn leftover_target(stmts: Seq<TargetStatement>, order: Seq<usize>, name: Seq<char>) -> bool {
    exists|i: int, t: int|
        0 <= i < stmts.len() && !listed(order, i) && 0 <= t < stmts[i].targets@.len() && #[trigger] stmts[i].targets@[t]@
            == name
}

/// Is statement `i` in `order`?
fn in_order(order: &Vec<usize>, i: usize) -> (found: bool)
    ensures
        found == listed(order@, i as int),
{
    let mut k: usize = 0;
    while k < order.len()
        invariant
            0 <= k <= order@.len(),
            forall|m: int| 0 <= m < k ==> order@[m] != i,
        decreases order@.len() - k,
    {
        if order[k] == i {
            assert(order@[k as int] == i);
            return true;
        }
        k += 1;
    }
    false
}


// --------------------------------------------------------------- cone --

/// Reaching `m` reaches `b`: the statement binding `m` binds or
/// references `b` (the whole statement resolves together).
pub open spec fn step(stmts: Seq<StatementView>, m: Seq<char>, b: Seq<char>) -> bool {
    definer(stmts, m) matches Some(i) && (stmts[i].targets.contains(b) || stmts[i].references.contains(b))
}

/// `names` holds everything one step from any of its names.
pub open spec fn closed_under(stmts: Seq<StatementView>, names: Set<Seq<char>>) -> bool {
    forall|m: Seq<char>, b: Seq<char>|
        #[trigger] names.contains(m) && #[trigger] step(stmts, m, b) ==> names.contains(b)
}

/// Where the cone starts: the targets, or every bound name when there
/// are none.
pub open spec fn cone_starts(stmts: Seq<StatementView>, targets: Seq<Seq<char>>) -> Set<Seq<char>> {
    if targets.len() == 0 {
        Set::new(|b: Seq<char>| definer(stmts, b) is Some)
    } else {
        targets.to_set()
    }
}

/// `cone` is the least set of names holding the starts and closed under
/// a step.
pub open spec fn least_cone(stmts: Seq<StatementView>, targets: Seq<Seq<char>>, cone: Set<Seq<char>>) -> bool {
    &&& cone_starts(stmts, targets).subset_of(cone)
    &&& closed_under(stmts, cone)
    &&& forall|s: Set<Seq<char>>|
        cone_starts(stmts, targets).subset_of(s) && closed_under(stmts, s) ==> #[trigger] cone.subset_of(s)
}

/// The names of the statements reachable from `targets` (every statement
/// when there are none): each at most once, and together the least set
/// holding the starts and, with any name, everything its statement binds
/// or references — the set the caller gates diagnostics on.
pub fn reachable_bindings(stmts: &[TargetStatement], targets: &Vec<String>) -> (cone: Vec<String>)
    ensures
        least_cone(statement_views(stmts@), texts(targets@), texts(cone@).to_set()),
        texts(cone@).no_duplicates(),
{
    let ghost sv = statement_views(stmts@);
    let n = stmts.len();
    let mut seen: Vec<String> = Vec::new();
    // The starts.
    if targets.len() > 0 {
        let mut k: usize = 0;
        while k < targets.len()
            invariant
                0 <= k <= targets@.len(),
                texts(seen@).no_duplicates(),
                texts(seen@).to_set() == texts(targets@).take(k as int).to_set(),
            decreases targets@.len() - k,
        {
            assert(texts(targets@)[k as int] == targets@[k as int]@);
            assert(texts(targets@).take(k + 1) =~= texts(targets@).take(k as int).push(targets@[k as int]@));
            proof {
                texts(targets@).take(k as int).lemma_push_to_set_commute(targets@[k as int]@);
            }
            add_name(&mut seen, &targets[k]);
            k += 1;
        }
        assert(texts(targets@).take(targets@.len() as int) =~= texts(targets@));
    } else {
        let mut i: usize = 0;
        while i < n
            invariant
                0 <= i <= n,
                n == stmts@.len(),
                sv == statement_views(stmts@),
                texts(seen@).no_duplicates(),
                forall|b: Seq<char>|
                    #[trigger] texts(seen@).to_set().contains(b) <==> exists|a: int|
                        0 <= a < i && sv[a].targets.contains(b),
            decreases n - i,
        {
            let st = &stmts[i];
            assert(sv[i as int] == statement_view(*st));
            let ghost before = texts(seen@).to_set();
            let mut t: usize = 0;
            while t < st.targets.len()
                invariant
                    0 <= t <= st.targets@.len(),
                    0 <= i < n,
                    sv[i as int] == statement_view(*st),
                    texts(seen@).no_duplicates(),
                    forall|b: Seq<char>|
                        #[trigger] texts(seen@).to_set().contains(b) <==> before.contains(b) || exists|u: int|
                            0 <= u < t && sv[i as int].targets[u] == b,
                decreases st.targets@.len() - t,
            {
                assert(sv[i as int].targets[t as int] == st.targets@[t as int]@);
                add_name(&mut seen, &st.targets[t]);
                t += 1;
            }
            proof {
                assert forall|b: Seq<char>| #[trigger] texts(seen@).to_set().contains(b) <==> exists|a: int|
                    0 <= a < i + 1 && sv[a].targets.contains(b) by {
                    if sv[i as int].targets.contains(b) {
                        let u = choose|u: int| 0 <= u < sv[i as int].targets.len() && sv[i as int].targets[u] == b;
                    }
                }
            }
            i += 1;
        }
        proof {
            assert forall|b: Seq<char>| #[trigger] texts(seen@).to_set().contains(b) <==> cone_starts(sv, texts(targets@)).contains(
                b,
            ) by {
                lemma_definer(sv, b);
                if texts(seen@).to_set().contains(b) {
                    let a = choose|a: int| 0 <= a < n && sv[a].targets.contains(b);
                    if definer(sv, b) is None {
                        assert(!sv[a].targets.contains(b));
                    }
                }
            }
            assert(texts(seen@).to_set() =~= cone_starts(sv, texts(targets@)));
        }
    }
    proof {
        if targets@.len() > 0 {
            assert(texts(seen@).to_set() =~= cone_starts(sv, texts(targets@)));
        }
    }
    let ghost starts = cone_starts(sv, texts(targets@));
    // Expand statements until every seen name's statement is expanded.
    let mut expanded: Vec<bool> = Vec::new();
    let mut e: usize = 0;
    while e < n
        invariant
            0 <= e <= n,
            expanded@ == Seq::new(e as nat, |m: int| false),
        decreases n - e,
    {
        expanded.push(false);
        e += 1;
    }
    loop
        invariant
            n == stmts@.len(),
            sv == statement_views(stmts@),
            expanded@.len() == n,
            texts(seen@).no_duplicates(),
            starts.subset_of(texts(seen@).to_set()),
            forall|d: int|
                0 <= d < n && #[trigger] expanded@[d] ==> forall|b: Seq<char>|
                    sv[d].targets.contains(b) || sv[d].references.contains(b) ==> texts(seen@).to_set().contains(b),
            forall|s: Set<Seq<char>>|
                starts.subset_of(s) && closed_under(sv, s) ==> #[trigger] texts(seen@).to_set().subset_of(s),
            forall|d: int|
                0 <= d < n && #[trigger] expanded@[d] ==> exists|m: Seq<char>|
                    texts(seen@).to_set().contains(m) && definer(sv, m) == Some(d),
        ensures
            forall|m: Seq<char>|
                #[trigger] texts(seen@).to_set().contains(m) && definer(sv, m) is Some ==> expanded@[definer(sv, m)->0],
        decreases undone(expanded@, n as int),
    {
        // The first seen name whose statement is not expanded yet.
        let mut k: usize = 0;
        let mut next: Option<usize> = None;
        while k < seen.len()
            invariant
                0 <= k <= seen@.len(),
                n == stmts@.len(),
                sv == statement_views(stmts@),
                expanded@.len() == n,
                match next {
                    Some(d) => d < n && !expanded@[d as int] && exists|m: Seq<char>|
                        texts(seen@).to_set().contains(m) && definer(sv, m) == Some(d as int),
                    None => forall|j: int|
                        0 <= j < k && #[trigger] definer(sv, texts(seen@)[j]) is Some ==> expanded@[definer(
                            sv,
                            texts(seen@)[j],
                        )->0],
                },
            decreases seen@.len() - k,
        {
            if next.is_none() {
                assert(texts(seen@)[k as int] == seen@[k as int]@);
                match definer_of(stmts, seen[k].as_str()) {
                    Some(d) => {
                        proof {
                            lemma_definer(sv, seen@[k as int]@);
                        }
                        if !expanded[d] {
                            assert(texts(seen@).to_set().contains(texts(seen@)[k as int]));
                            next = Some(d);
                        }
                    },
                    None => {},
                }
            }
            k += 1;
        }
        let d = match next {
            None => {
                proof {
                    assert forall|m: Seq<char>|
                        #[trigger] texts(seen@).to_set().contains(m) && definer(sv, m) is Some implies expanded@[definer(
                            sv,
                            m,
                        )->0] by {
                        let j = choose|j: int| 0 <= j < texts(seen@).len() && texts(seen@)[j] == m;
                        assert(definer(sv, texts(seen@)[j]) is Some);
                    }
                }
                break;
            },
            Some(d) => d,
        };
        // Expand statement `d`: its targets and references join.
        let ghost before_seen = texts(seen@).to_set();
        let st = &stmts[d];
        assert(sv[d as int] == statement_view(*st));
        proof {
            let m = choose|m: Seq<char>| texts(seen@).to_set().contains(m) && definer(sv, m) == Some(d as int);
            assert forall|s: Set<Seq<char>>| starts.subset_of(s) && closed_under(sv, s) implies forall|b: Seq<char>|
                sv[d as int].targets.contains(b) || sv[d as int].references.contains(b) ==> s.contains(b) by {
                assert(before_seen.subset_of(s));
                assert(s.contains(m));
                assert forall|b: Seq<char>| sv[d as int].targets.contains(b) || sv[d as int].references.contains(b) implies s.contains(
                    b,
                ) by {
                    assert(step(sv, m, b));
                }
            }
        }
        let mut t: usize = 0;
        while t < st.targets.len()
            invariant
                0 <= t <= st.targets@.len(),
                d < n,
                sv[d as int] == statement_view(*st),
                texts(seen@).no_duplicates(),
                before_seen.subset_of(texts(seen@).to_set()),
                forall|b: Seq<char>|
                    #[trigger] texts(seen@).to_set().contains(b) ==> before_seen.contains(b) || sv[d as int].targets.contains(b)
                        || sv[d as int].references.contains(b),
                forall|u: int| 0 <= u < t ==> #[trigger] texts(seen@).to_set().contains(sv[d as int].targets[u]),
            decreases st.targets@.len() - t,
        {
            assert(sv[d as int].targets[t as int] == st.targets@[t as int]@);
            add_name(&mut seen, &st.targets[t]);
            t += 1;
        }
        let mut r: usize = 0;
        while r < st.references.len()
            invariant
                0 <= r <= st.references@.len(),
                d < n,
                sv[d as int] == statement_view(*st),
                texts(seen@).no_duplicates(),
                before_seen.subset_of(texts(seen@).to_set()),
                forall|b: Seq<char>|
                    #[trigger] texts(seen@).to_set().contains(b) ==> before_seen.contains(b) || sv[d as int].targets.contains(b)
                        || sv[d as int].references.contains(b),
                forall|u: int|
                    0 <= u < sv[d as int].targets.len() ==> #[trigger] texts(seen@).to_set().contains(
                        sv[d as int].targets[u],
                    ),
                forall|u: int| 0 <= u < r ==> #[trigger] texts(seen@).to_set().contains(sv[d as int].references[u]),
            decreases st.references@.len() - r,
        {
            assert(sv[d as int].references[r as int] == st.references@[r as int]@);
            add_name(&mut seen, &st.references[r]);
            r += 1;
        }
        let ghost old_expanded = expanded@;
        proof {
            lemma_undone_done(old_expanded, d as int, n as int);
        }
        expanded.set(d, true);
        proof {
            let now = texts(seen@).to_set();
            assert forall|b: Seq<char>| sv[d as int].targets.contains(b) || sv[d as int].references.contains(b) implies now.contains(
                b,
            ) by {
                if sv[d as int].targets.contains(b) {
                    let u = choose|u: int| 0 <= u < sv[d as int].targets.len() && sv[d as int].targets[u] == b;
                } else {
                    let u = choose|u: int| 0 <= u < sv[d as int].references.len() && sv[d as int].references[u] == b;
                }
            }
            assert forall|s: Set<Seq<char>>| starts.subset_of(s) && closed_under(sv, s) implies #[trigger] now.subset_of(
                s,
            ) by {
                assert(before_seen.subset_of(s));
            }
            assert forall|x: int|
                0 <= x < n && #[trigger] expanded@[x] implies forall|b: Seq<char>|
                sv[x].targets.contains(b) || sv[x].references.contains(b) ==> now.contains(b) by {
                if x != d {
                    assert(old_expanded[x]);
                }
            }
            assert forall|x: int| 0 <= x < n && #[trigger] expanded@[x] implies exists|m: Seq<char>|
                now.contains(m) && definer(sv, m) == Some(x) by {
                if x != d {
                    assert(old_expanded[x]);
                }
            }
        }
    }
    proof {
        let cone = texts(seen@).to_set();
        assert forall|m: Seq<char>, b: Seq<char>| #[trigger] cone.contains(m) && #[trigger] step(sv, m, b) implies cone.contains(
            b,
        ) by {
            let i = definer(sv, m)->0;
            lemma_definer(sv, m);
            assert(expanded@[i]);
        }
    }
    seen
}

/// Add `name` to `names` unless it is there.
fn add_name(names: &mut Vec<String>, name: &String)
    requires
        texts(old(names)@).no_duplicates(),
    ensures
        texts(final(names)@).no_duplicates(),
        texts(final(names)@).to_set() == texts(old(names)@).to_set().insert(name@),
{
    let ghost before = texts(names@);
    if holds(names.as_slice(), name.as_str()) {
        assert(before.contains(name@));
        assert(before.to_set().contains(name@));
        assert(texts(names@) =~= before);
        assert(before.to_set().insert(name@) =~= before.to_set());
        return;
    }
    let ghost prev = names@;
    names.push(name.clone());
    assert(names@ =~= prev.push(*name));
    assert(texts(names@) =~= before.push(name@));
    proof {
        before.lemma_push_to_set_commute(name@);
        assert(!before.contains(name@));
        assert(before.push(name@).no_duplicates()) by {
            assert forall|a: int, b: int| 0 <= a < b < before.push(name@).len() implies before.push(name@)[a]
                != before.push(name@)[b] by {
                if b == before.len() {
                    assert(before.push(name@)[a] == before[a]);
                }
            }
        }
    }
}

// -------------------------------------------------------------- gate --

/// The diagnostics (by the binding each names, `None` for none) that
/// block: those naming a binding in the cone, or none at all.
pub open spec fn blocks(cone: Seq<Seq<char>>, node: Option<Seq<char>>) -> bool {
    match node {
        None => true,
        Some(n) => cone.contains(n),
    }
}

/// The indices below `k` of the diagnostics that do (or, with `inside`
/// false, do not) block.
pub open spec fn gate_indices(cone: Seq<Seq<char>>, nodes: Seq<Option<Seq<char>>>, k: int, inside: bool) -> Seq<usize>
    decreases k,
{
    if k <= 0 {
        Seq::empty()
    } else if blocks(cone, nodes[k - 1]) == inside {
        gate_indices(cone, nodes, k - 1, inside).push((k - 1) as usize)
    } else {
        gate_indices(cone, nodes, k - 1, inside)
    }
}

/// The bindings the diagnostics name, as plain values.
pub open spec fn diagnostic_nodes(nodes: Seq<Option<String>>) -> Seq<Option<Seq<char>>> {
    nodes.map_values(
        |n: Option<String>|
            match n {
                Some(s) => Some(s@),
                None => None,
            },
    )
}

/// Split diagnostics (given by the binding each names) against a cone:
/// the indices of those that block — naming a binding inside it, or no
/// binding at all (file-level problems block everything) — and of the
/// rest, each in order.
pub fn split_diagnostics(nodes: &[Option<String>], cone: &Vec<String>) -> (split: (Vec<usize>, Vec<usize>))
    ensures
        split.0@ == gate_indices(texts(cone@), diagnostic_nodes(nodes@), nodes@.len() as int, true),
        split.1@ == gate_indices(texts(cone@), diagnostic_nodes(nodes@), nodes@.len() as int, false),
{
    let ghost dn = diagnostic_nodes(nodes@);
    let mut blocking: Vec<usize> = Vec::new();
    let mut outside: Vec<usize> = Vec::new();
    let mut k: usize = 0;
    while k < nodes.len()
        invariant
            0 <= k <= nodes@.len(),
            dn == diagnostic_nodes(nodes@),
            blocking@ == gate_indices(texts(cone@), dn, k as int, true),
            outside@ == gate_indices(texts(cone@), dn, k as int, false),
        decreases nodes@.len() - k,
    {
        let inside = match &nodes[k] {
            None => true,
            Some(node) => holds(cone.as_slice(), node.as_str()),
        };
        assert(inside == blocks(texts(cone@), dn[k as int]));
        if inside {
            blocking.push(k);
        } else {
            outside.push(k);
        }
        k += 1;
    }
    (blocking, outside)
}


/// The cone-scoped diagnostics gate: the diagnostics (by the binding each
/// names) that block a run of `targets` — naming a binding in the targets'
/// cone, or none — and the rest, which are warnings.
pub fn gate(stmts: &[TargetStatement], nodes: &[Option<String>], targets: &Vec<String>) -> (split: (
    Vec<usize>,
    Vec<usize>,
))
    ensures
        exists|cone: Seq<Seq<char>>|
            least_cone(statement_views(stmts@), texts(targets@), cone.to_set()) && split.0@ == gate_indices(
                cone,
                diagnostic_nodes(nodes@),
                nodes@.len() as int,
                true,
            ) && split.1@ == gate_indices(cone, diagnostic_nodes(nodes@), nodes@.len() as int, false),
{
    let cone = reachable_bindings(stmts, targets);
    split_diagnostics(nodes, &cone)
}

/// Two least cones are the same set.
pub proof fn lemma_least_cone_is_unique(
    stmts: Seq<StatementView>,
    targets: Seq<Seq<char>>,
    a: Set<Seq<char>>,
    b: Set<Seq<char>>,
)
    requires
        least_cone(stmts, targets, a),
        least_cone(stmts, targets, b),
    ensures
        a == b,
{
    assert(a.subset_of(b));
    assert(b.subset_of(a));
    assert(a =~= b);
}

// ------------------------------------------------------------- strict --

/// Statement `s` binds a name of `names`.
pub open spec fn binds_any(s: StatementView, names: Set<Seq<char>>) -> bool {
    exists|j: int| 0 <= j < s.targets.len() && names.contains(#[trigger] s.targets[j])
}

/// The indices, among the first `n` statements, of those binding a name
/// of `names`, in order.
pub open spec fn binding_statements(stmts: Seq<StatementView>, names: Set<Seq<char>>, n: int) -> Seq<usize>
    decreases n,
{
    if n <= 0 {
        Seq::empty()
    } else {
        let before = binding_statements(stmts, names, n - 1);
        if binds_any(stmts[n - 1], names) {
            before.push((n - 1) as usize)
        } else {
            before
        }
    }
}

/// The statements at `picked`.
pub open spec fn picked_views(stmts: Seq<StatementView>, picked: Seq<usize>) -> Seq<StatementView> {
    picked.map_values(|i: usize| stmts[i as int])
}

/// The walk a strict lowering takes: the cone of the targets, the
/// statements binding a name of it (by index, in order), Kahn's order over
/// those (positions in `statements`), and whether the order took them all
/// (a leftover is a cycle).
pub struct StrictWalk {
    pub cone: Vec<String>,
    pub statements: Vec<usize>,
    pub order: Vec<usize>,
    pub complete: bool,
}

/// Does `s` bind one of `names`?
fn binds_one_of(s: &TargetStatement, names: &Vec<String>) -> (found: bool)
    ensures
        found == binds_any(statement_view(*s), texts(names@).to_set()),
{
    let ghost v = statement_view(*s);
    let mut j: usize = 0;
    while j < s.targets.len()
        invariant
            0 <= j <= s.targets@.len(),
            v == statement_view(*s),
            forall|a: int| 0 <= a < j ==> !texts(names@).to_set().contains(#[trigger] v.targets[a]),
        decreases s.targets@.len() - j,
    {
        let mut k: usize = 0;
        while k < names.len()
            invariant
                0 <= k <= names@.len(),
                0 <= j < s.targets@.len(),
                v == statement_view(*s),
                forall|b: int| 0 <= b < k ==> texts(names@)[b] != v.targets[j as int],
            decreases names@.len() - k,
        {
            if same_text(s.targets[j].as_str(), names[k].as_str()) {
                proof {
                    assert(texts(names@)[k as int] == v.targets[j as int]);
                    assert(texts(names@).to_set().contains(v.targets[j as int]));
                }
                return true;
            }
            k += 1;
        }
        proof {
            if texts(names@).to_set().contains(v.targets[j as int]) {
                let b = choose|b: int| 0 <= b < texts(names@).len() && texts(names@)[b] == v.targets[j as int];
                assert(false);
            }
        }
        j += 1;
    }
    false
}

/// The strict lowering's walk toward `targets`: refused with the first
/// target no statement binds; otherwise the statements binding a name of
/// the targets' cone, walked in Kahn's order.
pub fn strict_walk(stmts: &[TargetStatement], targets: &Vec<String>) -> (walk: Result<StrictWalk, String>)
    ensures
        match walk {
            Err(name) => first_unbound(statement_views(stmts@), texts(targets@)) matches Some(k)
                && name@ == targets@[k]@,
            Ok(w) => {
                let sv = statement_views(stmts@);
                let cone = texts(w.cone@).to_set();
                &&& first_unbound(sv, texts(targets@)) is None
                &&& least_cone(sv, texts(targets@), cone)
                &&& w.statements@ == binding_statements(sv, cone, sv.len() as int)
                &&& w.order@ == kahn_walk(picked_views(sv, w.statements@))
                &&& kahn_order(picked_views(sv, w.statements@), w.order@)
                &&& w.complete == (w.order@.len() == w.statements@.len())
            },
        },
{
    let ghost sv = statement_views(stmts@);
    let ghost req = texts(targets@);
    let mut k: usize = 0;
    while k < targets.len()
        invariant
            0 <= k <= targets@.len(),
            req == texts(targets@),
            sv == statement_views(stmts@),
            first_unbound(sv, req.take(k as int)) is None,
        decreases targets@.len() - k,
    {
        assert(req[k as int] == targets@[k as int]@);
        assert(req.take(k + 1).drop_last() =~= req.take(k as int));
        assert(req.take(k + 1).last() == req[k as int]);
        if !mentions(stmts, targets[k].as_str(), false) {
            proof {
                assert(first_unbound(sv, req.take(k + 1)) == Some(k as int));
                lemma_first_unbound_prefix(sv, req, (k + 1) as nat);
            }
            return Err(targets[k].clone());
        }
        k += 1;
    }
    assert(req.take(targets@.len() as int) =~= req);
    let cone = reachable_bindings(stmts, targets);
    let ghost names = texts(cone@).to_set();
    let mut statements: Vec<usize> = Vec::new();
    let mut subset: Vec<TargetStatement> = Vec::new();
    let mut i: usize = 0;
    while i < stmts.len()
        invariant
            0 <= i <= stmts@.len(),
            sv == statement_views(stmts@),
            names == texts(cone@).to_set(),
            statements@ == binding_statements(sv, names, i as int),
            statement_views(subset@) == picked_views(sv, statements@),
            forall|a: int| 0 <= a < statements@.len() ==> (#[trigger] statements@[a]) < i,
        decreases stmts@.len() - i,
    {
        if binds_one_of(&stmts[i], &cone) {
            let ghost before = statements@;
            let ghost before_subset = subset@;
            statements.push(i);
            subset.push(stmts[i].duplicate());
            proof {
                assert(sv[i as int] == statement_view(stmts@[i as int]));
                assert(statement_views(subset@) =~= statement_views(before_subset).push(sv[i as int]));
                assert(picked_views(sv, statements@) =~= picked_views(sv, before).push(sv[i as int]));
            }
        }
        i += 1;
    }
    let walked = walk_order(subset.as_slice());
    let complete = walked.order.len() == statements.len();
    Ok(StrictWalk { cone, statements, order: walked.order, complete })
}

} // verus!
