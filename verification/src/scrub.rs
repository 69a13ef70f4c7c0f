//! Scrub caching, the part that needs no session: why a slider cannot
//! scrub-cache and how that reads, the nearest-first visiting order over a
//! slider's positions, and the warm queue that walks it.
use vstd::prelude::*;
use crate::protocol::ScrubView;
use crate::text::{decimal, decimal_string, join, joined};
use std::collections::BTreeSet;
use vstd::std_specs::btree::spec_btree_keys_iter;
use vstd::std_specs::iter::IteratorSpec;
use vstd::std_specs::cmp::OrdSpec;

verus! {

/// The most positions a slider may have to scrub-cache.
pub const SCRUB_MAX_POSITIONS: usize = 32;

/// The per-slider byte cap on what the warming may put in the store
/// (256 MiB).
pub const SCRUB_BYTE_CAP: u64 = 268435456;

/// The kwarg a slider's scrub queue warms.
pub const SCRUB_PORT: &'static str = "value";

// ---------------------------------------------------------------------
// Why a slider cannot scrub-cache
// ---------------------------------------------------------------------

/// Why a slider cannot scrub-cache: the `set_scrub` refusal's reason and
/// the view's `ineligible`.
#[derive(Debug, Clone, PartialEq, Eq)]
pub enum Ineligible {
    /// The binding is not a `slider` call (or not a binding at all).
    NotASlider,
    /// `min` / `max` / `step` are fed by wires (in that order).
    Wired(Vec<String>),
    /// `step` is 0: a continuous slider has no positions to warm.
    StepZero,
    /// `max` is below `min`.
    InvertedBounds,
    /// More positions than [`SCRUB_MAX_POSITIONS`].
    TooManyPositions {
        /// `floor((max − min) / step) + 1`.
        positions: usize,
    },
}

/// The ports' names, as text.
pub open spec fn port_names(ports: Seq<String>) -> Seq<Seq<char>> {
    ports.map_values(|p: String| p@)
}

/// How a refusal reads.
pub open spec fn ineligible_message(why: Ineligible) -> Seq<char> {
    match why {
        Ineligible::NotASlider => "not a slider — only sliders scrub-cache"@,
        Ineligible::Wired(ports) => joined(port_names(ports@), " and "@) + (if ports@.len() == 1 {
            " is"@
        } else {
            " are"@
        }) + " wired — the positions are a function of literal min, max and step"@,
        Ineligible::StepZero => "step is 0 — a continuous slider has no positions to warm"@,
        Ineligible::InvertedBounds => "max is below min"@,
        Ineligible::TooManyPositions { positions } => "too many positions ("@ + decimal(
            positions as nat,
        ) + " > "@ + decimal(SCRUB_MAX_POSITIONS as nat) + ")"@,
    }
}

impl Ineligible {
    /// The reason as the client reads it.
    pub fn message(&self) -> (text: String)
        ensures
            text@ == ineligible_message(*self),
    {
        match self {
            Ineligible::NotASlider => "not a slider — only sliders scrub-cache".to_owned(),
            Ineligible::Wired(ports) => {
                let mut text = join(ports, " and ");
                if ports.len() == 1 {
                    text.append(" is");
                } else {
                    text.append(" are");
                }
                text.append(" wired — the positions are a function of literal min, max and step");
                text
            },
            Ineligible::StepZero => "step is 0 — a continuous slider has no positions to warm".to_owned(),
            Ineligible::InvertedBounds => "max is below min".to_owned(),
            Ineligible::TooManyPositions { positions } => {
                let mut text = "too many positions (".to_owned();
                text.append(decimal_string(*positions as u64).as_str());
                text.append(" > ");
                text.append(decimal_string(SCRUB_MAX_POSITIONS as u64).as_str());
                text.append(")");
                text
            },
        }
    }
}

// ---------------------------------------------------------------------
// The nearest-first order
// ---------------------------------------------------------------------

/// Where position `i` falls in the visit around `center`: the center is
/// 0, then one above (1), one below (2), two above (3), two below (4), …
pub open spec fn visit_rank(i: int, center: int) -> int {
    if i > center {
        2 * (i - center) - 1
    } else {
        2 * (center - i)
    }
}

/// The center, clamped into `0..count`.
pub open spec fn clamped_center(count: nat, center: nat) -> int {
    if center < count {
        center as int
    } else {
        count - 1
    }
}

/// `order` lists `count` positions, each below `count`, strictly by
/// [`visit_rank`] around `center`.
pub open spec fn is_visit_order(order: Seq<usize>, count: nat, center: int) -> bool {
    &&& order.len() == count
    &&& forall|k: int| 0 <= k < order.len() ==> order[k] < count
    &&& forall|j: int, k: int|
        0 <= j < k < order.len() ==> visit_rank(order[j] as int, center) < visit_rank(
            order[k] as int,
            center,
        )
}

/// How many positions of `0..count` lie within `d - 1` of `c`.
spec fn within(count: int, c: int, d: int) -> int {
    (if c < d - 1 {
        c
    } else {
        d - 1
    }) + (if count - 1 - c < d - 1 {
        count - 1 - c
    } else {
        d - 1
    }) + 1
}

/// The visiting order over `count` positions starting at `center`: the
/// center, then alternating sides outward, above first (`center + 1`,
/// `center − 1`, `center + 2`, …); when one side runs out the other
/// continues. A center beyond the end is clamped to the last position.
pub fn nearest_first(count: usize, center: usize) -> (order: Vec<usize>)
    ensures
        is_visit_order(order@, count as nat, clamped_center(count as nat, center as nat)),
{
    if count == 0 {
        return Vec::new();
    }
    let c: usize = if center < count {
        center
    } else {
        count - 1
    };
    let mut order: Vec<usize> = Vec::with_capacity(count);
    order.push(c);
    let mut distance: usize = 1;
    while order.len() < count
        invariant
            0 <= c < count,
            c as int == clamped_center(count as nat, center as nat),
            1 <= distance <= count,
            order.len() == within(count as int, c as int, distance as int),
            order.len() <= count,
            forall|k: int| 0 <= k < order@.len() ==> order@[k] < count,
            forall|k: int|
                0 <= k < order@.len() ==> visit_rank(order@[k] as int, c as int) < 2 * distance
                    - 1,
            forall|j: int, k: int|
                0 <= j < k < order@.len() ==> visit_rank(order@[j] as int, c as int) < visit_rank(
                    order@[k] as int,
                    c as int,
                ),
        decreases count - distance,
    {
        if distance < count - c {
            order.push(c + distance);
        }
        if distance <= c {
            order.push(c - distance);
        }
        distance += 1;
    }
    order
}

/// What the nearest-first order promises: it is a permutation of
/// `0..count`, it starts at the (clamped) center, it never steps to a
/// farther position before a nearer one, and two positions at the same
/// distance sit on opposite sides, the one above first.
pub proof fn lemma_nearest_first_is_a_nearest_first_permutation(
    order: Seq<usize>,
    count: usize,
    center: usize,
)
    requires
        count > 0,
        is_visit_order(order, count as nat, clamped_center(count as nat, center as nat)),
    ensures
        forall|i: usize| i < count ==> order.contains(i),
        order.no_duplicates(),
        order[0] as int == clamped_center(count as nat, center as nat),
        forall|j: int, k: int|
            #![trigger order[j], order[k]]
            0 <= j < k < order.len() ==> {
                let c = clamped_center(count as nat, center as nat);
                let dj = if order[j] >= c {
                    order[j] - c
                } else {
                    c - order[j]
                };
                let dk = if order[k] >= c {
                    order[k] - c
                } else {
                    c - order[k]
                };
                &&& dj <= dk
                &&& (dj == dk && dj > 0) ==> (order[j] > c && order[k] < c)
            },
{
    let c = clamped_center(count as nat, center as nat);
    assert(order.no_duplicates()) by {
        assert forall|j: int, k: int| 0 <= j < order.len() && 0 <= k < order.len() && j != k implies order[j]
            != order[k] by {
            if j < k {
                assert(visit_rank(order[j] as int, c) < visit_rank(order[k] as int, c));
            } else {
                assert(visit_rank(order[k] as int, c) < visit_rank(order[j] as int, c));
            }
        }
    }
    let all = Set::<usize>::range(0, count);
    // Every element of `order` is below `count`, and they are distinct:
    // the order's set is all of `0..count`.
    order.unique_seq_to_set();
    vstd::set_lib::range_set_properties::<usize>(0, count);
    assert(order.to_set().subset_of(all));
    vstd::set_lib::lemma_subset_equality(order.to_set(), all);
    assert forall|i: usize| i < count implies order.contains(i) by {
        assert(all.contains(i));
        assert(order.to_set().contains(i));
    }
    // The first element holds rank 0, which only the center has.
    assert(order.contains(c as usize));
    let p = choose|p: int| 0 <= p < order.len() && order[p] == c as usize;
    if p > 0 {
        assert(visit_rank(order[0] as int, c) < visit_rank(order[p] as int, c));
    }
}

// ---------------------------------------------------------------------
// The warm queue
// ---------------------------------------------------------------------

/// The first of `order` not in `visited`.
pub open spec fn first_unvisited(order: Seq<usize>, visited: Set<usize>) -> Option<usize>
    decreases order.len(),
{
    if order.len() == 0 {
        None
    } else if !visited.contains(order[0]) {
        Some(order[0])
    } else {
        first_unvisited(order.drop_first(), visited)
    }
}

/// What `first_unvisited` finds is in the order and not visited.
proof fn lemma_first_unvisited(order: Seq<usize>, visited: Set<usize>)
    ensures
        first_unvisited(order, visited) matches Some(x) ==> order.contains(x) && !visited.contains(x),
        first_unvisited(order, visited) is None ==> forall|k: int|
            0 <= k < order.len() ==> visited.contains(#[trigger] order[k]),
    decreases order.len(),
{
    if order.len() > 0 && visited.contains(order[0]) {
        lemma_first_unvisited(order.drop_first(), visited);
        if let Some(x) = first_unvisited(order, visited) {
            let k = choose|k: int| 0 <= k < order.drop_first().len() && order.drop_first()[k] == x;
            assert(order[k + 1] == x);
        } else {
            assert forall|k: int| 0 <= k < order.len() implies visited.contains(#[trigger] order[k]) by {
                if k > 0 {
                    assert(order[k] == order.drop_first()[k - 1]);
                }
            }
        }
    } else if order.len() > 0 {
        assert(order[0] == order[0]);
    }
}

/// A warm queue as plain values.
pub struct WarmQueueView {
    pub id: u64,
    pub node: Seq<char>,
    pub port: Seq<char>,
    pub values: Seq<Seq<char>>,
    pub order: Seq<usize>,
    pub warmed: Set<usize>,
    pub visited: Set<usize>,
    pub bytes: u64,
    pub capped: bool,
    pub in_flight: Option<usize>,
}

impl WarmQueueView {
    /// The next position to warm: the first of the order not yet visited,
    /// or none when the queue is finished or capped.
    pub open spec fn next_position(self) -> Option<usize> {
        if self.capped {
            None
        } else {
            first_unvisited(self.order, self.visited)
        }
    }

    /// The queue after a position came back warm, `bytes` stored.
    pub open spec fn after_warm(self, index: usize, bytes: u64, cap: u64) -> WarmQueueView {
        let total = if self.bytes + bytes > u64::MAX {
            u64::MAX
        } else {
            (self.bytes + bytes) as u64
        };
        WarmQueueView {
            in_flight: None,
            visited: self.visited.insert(index),
            warmed: self.warmed.insert(index),
            bytes: total,
            capped: self.capped || total >= cap,
            ..self
        }
    }

    /// The queue after a position went red or was refused.
    pub open spec fn after_red(self, index: usize) -> WarmQueueView {
        WarmQueueView { in_flight: None, visited: self.visited.insert(index), ..self }
    }

    /// The queue after its position came back pre-empted.
    pub open spec fn after_preempted(self) -> WarmQueueView {
        WarmQueueView { in_flight: None, ..self }
    }
}

/// Every operation keeps the warm positions among the visited ones, never
/// forgets a visited position, and never lifts the cap.
pub proof fn lemma_queue_steps_keep_their_invariant(
    q: WarmQueueView,
    index: usize,
    bytes: u64,
    cap: u64,
)
    requires
        q.warmed.subset_of(q.visited),
    ensures
        q.after_warm(index, bytes, cap).warmed.subset_of(q.after_warm(index, bytes, cap).visited),
        q.after_red(index).warmed.subset_of(q.after_red(index).visited),
        q.after_preempted().warmed.subset_of(q.after_preempted().visited),
        q.visited.subset_of(q.after_warm(index, bytes, cap).visited),
        q.visited.subset_of(q.after_red(index).visited),
        q.after_warm(index, bytes, cap).bytes >= q.bytes,
        q.capped ==> q.after_warm(index, bytes, cap).capped,
        q.capped ==> q.after_red(index).capped && q.after_preempted().capped,
        q.after_warm(index, bytes, cap).in_flight is None,
        q.after_red(index).in_flight is None,
        q.after_preempted().in_flight is None,
{
}

/// A pre-empted position is next again: pre-emption changes nothing the
/// order walks over.
pub proof fn lemma_preempted_is_next_again(q: WarmQueueView)
    ensures
        q.after_preempted().next_position() == q.next_position(),
{
}

/// The next position is not visited yet, and once recorded (warm or red)
/// it is never next again; a queue with no next position has visited its
/// whole order or hit the cap.
pub proof fn lemma_recorded_position_is_never_next_again(q: WarmQueueView, bytes: u64, cap: u64)
    ensures
        q.next_position() matches Some(p) ==> {
            &&& q.order.contains(p)
            &&& !q.visited.contains(p)
            &&& q.after_warm(p, bytes, cap).next_position() != Some(p)
            &&& q.after_red(p).next_position() != Some(p)
        },
        q.next_position() is None ==> q.capped || forall|k: int|
            0 <= k < q.order.len() ==> q.visited.contains(#[trigger] q.order[k]),
{
    lemma_first_unvisited(q.order, q.visited);
    if let Some(p) = q.next_position() {
        lemma_first_unvisited(q.order, q.visited.insert(p));
    }
}

/// One param's warm queue: an ordered value list (as dialect literals), a
/// visiting order over it, and what the warming has done so far.
#[derive(Debug, Clone, PartialEq, Eq)]
pub struct WarmQueue {
    /// A monotonic id the session hands out.
    pub id: u64,
    /// The param's binding.
    pub node: String,
    /// Its kwarg.
    pub port: String,
    /// The values, one literal per position, in position order.
    pub values: Vec<String>,
    /// The visiting order over `values`' indices.
    pub order: Vec<usize>,
    /// Positions verified warm.
    pub warmed: BTreeSet<usize>,
    /// Positions the warming is done with: `warmed`, plus positions whose
    /// solve went red.
    pub visited: BTreeSet<usize>,
    /// Bytes of memo entries the warming stored for this queue, deep.
    pub bytes: u64,
    /// The byte cap stopped this queue.
    pub capped: bool,
    /// The position in flight, if one is.
    pub in_flight: Option<usize>,
}

impl WarmQueue {
    /// The queue as plain values.
    pub open spec fn model(&self) -> WarmQueueView {
        WarmQueueView {
            id: self.id,
            node: self.node@,
            port: self.port@,
            values: self.values@.map_values(|v: String| v@),
            order: self.order@,
            warmed: self.warmed@,
            visited: self.visited@,
            bytes: self.bytes,
            capped: self.capped,
            in_flight: self.in_flight,
        }
    }
}

/// `a` orders before `b`.
spec fn precedes<K: Ord>(a: K, b: K) -> bool {
    a.cmp_spec(&b) is Less
}

/// `s` is strictly ascending.
pub open spec fn ascending(s: Seq<usize>) -> bool {
    forall|j: int, k: int| 0 <= j < k < s.len() ==> s[j] < s[k]
}

impl WarmQueue {
    /// A fresh queue over `values` in `order`.
    pub fn new(id: u64, node: &str, port: &str, values: Vec<String>, order: Vec<usize>) -> (queue:
        WarmQueue)
        ensures
            queue.model() == (WarmQueueView {
                id,
                node: node@,
                port: port@,
                values: values@.map_values(|v: String| v@),
                order: order@,
                warmed: Set::empty(),
                visited: Set::empty(),
                bytes: 0,
                capped: false,
                in_flight: None,
            }),
    {
        WarmQueue {
            id,
            node: node.to_string(),
            port: port.to_string(),
            values,
            order,
            warmed: BTreeSet::new(),
            visited: BTreeSet::new(),
            bytes: 0,
            capped: false,
            in_flight: None,
        }
    }

    /// The next position to warm: the first of `order` not yet visited,
    /// or `None` when the queue is finished or capped.
    pub fn next(&self) -> (next: Option<usize>)
        ensures
            next == self.model().next_position(),
    {
        if self.capped {
            return None;
        }
        let ghost visited = self.visited@;
        assert(self.order@.subrange(0, self.order@.len() as int) =~= self.order@);
        let mut i: usize = 0;
        while i < self.order.len()
            invariant
                0 <= i <= self.order@.len(),
                visited == self.visited@,
                !self.capped,
                first_unvisited(self.order@, visited) == first_unvisited(
                    self.order@.subrange(i as int, self.order@.len() as int),
                    visited,
                ),
            decreases self.order@.len() - i,
        {
            let index = self.order[i];
            let ghost rest = self.order@.subrange(i as int, self.order@.len() as int);
            assert(rest[0] == index);
            if !self.visited.contains(&index) {
                return Some(index);
            }
            assert(rest.drop_first() =~= self.order@.subrange(i + 1, self.order@.len() as int));
            i += 1;
        }
        None
    }

    /// Nothing left to do: every position visited, or the cap hit.
    pub fn finished(&self) -> (finished: bool)
        ensures
            finished == (self.model().next_position() is None),
    {
        self.next().is_none()
    }

    /// Work remains: not finished, not capped.
    pub fn warming(&self) -> (warming: bool)
        ensures
            warming == (self.model().next_position() is Some),
    {
        !self.finished()
    }

    /// Record a position as warm (`bytes` the memo entries its solve
    /// stored, 0 for a dry-run hit); applies the cap.
    pub fn record_warm(&mut self, index: usize, bytes: u64, cap: u64)
        ensures
            final(self).model() == old(self).model().after_warm(index, bytes, cap),
    {
        self.in_flight = None;
        self.visited.insert(index);
        self.warmed.insert(index);
        self.bytes = self.bytes.saturating_add(bytes);
        if self.bytes >= cap {
            self.capped = true;
        }
    }

    /// Record a position whose solve went red or was refused: done with,
    /// not warm.
    pub fn record_red(&mut self, index: usize)
        ensures
            final(self).model() == old(self).model().after_red(index),
    {
        self.in_flight = None;
        self.visited.insert(index);
    }

    /// The position came back pre-empted: nothing recorded, it is next
    /// again.
    pub fn record_preempted(&mut self)
        ensures
            final(self).model() == old(self).model().after_preempted(),
    {
        self.in_flight = None;
    }

    /// The warm positions, ascending.
    fn warmed_ascending(&self) -> (warmed: Vec<usize>)
        ensures
            ascending(warmed@),
            warmed@.to_set() == self.warmed@,
    {
        let ghost keys = spec_btree_keys_iter(&self.warmed).remaining();
        let mut out: Vec<usize> = Vec::new();
        for x in it: self.warmed.iter()
            invariant
                it.seq() == keys,
                out@.len() == it.index(),
                forall|k: int| 0 <= k < it.index() ==> out@[k] == *keys[k],
        {
            out.push(*x);
        }
        proof {
            assert(out@ =~= keys.unref());
            assert(vstd::laws_cmp::obeys_cmp::<usize>());
            assert(vstd::laws_cmp::obeys_cmp::<&usize>());
            assert(vstd::std_specs::btree::increasing_seq(keys));
            vstd::std_specs::btree::axiom_increasing_seq_meaning::<&usize>(keys);
            assert forall|j: int, k: int| 0 <= j < k < out@.len() implies out@[j] < out@[k] by {
                assert(precedes::<&usize>(keys[j], keys[k]));
            }
        }
        out
    }

    /// The wire view of this queue's progress, over the slider's `on` flag.
    pub fn view(&self, on: bool) -> (view: ScrubView)
        ensures
            view.on == on,
            view.positions == self.values@.len(),
            ascending(view.warmed@),
            view.warmed@.to_set() == self.warmed@,
            view.warming == (self.model().next_position() is Some),
            view.bytes == self.bytes,
            view.capped == self.capped,
            view.ineligible is None,
    {
        ScrubView {
            on,
            positions: self.values.len(),
            warmed: self.warmed_ascending(),
            warming: self.warming(),
            bytes: self.bytes,
            capped: self.capped,
            ineligible: None,
        }
    }
}

/// The view of a slider that is eligible but has no queue: positions
/// known, nothing warm, nothing warming.
pub fn idle_view(positions: usize, on: bool) -> (view: ScrubView)
    ensures
        view.on == on,
        view.positions == positions,
        view.warmed@.len() == 0,
        !view.warming,
        view.bytes == 0,
        !view.capped,
        view.ineligible is None,
{
    ScrubView {
        on,
        positions,
        warmed: Vec::new(),
        warming: false,
        bytes: 0,
        capped: false,
        ineligible: None,
    }
}

/// The view of an ineligible slider: the reason, and what the text says.
pub fn ineligible_view(on: bool, why: &Ineligible) -> (view: ScrubView)
    ensures
        view.on == on,
        view.positions == 0,
        view.warmed@.len() == 0,
        !view.warming,
        view.bytes == 0,
        !view.capped,
        view.ineligible matches Some(text) && text@ == ineligible_message(*why),
{
    ScrubView {
        on,
        positions: 0,
        warmed: Vec::new(),
        warming: false,
        bytes: 0,
        capped: false,
        ineligible: Some(why.message()),
    }
}

} // verus!
