//! The facts a value summary states without meshing anything: a list's
//! counts, its first element's kind, and what its solids' display meshes
//! say as far as the display cache holds them; a lone solid's facts the
//! same way. A solid no display pass has meshed is reported as such.

use vstd::prelude::*;
use crate::text::{decimal, decimal_string, join, joined};

verus! {

/// What the display cache holds for a solid.
#[derive(Debug, Clone, PartialEq, Eq)]
pub enum SolidAnswer {
    /// A display mesh: its triangles, the solid's faces, whether it closes.
    Drawn { triangles: usize, faces: usize, watertight: bool },
    /// The kernel's refusal.
    Refused(String),
    /// No display pass has meshed it.
    NotDisplayed,
}

/// A solid of a list: its element and what the cache holds for it.
#[derive(Debug, Clone, PartialEq, Eq)]
pub struct ListedSolid {
    pub element: u32,
    pub answer: SolidAnswer,
}

/// The facts of a list's summary.
#[derive(Debug, Clone, PartialEq, Eq)]
pub struct ListFacts {
    /// Slots.
    pub count: usize,
    /// Absent slots.
    pub absent: usize,
    /// The kind of the first present slot.
    pub element_kind: Option<String>,
    /// Triangles of the meshes and the drawn solids, when there are any.
    pub triangles: Option<usize>,
    /// Solids, when there are any.
    pub solids: Option<usize>,
    /// Faces of the drawn solids, when some solid is drawn.
    pub faces: Option<usize>,
    /// Solids no display pass has meshed, when there are any.
    pub not_displayed: Option<usize>,
    /// Drawn solids whose mesh does not close, when there are any.
    pub unclosed: Option<usize>,
    /// The refusals, one per refused solid, joined by `; `.
    pub error: Option<String>,
}

/// Absent slots among `slots`.
pub open spec fn absent_slots(slots: Seq<Option<String>>) -> nat
    decreases slots.len(),
{
    if slots.len() == 0 {
        0
    } else {
        absent_slots(slots.drop_last()) + if slots.last() is None {
            1nat
        } else {
            0nat
        }
    }
}

/// The kind of the first present slot.
pub open spec fn first_kind(slots: Seq<Option<String>>) -> Option<Seq<char>>
    decreases slots.len(),
{
    if slots.len() == 0 {
        None
    } else {
        match slots[0] {
            Some(kind) => Some(kind@),
            None => first_kind(slots.drop_first()),
        }
    }
}

/// The sum of `counts`.
pub open spec fn sum(counts: Seq<usize>) -> nat
    decreases counts.len(),
{
    if counts.len() == 0 {
        0
    } else {
        sum(counts.drop_last()) + counts.last() as nat
    }
}

/// What the solids add up to: the drawn ones' triangles and faces, how
/// many of those do not close, and how many are not displayed.
pub struct SolidTotals {
    pub triangles: nat,
    pub faces: nat,
    pub unclosed: nat,
    pub not_displayed: nat,
}

/// The solids' totals.
pub open spec fn solid_totals(solids: Seq<ListedSolid>) -> SolidTotals
    decreases solids.len(),
{
    if solids.len() == 0 {
        SolidTotals { triangles: 0, faces: 0, unclosed: 0, not_displayed: 0 }
    } else {
        let t = solid_totals(solids.drop_last());
        match solids.last().answer {
            SolidAnswer::Drawn { triangles, faces, watertight } => SolidTotals {
                triangles: t.triangles + triangles as nat,
                faces: t.faces + faces as nat,
                unclosed: t.unclosed + if watertight {
                    0nat
                } else {
                    1nat
                },
                ..t
            },
            SolidAnswer::Refused(_) => t,
            SolidAnswer::NotDisplayed => SolidTotals { not_displayed: t.not_displayed + 1, ..t },
        }
    }
}

/// The refusal line of a solid.
pub open spec fn refusal_line(element: u32, reason: Seq<char>) -> Seq<char> {
    "element "@ + decimal(element as nat) + " (Solid): "@ + reason
}

/// The refusal lines of the refused solids, in order.
pub open spec fn refusal_lines(solids: Seq<ListedSolid>) -> Seq<Seq<char>>
    decreases solids.len(),
{
    if solids.len() == 0 {
        Seq::empty()
    } else {
        let before = refusal_lines(solids.drop_last());
        match solids.last().answer {
            SolidAnswer::Refused(reason) => before.push(refusal_line(solids.last().element, reason@)),
            _ => before,
        }
    }
}

/// A count, when it is above zero.
pub open spec fn when_some(n: nat) -> Option<usize> {
    if n > 0 {
        Some(n as usize)
    } else {
        None
    }
}

/// The facts of a list's summary from its slots' kinds (`None` for an
/// absent slot), the triangle counts of the meshes it holds, and what the
/// cache holds for its solids.
pub open spec fn list_facts_of(
    slots: Seq<Option<String>>,
    mesh_triangles: Seq<usize>,
    solids: Seq<ListedSolid>,
) -> (Option<Seq<char>>, Option<usize>, Option<usize>, Option<usize>, Option<usize>, Option<usize>, Option<Seq<char>>) {
    let t = solid_totals(solids);
    let any_solids = solids.len() > 0;
    let lines = refusal_lines(solids);
    (
        first_kind(slots),
        when_some(sum(mesh_triangles) + t.triangles),
        if any_solids { Some(solids.len() as usize) } else { None },
        if any_solids && t.not_displayed < solids.len() { Some(t.faces as usize) } else { None },
        if any_solids { when_some(t.not_displayed) } else { None },
        if any_solids { when_some(t.unclosed) } else { None },
        if lines.len() > 0 { Some(joined(lines, "; "@)) } else { None },
    )
}

/// The counts fit a `usize`.
pub open spec fn list_fits(mesh_triangles: Seq<usize>, solids: Seq<ListedSolid>) -> bool {
    sum(mesh_triangles) + solid_totals(solids).triangles <= usize::MAX && solid_totals(solids).faces
        <= usize::MAX
}

proof fn lemma_sum_prefix(counts: Seq<usize>, k: int)
    requires
        0 <= k <= counts.len(),
    ensures
        sum(counts.take(k)) <= sum(counts),
    decreases counts.len() - k,
{
    if k < counts.len() {
        lemma_sum_prefix(counts, k + 1);
        assert(counts.take(k + 1).drop_last() =~= counts.take(k));
    } else {
        assert(counts.take(k) =~= counts);
    }
}

proof fn lemma_totals_counted(solids: Seq<ListedSolid>)
    ensures
        solid_totals(solids).unclosed <= solids.len(),
        solid_totals(solids).not_displayed <= solids.len(),
    decreases solids.len(),
{
    if solids.len() > 0 {
        lemma_totals_counted(solids.drop_last());
    }
}

proof fn lemma_totals_prefix(solids: Seq<ListedSolid>, k: int)
    requires
        0 <= k <= solids.len(),
    ensures
        solid_totals(solids.take(k)).triangles <= solid_totals(solids).triangles,
        solid_totals(solids.take(k)).faces <= solid_totals(solids).faces,
        solid_totals(solids.take(k)).unclosed <= k,
        solid_totals(solids.take(k)).not_displayed <= k,
    decreases solids.len() - k,
{
    if k < solids.len() {
        lemma_totals_prefix(solids, k + 1);
        assert(solids.take(k + 1).drop_last() =~= solids.take(k));
    } else {
        assert(solids.take(k) =~= solids);
    }
    lemma_totals_counted(solids.take(k));
}

/// The facts of a list's summary (see [`list_facts_of`]).
pub fn list_facts(slots: &[Option<String>], mesh_triangles: &[usize], solids: &[ListedSolid]) -> (facts: ListFacts)
    requires
        list_fits(mesh_triangles@, solids@),
    ensures
        facts.count == slots@.len(),
        facts.absent == absent_slots(slots@),
        ({
            let expected = list_facts_of(slots@, mesh_triangles@, solids@);
            &&& match facts.element_kind {
                Some(k) => expected.0 == Some(k@),
                None => expected.0 is None,
            }
            &&& facts.triangles == expected.1
            &&& facts.solids == expected.2
            &&& facts.faces == expected.3
            &&& facts.not_displayed == expected.4
            &&& facts.unclosed == expected.5
            &&& match facts.error {
                Some(e) => expected.6 == Some(e@),
                None => expected.6 is None,
            }
        }),
{
    let mut absent: usize = 0;
    let mut element_kind: Option<String> = None;
    let mut k: usize = 0;
    assert(slots@.skip(0) =~= slots@);
    assert(slots@.take(0) =~= Seq::<Option<String>>::empty());
    while k < slots.len()
        invariant
            0 <= k <= slots@.len(),
            absent == absent_slots(slots@.take(k as int)),
            absent <= k,
            match element_kind {
                Some(kind) => first_kind(slots@) == Some(kind@),
                None => first_kind(slots@) == first_kind(slots@.skip(k as int)),
            },
        decreases slots@.len() - k,
    {
        assert(slots@.take(k + 1).drop_last() =~= slots@.take(k as int));
        let ghost rest = slots@.skip(k as int);
        assert(rest[0] == slots@[k as int]);
        assert(rest.drop_first() =~= slots@.skip(k + 1));
        match &slots[k] {
            None => {
                absent += 1;
            },
            Some(kind) => {
                if element_kind.is_none() {
                    element_kind = Some(kind.clone());
                }
            },
        }
        k += 1;
    }
    proof {
        assert(slots@.take(slots@.len() as int) =~= slots@);
        if element_kind is None {
            assert(slots@.skip(slots@.len() as int).len() == 0);
        }
    }
    let mut triangles: usize = 0;
    let mut m: usize = 0;
    while m < mesh_triangles.len()
        invariant
            0 <= m <= mesh_triangles@.len(),
            list_fits(mesh_triangles@, solids@),
            triangles == sum(mesh_triangles@.take(m as int)),
        decreases mesh_triangles@.len() - m,
    {
        assert(mesh_triangles@.take(m + 1).drop_last() =~= mesh_triangles@.take(m as int));
        proof {
            lemma_sum_prefix(mesh_triangles@, m + 1);
        }
        triangles = triangles + mesh_triangles[m];
        m += 1;
    }
    assert(mesh_triangles@.take(mesh_triangles@.len() as int) =~= mesh_triangles@);
    let ghost meshes = triangles as nat;
    let mut faces: usize = 0;
    let mut unclosed: usize = 0;
    let mut not_displayed: usize = 0;
    let mut lines: Vec<String> = Vec::new();
    let mut s: usize = 0;
    while s < solids.len()
        invariant
            0 <= s <= solids@.len(),
            list_fits(mesh_triangles@, solids@),
            meshes == sum(mesh_triangles@),
            triangles == meshes + solid_totals(solids@.take(s as int)).triangles,
            faces == solid_totals(solids@.take(s as int)).faces,
            unclosed == solid_totals(solids@.take(s as int)).unclosed,
            not_displayed == solid_totals(solids@.take(s as int)).not_displayed,
            lines@.map_values(|l: String| l@) == refusal_lines(solids@.take(s as int)),
        decreases solids@.len() - s,
    {
        assert(solids@.take(s + 1).drop_last() =~= solids@.take(s as int));
        assert(solids@.take(s + 1).last() == solids@[s as int]);
        proof {
            lemma_totals_prefix(solids@, s + 1);
        }
        let solid = &solids[s];
        match &solid.answer {
            SolidAnswer::Drawn { triangles: t, faces: f, watertight } => {
                triangles = triangles + *t;
                faces = faces + *f;
                if !*watertight {
                    unclosed = unclosed + 1;
                }
            },
            SolidAnswer::Refused(reason) => {
                let mut line = "element ".to_owned();
                line.append(decimal_string(solid.element as u64).as_str());
                line.append(" (Solid): ");
                line.append(reason.as_str());
                let ghost before = lines@;
                lines.push(line);
                proof {
                    assert(lines@.map_values(|l: String| l@) =~= before.map_values(|l: String| l@).push(
                        refusal_line(solid.element, reason@),
                    ));
                }
            },
            SolidAnswer::NotDisplayed => {
                not_displayed = not_displayed + 1;
            },
        }
        s += 1;
    }
    assert(solids@.take(solids@.len() as int) =~= solids@);
    let n = solids.len();
    let error = if lines.len() > 0 {
        Some(join(&lines, "; "))
    } else {
        None
    };
    ListFacts {
        count: slots.len(),
        absent,
        element_kind,
        triangles: if triangles > 0 { Some(triangles) } else { None },
        solids: if n > 0 { Some(n) } else { None },
        faces: if n > 0 && not_displayed < n { Some(faces) } else { None },
        not_displayed: if n > 0 && not_displayed > 0 { Some(not_displayed) } else { None },
        unclosed: if n > 0 && unclosed > 0 { Some(unclosed) } else { None },
        error,
    }
}

/// The facts of a lone solid's summary.
#[derive(Debug, Clone, PartialEq, Eq)]
pub enum SolidFacts {
    /// Its display mesh's faces, triangles and closure.
    Drawn { faces: usize, triangles: usize, watertight: bool },
    /// Why the kernel cannot mesh it.
    Error(String),
    /// No display pass has meshed it: `tessellation` reads "not displayed".
    NotDisplayed,
}

/// The facts of a lone solid, from what the cache holds for it.
pub fn solid_facts(answer: SolidAnswer) -> (facts: SolidFacts)
    ensures
        facts == match answer {
            SolidAnswer::Drawn { triangles, faces, watertight } => SolidFacts::Drawn { faces, triangles, watertight },
            SolidAnswer::Refused(reason) => SolidFacts::Error(reason),
            SolidAnswer::NotDisplayed => SolidFacts::NotDisplayed,
        },
{
    match answer {
        SolidAnswer::Drawn { triangles, faces, watertight } => SolidFacts::Drawn { faces, triangles, watertight },
        SolidAnswer::Refused(reason) => SolidFacts::Error(reason),
        SolidAnswer::NotDisplayed => SolidFacts::NotDisplayed,
    }
}

/// Does a summary read solids no display pass has meshed (so it must not
/// be memoized)?
pub fn reads_undisplayed_solids(list: Option<&ListFacts>, solid: Option<&SolidFacts>) -> (undisplayed: bool)
    ensures
        undisplayed == ((list matches Some(l) && l.not_displayed is Some) || (solid matches Some(f)
            && *f == SolidFacts::NotDisplayed)),
{
    let from_list = match list {
        Some(l) => l.not_displayed.is_some(),
        None => false,
    };
    let from_solid = match solid {
        Some(SolidFacts::NotDisplayed) => true,
        _ => false,
    };
    from_list || from_solid
}

} // verus!
