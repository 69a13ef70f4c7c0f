//! What a script node returns, held against the output it declared: the
//! kind, list depth and optionality, and a refinement's predicate
//! (`Watertight<Mesh>`, `Closed<Curve>`) — with the counts a refusal
//! reports, among them how many directed edges keep a mesh from closing.

use vstd::prelude::*;
use std::collections::HashMap;
use std::collections::HashSet;
use crate::socket::verdict_view;
use crate::text::{decimal, decimal_string, same_text};

verus! {

// ------------------------------------------------------- mesh edges --

/// The directed edges of the whole triangles of `indices`, three per
/// triangle (`a→b`, `b→c`, `c→a`), in order.
pub open spec fn directed_edges(indices: Seq<u32>) -> Seq<(u32, u32)> {
    Seq::new(
        3 * (indices.len() / 3),
        |p: int|
            {
                let t = p / 3;
                let c = p % 3;
                (indices[3 * t + c], indices[3 * t + (c + 1) % 3])
            },
    )
}

/// How often `e` occurs in `edges`.
pub open spec fn occurrences(edges: Seq<(u32, u32)>, e: (u32, u32)) -> nat
    decreases edges.len(),
{
    if edges.len() == 0 {
        0
    } else {
        occurrences(edges.drop_last(), e) + if edges.last() == e {
            1nat
        } else {
            0nat
        }
    }
}

/// An edge that keeps a mesh from closing: not used exactly once, or its
/// reverse not used exactly once.
pub open spec fn leaky(edges: Seq<(u32, u32)>, e: (u32, u32)) -> bool {
    occurrences(edges, e) != 1 || occurrences(edges, (e.1, e.0)) != 1
}

/// The distinct leaky edges among the first `n` of `edges`, counted at
/// their first occurrence.
pub open spec fn leaky_among(edges: Seq<(u32, u32)>, n: int) -> nat
    decreases n,
{
    if n <= 0 {
        0
    } else {
        leaky_among(edges, n - 1) + if !edges.take(n - 1).contains(edges[n - 1]) && leaky(
            edges,
            edges[n - 1],
        ) {
            1nat
        } else {
            0nat
        }
    }
}

/// An edge's map key.
pub open spec fn edge_key(e: (u32, u32)) -> u64 {
    (e.0 as int * 0x1_0000_0000 + e.1 as int) as u64
}

proof fn lemma_edge_key_injective(a: (u32, u32), b: (u32, u32))
    ensures
        edge_key(a) == edge_key(b) <==> a == b,
{
    assert(a.0 as int * 0x1_0000_0000 + a.1 as int <= u64::MAX);
    assert(b.0 as int * 0x1_0000_0000 + b.1 as int <= u64::MAX);
}

fn key_of_edge(a: u32, b: u32) -> (key: u64)
    ensures
        key == edge_key((a, b)),
{
    a as u64 * 0x1_0000_0000 + b as u64
}

proof fn lemma_occurrences_bound(edges: Seq<(u32, u32)>, e: (u32, u32))
    ensures
        occurrences(edges, e) <= edges.len(),
        occurrences(edges, e) > 0 <==> edges.contains(e),
    decreases edges.len(),
{
    if edges.len() > 0 {
        lemma_occurrences_bound(edges.drop_last(), e);
        if edges.drop_last().contains(e) {
            let i = choose|i: int| 0 <= i < edges.drop_last().len() && edges.drop_last()[i] == e;
            assert(edges[i] == e);
        }
        if edges.contains(e) && edges.last() != e {
            let i = choose|i: int| 0 <= i < edges.len() && edges[i] == e;
            assert(edges.drop_last()[i] == e);
        }
    }
}

/// How many directed edges break watertightness: duplicated (an edge
/// with three faces, or two faces oriented the same way) or unpaired (a
/// boundary edge), each distinct edge counted once.
pub fn leaky_edge_count(indices: &[u32]) -> (count: usize)
    ensures
        count == leaky_among(directed_edges(indices@), directed_edges(indices@).len() as int),
{
    broadcast use vstd::std_specs::hash::group_hash_axioms;
    let ghost edges = directed_edges(indices@);
    let triangles = indices.len() / 3;
    let total = 3 * triangles;
    let mut counts: HashMap<u64, u64> = HashMap::new();
    let mut p: usize = 0;
    while p < total
        invariant
            0 <= p <= total,
            total == 3 * triangles,
            triangles == indices@.len() / 3,
            edges == directed_edges(indices@),
            edges.len() == total,
            forall|e: (u32, u32)|
                #![trigger edge_key(e)]
                (edges.take(p as int).contains(e) ==> counts@.contains_key(edge_key(e)) && counts@[edge_key(e)]
                    == occurrences(edges.take(p as int), e)) && (!edges.take(p as int).contains(e)
                    ==> !counts@.contains_key(edge_key(e))),
        decreases total - p,
    {
        let t = p / 3;
        let c = p % 3;
        let a = indices[3 * t + c];
        let b = indices[3 * t + (c + 1) % 3];
        assert(edges[p as int] == (a, b));
        let key = key_of_edge(a, b);
        let ghost before = counts@;
        let ghost prefix = edges.take(p as int);
        assert(edges.take(p + 1) =~= prefix.push((a, b)));
        assert(edges.take(p + 1).drop_last() =~= prefix);
        let now = match counts.get(&key) {
            Some(n) => *n,
            None => 0,
        };
        proof {
            lemma_occurrences_bound(prefix, (a, b));
            if prefix.contains((a, b)) {
                assert(now == occurrences(prefix, (a, b)));
            } else {
                assert(now == 0);
            }
        }
        counts.insert(key, now + 1);
        proof {
            assert forall|e: (u32, u32)|
                #![trigger edge_key(e)]
                (edges.take(p + 1).contains(e) ==> counts@.contains_key(edge_key(e)) && counts@[edge_key(e)]
                    == occurrences(edges.take(p + 1), e)) && (!edges.take(p + 1).contains(e)
                    ==> !counts@.contains_key(edge_key(e))) by {
                lemma_edge_key_injective(e, (a, b));
                let after = edges.take(p + 1);
                if e != (a, b) {
                    if after.contains(e) {
                        let i = choose|i: int| 0 <= i < after.len() && after[i] == e;
                        assert(prefix[i] == e);
                    }
                    if prefix.contains(e) {
                        let i = choose|i: int| 0 <= i < prefix.len() && prefix[i] == e;
                        assert(after[i] == e);
                    }
                } else {
                    assert(after[p as int] == e);
                }
            }
        }
        p += 1;
    }
    assert(edges.take(total as int) =~= edges);
    let mut seen: HashSet<u64> = HashSet::new();
    let mut count: usize = 0;
    let mut q: usize = 0;
    while q < total
        invariant
            0 <= q <= total,
            total == 3 * triangles,
            triangles == indices@.len() / 3,
            edges == directed_edges(indices@),
            edges.len() == total,
            forall|e: (u32, u32)|
                #![trigger edge_key(e)]
                (edges.contains(e) ==> counts@.contains_key(edge_key(e)) && counts@[edge_key(e)] == occurrences(
                    edges,
                    e,
                )) && (!edges.contains(e) ==> !counts@.contains_key(edge_key(e))),
            forall|e: (u32, u32)| #![trigger edge_key(e)] seen@.contains(edge_key(e)) <==> edges.take(q as int).contains(e),
            count == leaky_among(edges, q as int),
            count <= q,
        decreases total - q,
    {
        let t = q / 3;
        let c = q % 3;
        let a = indices[3 * t + c];
        let b = indices[3 * t + (c + 1) % 3];
        assert(edges[q as int] == (a, b));
        let key = key_of_edge(a, b);
        let ghost prefix = edges.take(q as int);
        assert(edges.take(q + 1) =~= prefix.push((a, b)));
        assert(edges.take(q + 1).drop_last() =~= prefix);
        assert(edges.take(q + 1)[q as int] == (a, b));
        let first = !seen.contains(&key);
        if first {
            seen.insert(key);
            assert(edges.contains((a, b)));
            let own = match counts.get(&key) {
                Some(n) => *n,
                None => 0,
            };
            let back = match counts.get(&key_of_edge(b, a)) {
                Some(n) => *n,
                None => 0,
            };
            proof {
                lemma_occurrences_bound(edges, (b, a));
                if !edges.contains((b, a)) {
                    assert(back == 0);
                } else {
                    assert(back == occurrences(edges, (b, a)));
                }
            }
            if own != 1 || back != 1 {
                count += 1;
            }
        }
        proof {
            assert forall|e: (u32, u32)| #![trigger edge_key(e)] seen@.contains(edge_key(e)) <==> edges.take(q + 1).contains(e) by {
                lemma_edge_key_injective(e, (a, b));
                let after = edges.take(q + 1);
                if e != (a, b) {
                    if after.contains(e) {
                        let i = choose|i: int| 0 <= i < after.len() && after[i] == e;
                        assert(prefix[i] == e);
                    }
                    if prefix.contains(e) {
                        let i = choose|i: int| 0 <= i < prefix.len() && prefix[i] == e;
                        assert(after[i] == e);
                    }
                } else {
                    assert(after[q as int] == e);
                }
            }
        }
        q += 1;
    }
    count
}

// ---------------------------------------------------------- conforms --

/// A value a script returned, as far as checking it against a declared
/// output reads it: its kind's name and its shape.
#[derive(Debug)]
pub struct Returned {
    pub kind: String,
    pub shape: Shape,
}

/// What a returned value is made of.
#[derive(Debug)]
pub enum Shape {
    /// A list's slots (an absent one is `None`).
    List(Vec<Option<Returned>>),
    /// A mesh: whether it is watertight, and its triangle indices.
    Mesh { watertight: bool, indices: Vec<u32> },
    /// A curve: whether it is closed, its variant's name, and a
    /// polyline's vertex count (`None` for other variants).
    Curve { closed: bool, variant: String, polyline_vertices: Option<usize> },
    /// Anything else.
    Plain,
}

/// The slots of a list (none for anything else).
pub open spec fn slots_of(v: Returned) -> Seq<Option<Returned>> {
    match v.shape {
        Shape::List(slots) => slots@,
        _ => Seq::empty(),
    }
}

/// The refusal of a mesh that does not close.
pub open spec fn unclosed_mesh(indices: Seq<u32>) -> Seq<char> {
    "a Mesh that is not watertight ("@ + decimal((indices.len() / 3) as nat) + " triangles, "@ + decimal(
        leaky_among(directed_edges(indices), directed_edges(indices).len() as int),
    ) + " open or inconsistently oriented edges)"@
}

/// The refusal of a curve that does not close.
pub open spec fn open_curve(variant: Seq<char>, polyline_vertices: Option<usize>) -> Seq<char> {
    "an open "@ + variant + match polyline_vertices {
        Some(n) => " ("@ + decimal(n as nat) + " vertices)"@,
        None => Seq::empty(),
    }
}

/// A value at list depth 0 against the base kind `base`: a refinement
/// needs its kind and its predicate; otherwise the kinds must match,
/// an Integer standing for a Number.
pub open spec fn conform_base(v: Returned, base: Seq<char>) -> Result<(), Seq<char>> {
    if base == "Watertight<Mesh>"@ && v.shape is Mesh {
        if v.shape->watertight {
            Ok(())
        } else {
            Err(unclosed_mesh(v.shape->indices@))
        }
    } else if base == "Closed<Curve>"@ && v.shape is Curve {
        if v.shape->closed {
            Ok(())
        } else {
            Err(open_curve(v.shape->variant@, v.shape->polyline_vertices))
        }
    } else if base == "Watertight<Mesh>"@ || base == "Closed<Curve>"@ {
        Err("a "@ + v.kind@)
    } else if v.kind@ == base || (base == "Number"@ && v.kind@ == "Integer"@) {
        Ok(())
    } else {
        Err("a "@ + v.kind@)
    }
}

/// `v` against the declared `base`, list `depth` and optionality, its
/// first `k` slots read (all of them when `k` is its slot count): at a
/// depth the value must be a list whose slots are present (unless
/// optional) and conform one level down; the first refusal names its
/// slot.
pub open spec fn conform_prefix(v: Returned, base: Seq<char>, depth: nat, optional: bool, k: nat) -> Result<(), Seq<char>>
    decreases v, k,
{
    if depth > 0 {
        match v.shape {
            Shape::List(slots) => if k == 0 || k > slots@.len() {
                Ok(())
            } else {
                match conform_prefix(v, base, depth, optional, (k - 1) as nat) {
                    Err(reason) => Err(reason),
                    Ok(()) => {
                        let i = k - 1;
                        match slots@[i] {
                            None => if optional {
                                Ok(())
                            } else {
                                Err("an absent element at slot "@ + decimal(i as nat))
                            },
                            Some(element) => match conform_prefix(
                                element,
                                base,
                                (depth - 1) as nat,
                                optional,
                                slots_of(element).len(),
                            ) {
                                Ok(()) => Ok(()),
                                Err(reason) => Err(reason + " at slot "@ + decimal(i as nat)),
                            },
                        }
                    },
                }
            },
            _ => Err("a "@ + v.kind@),
        }
    } else {
        conform_base(v, base)
    }
}

/// Whether `v` conforms to the declared `base`, `depth` and optionality.
pub open spec fn conform_spec(v: Returned, base: Seq<char>, depth: nat, optional: bool) -> Result<(), Seq<char>> {
    conform_prefix(v, base, depth, optional, slots_of(v).len())
}

/// `text` followed by `n` in decimal and `tail`.
fn with_count(text: &str, n: usize, tail: &str) -> (out: String)
    ensures
        out@ == text@ + decimal(n as nat) + tail@,
{
    let mut out = text.to_owned();
    out.append(decimal_string(n as u64).as_str());
    out.append(tail);
    out
}

/// `text` followed by `n` in decimal.
fn count_after(text: &str, n: usize) -> (out: String)
    ensures
        out@ == text@ + decimal(n as nat),
{
    let mut out = text.to_owned();
    out.append(decimal_string(n as u64).as_str());
    out
}

/// A refusal at slot `k` stands for every longer prefix.
proof fn lemma_refusal_stands(v: Returned, base: Seq<char>, depth: nat, optional: bool, k: nat, n: nat)
    requires
        depth > 0,
        v.shape is List,
        k <= n <= slots_of(v).len(),
        conform_prefix(v, base, depth, optional, k) is Err,
    ensures
        conform_prefix(v, base, depth, optional, n) == conform_prefix(v, base, depth, optional, k),
    decreases n - k,
{
    if n > k {
        lemma_refusal_stands(v, base, depth, optional, k, (n - 1) as nat);
    }
}

/// "a {kind}".
fn a_kind(kind: &String) -> (out: String)
    ensures
        out@ == "a "@ + kind@,
{
    let mut out = "a ".to_owned();
    out.append(kind.as_str());
    out
}

/// A value at list depth 0 against `base` (see [`conform_base`]).
fn conforms_base(value: &Returned, base: &str) -> (verdict: Result<(), String>)
    ensures
        verdict_view(verdict) == conform_base(*value, base@),
{
    let watertight_mesh = same_text(base, "Watertight<Mesh>");
    let closed_curve = same_text(base, "Closed<Curve>");
    match &value.shape {
        Shape::Mesh { watertight, indices } => {
            if watertight_mesh {
                if *watertight {
                    return Ok(());
                }
                let mut out = with_count("a Mesh that is not watertight (", indices.len() / 3, " triangles, ");
                let leaky = leaky_edge_count(indices.as_slice());
                out.append(decimal_string(leaky as u64).as_str());
                out.append(" open or inconsistently oriented edges)");
                return Err(out);
            }
        },
        Shape::Curve { closed, variant, polyline_vertices } => {
            if closed_curve {
                if *closed {
                    return Ok(());
                }
                let mut out = "an open ".to_owned();
                out.append(variant.as_str());
                match polyline_vertices {
                    Some(n) => {
                        let detail = with_count(" (", *n, " vertices)");
                        out.append(detail.as_str());
                    },
                    None => {},
                }
                proof {
                    assert(out@ =~= open_curve(variant@, *polyline_vertices));
                }
                return Err(out);
            }
        },
        _ => {},
    }
    if watertight_mesh || closed_curve {
        return Err(a_kind(&value.kind));
    }
    if same_text(value.kind.as_str(), base) || (same_text(base, "Number") && same_text(
        value.kind.as_str(),
        "Integer",
    )) {
        Ok(())
    } else {
        Err(a_kind(&value.kind))
    }
}

/// Does a returned value conform to the declared output (see
/// [`conform_spec`])? An Integer where a Number is declared is legal; a
/// declared refinement needs the base kind and its predicate, and the
/// refusal carries the counts.
pub fn conforms(value: &Returned, base: &str, depth: u8, optional: bool) -> (verdict: Result<(), String>)
    ensures
        verdict_view(verdict) == conform_spec(*value, base@, depth as nat, optional),
    decreases value,
{
    if depth == 0 {
        return conforms_base(value, base);
    }
    match &value.shape {
        Shape::List(slots) => {
            let mut i: usize = 0;
            while i < slots.len()
                invariant
                    0 <= i <= slots@.len(),
                    depth > 0,
                    value.shape == Shape::List(*slots),
                    conform_prefix(*value, base@, depth as nat, optional, i as nat) is Ok,
                decreases slots@.len() - i,
            {
                match &slots[i] {
                    None => {
                        if !optional {
                            let out = count_after("an absent element at slot ", i);
                            proof {
                                lemma_refusal_stands(*value, base@, depth as nat, optional, (i + 1) as nat, slots@.len() as nat);
                            }
                            return Err(out);
                        }
                    },
                    Some(element) => {
                        proof {
                            assert(decreases_to!(*value => *element));
                        }
                        match conforms(element, base, depth - 1, optional) {
                            Ok(()) => {},
                            Err(reason) => {
                                let ghost why = reason@;
                                let mut out = reason;
                                out.append(count_after(" at slot ", i).as_str());
                                proof {
                                    assert(slots@[i as int] == Some(*element));
                                    assert(out@ =~= why + " at slot "@ + decimal(i as nat));
                                    assert(conform_prefix(*value, base@, depth as nat, optional, (i + 1) as nat)
                                        == Err::<(), Seq<char>>(out@));
                                    lemma_refusal_stands(*value, base@, depth as nat, optional, (i + 1) as nat, slots@.len() as nat);
                                }
                                return Err(out);
                            },
                        }
                    },
                }
                i += 1;
            }
            Ok(())
        },
        _ => Err(a_kind(&value.kind)),
    }
}

/// A declared refinement takes the base kind and its predicate: a value
/// conforms to `Watertight<Mesh>` exactly when it is a watertight mesh,
/// and to `Closed<Curve>` exactly when it is a closed curve.
pub proof fn lemma_refinements_need_their_predicate(v: Returned, optional: bool)
    ensures
        conform_spec(v, "Watertight<Mesh>"@, 0, optional) is Ok <==> (v.shape matches Shape::Mesh {
            watertight,
            ..
        } && watertight),
        conform_spec(v, "Closed<Curve>"@, 0, optional) is Ok <==> (v.shape matches Shape::Curve {
            closed,
            ..
        } && closed),
{
    reveal_strlit("Watertight<Mesh>");
    reveal_strlit("Closed<Curve>");
    assert("Watertight<Mesh>"@.len() == 16);
    assert("Closed<Curve>"@.len() == 13);
}

/// An Integer stands wherever a Number is declared.
pub proof fn lemma_integers_widen_to_numbers(v: Returned, optional: bool)
    requires
        v.kind@ == "Integer"@,
    ensures
        conform_spec(v, "Number"@, 0, optional) is Ok,
{
    reveal_strlit("Number");
    reveal_strlit("Integer");
    reveal_strlit("Watertight<Mesh>");
    reveal_strlit("Closed<Curve>");
    assert("Number"@.len() == 6);
    assert("Watertight<Mesh>"@.len() == 16);
    assert("Closed<Curve>"@.len() == 13);
}

} // verus!
