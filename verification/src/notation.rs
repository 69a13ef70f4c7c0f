//! Script port type notation: `"[Point]"`, `"Number?"` — a marshallable
//! base kind with `[..]` list nesting and `?` optionality.
use vstd::prelude::*;
use crate::status::texts;
use crate::text::{chars_between, chars_of, joined, same_chars, same_text, string_of, trim_text, trimmed};

verus! {

/// The port base kinds that cross the Python boundary (the refinements
/// ride as their base kind and are re-checked on the way back in).
pub open spec fn marshallable_kinds() -> Seq<Seq<char>> {
    seq![
        "Number"@,
        "Integer"@,
        "Boolean"@,
        "Text"@,
        "Point"@,
        "Vector"@,
        "Domain"@,
        "Plane"@,
        "Mesh"@,
        "Watertight<Mesh>"@,
        "Curve"@,
        "Closed<Curve>"@,
    ]
}

/// The port base kinds that cross the Python boundary, in their
/// documented order.
pub fn marshallable() -> (kinds: [&'static str; 12])
    ensures
        forall|k: int| 0 <= k < 12 ==> #[trigger] kinds@[k]@ == marshallable_kinds()[k],
{
    [
        "Number",
        "Integer",
        "Boolean",
        "Text",
        "Point",
        "Vector",
        "Domain",
        "Plane",
        "Mesh",
        "Watertight<Mesh>",
        "Curve",
        "Closed<Curve>",
    ]
}

/// A script port's declared type: its base kind, list depth, and
/// optionality.
#[derive(Debug, Clone, Copy, PartialEq, Eq)]
pub struct PortNotation {
    /// One of the marshallable kinds.
    pub base: &'static str,
    /// `[..]` nesting.
    pub list_depth: u8,
    /// A trailing `?`.
    pub optional: bool,
}

/// The list depth and what is left of `s` once its enclosing `[..]`
/// pairs are taken off.
pub open spec fn peel(s: Seq<char>) -> (nat, Seq<char>)
    decreases s.len(),
{
    if s.len() >= 2 && s[0] == '[' && s.last() == ']' {
        let inner = peel(s.subrange(1, s.len() - 1));
        (inner.0 + 1, inner.1)
    } else {
        (0, s)
    }
}

/// The base and optionality of a peeled notation.
pub open spec fn base_and_optional(rest: Seq<char>) -> (Seq<char>, bool) {
    if rest.len() > 0 && rest.last() == '?' {
        (rest.drop_last(), true)
    } else {
        (rest, false)
    }
}

/// Why a notation was refused.
pub open spec fn notation_refusal(text: Seq<char>) -> Seq<char> {
    "type `"@ + text + "` cannot cross the Python boundary — script ports take "@ + joined(
        marshallable_kinds(),
        ", "@,
    ) + ", with [list] nesting and ? optionality"@
}

/// `"[Point]"` / `"Number?"` read as a port type, marshallable bases only
/// (surrounding white space ignored). The list depth is a `u8`: a
/// notation nested deeper than 255 levels is outside what this reads.
pub fn parse_notation(text: &str) -> (notation: Result<PortNotation, String>)
    requires
        peel(trimmed(text@)).0 <= 255,
    ensures
        match notation {
            Ok(t) => marshallable_kinds().contains(base_and_optional(peel(trimmed(text@)).1).0)
                && t.base@ == base_and_optional(peel(trimmed(text@)).1).0 && t.list_depth as nat == peel(
                trimmed(text@),
            ).0 && t.optional == base_and_optional(peel(trimmed(text@)).1).1,
            Err(m) => !marshallable_kinds().contains(base_and_optional(peel(trimmed(text@)).1).0)
                && m@ == notation_refusal(text@),
        },
{
    let trimmed_text = trim_text(text);
    let chars = chars_of(trimmed_text.as_str());
    let mut from: usize = 0;
    let mut to: usize = chars.len();
    let mut depth: u8 = 0;
    assert(chars@.subrange(0, chars@.len() as int) =~= chars@);
    while to - from >= 2 && chars[from] == '[' && chars[to - 1] == ']'
        invariant
            0 <= from <= to <= chars@.len(),
            chars@ == trimmed(text@),
            peel(chars@).0 <= 255,
            peel(chars@).0 == depth + peel(chars@.subrange(from as int, to as int)).0,
            peel(chars@).1 == peel(chars@.subrange(from as int, to as int)).1,
        decreases to - from,
    {
        let ghost s = chars@.subrange(from as int, to as int);
        assert(s[0] == chars@[from as int]);
        assert(s.last() == chars@[to - 1]);
        assert(s.subrange(1, s.len() - 1) =~= chars@.subrange(from + 1, to - 1));
        proof {
            lemma_peel_bounded(s);
        }
        depth = depth + 1;
        from = from + 1;
        to = to - 1;
    }
    let ghost rest = chars@.subrange(from as int, to as int);
    assert(peel(rest).1 == rest);
    let optional = to > from && chars[to - 1] == '?';
    let base_end: usize = if optional {
        to - 1
    } else {
        to
    };
    let base = chars_between(chars.as_slice(), from, base_end);
    assert(optional ==> base@ =~= rest.drop_last());
    assert(!optional ==> base@ =~= rest);
    assert(peel(rest).0 == 0);
    assert(to > from ==> rest.last() == chars@[to - 1]);
    assert(base_and_optional(rest).0 == base@);
    assert(base_and_optional(rest).1 == optional);
    let ghost goal_base = base_and_optional(peel(trimmed(text@)).1).0;
    assert(goal_base == base@);
    let kinds = marshallable();
    let mut k: usize = 0;
    while k < 12
        invariant
            0 <= k <= 12,
            forall|m: int| 0 <= m < 12 ==> #[trigger] kinds@[m]@ == marshallable_kinds()[m],
            forall|m: int| 0 <= m < k ==> marshallable_kinds()[m] != base@,
            goal_base == base@,
            goal_base == base_and_optional(peel(trimmed(text@)).1).0,
            optional == base_and_optional(peel(trimmed(text@)).1).1,
            depth as nat == peel(trimmed(text@)).0,
        decreases 12 - k,
    {
        let candidate = kinds[k];
        assert(kinds@[k as int]@ == marshallable_kinds()[k as int]);
        let candidate_chars = chars_of(candidate);
        if same_chars(candidate_chars.as_slice(), base.as_slice()) {
            assert(marshallable_kinds()[k as int] == base@);
            assert(marshallable_kinds().contains(base@));
            return Ok(PortNotation { base: candidate, list_depth: depth, optional });
        }
        k += 1;
    }
    assert(marshallable_kinds().len() == 12);
    let mut message = "type `".to_owned();
    message.append(text);
    message.append("` cannot cross the Python boundary — script ports take ");
    let mut names: Vec<String> = Vec::new();
    let mut n: usize = 0;
    while n < 12
        invariant
            0 <= n <= 12,
            forall|m: int| 0 <= m < 12 ==> #[trigger] kinds@[m]@ == marshallable_kinds()[m],
            names@.map_values(|s: String| s@) == marshallable_kinds().take(n as int),
        decreases 12 - n,
    {
        let ghost prev = names@;
        names.push(kinds[n].to_owned());
        assert(names@ =~= prev.push(names@.last()));
        assert(marshallable_kinds().take(n + 1) =~= marshallable_kinds().take(n as int).push(
            marshallable_kinds()[n as int],
        ));
        assert(names@.map_values(|s: String| s@) =~= prev.map_values(|s: String| s@).push(
            kinds@[n as int]@,
        ));
        n += 1;
    }
    assert(marshallable_kinds().take(12) =~= marshallable_kinds());
    let listed = crate::text::join(&names, ", ");
    message.append(listed.as_str());
    message.append(", with [list] nesting and ? optionality");
    Err(message)
}

/// Peeling one pair adds one level.
proof fn lemma_peel_bounded(s: Seq<char>)
    requires
        s.len() >= 2,
        s[0] == '[',
        s.last() == ']',
    ensures
        peel(s).0 == peel(s.subrange(1, s.len() - 1)).0 + 1,
        peel(s).1 == peel(s.subrange(1, s.len() - 1)).1,
{
}

/// Why a discovered script node cannot be registered.
#[derive(Debug, Clone, Copy, PartialEq, Eq, Structural)]
pub enum Collision {
    /// A standard-library node has the name.
    Stdlib,
    /// An earlier script node has the name.
    Duplicate,
}

/// Whether a script node named `name` collides with the standard
/// library's `stdlib` names (checked first) or with the script nodes
/// `taken` before it.
pub open spec fn collision_of(stdlib: Seq<Seq<char>>, taken: Seq<Seq<char>>, name: Seq<char>) -> Option<Collision> {
    if stdlib.contains(name) {
        Some(Collision::Stdlib)
    } else if taken.contains(name) {
        Some(Collision::Duplicate)
    } else {
        None
    }
}

/// Is `name` one of `names`?
fn among(names: &Vec<String>, name: &str) -> (found: bool)
    ensures
        found == texts(names@).contains(name@),
{
    let mut k: usize = 0;
    while k < names.len()
        invariant
            0 <= k <= names@.len(),
            forall|j: int| 0 <= j < k ==> texts(names@)[j] != name@,
        decreases names@.len() - k,
    {
        if same_text(names[k].as_str(), name) {
            assert(texts(names@)[k as int] == name@);
            return true;
        }
        k += 1;
    }
    false
}

/// Does a newly described script node collide (see [`collision_of`])?
pub fn node_collision(stdlib: &Vec<String>, taken: &Vec<String>, name: &str) -> (collision: Option<Collision>)
    ensures
        collision == collision_of(texts(stdlib@), texts(taken@), name@),
{
    if among(stdlib, name) {
        Some(Collision::Stdlib)
    } else if among(taken, name) {
        Some(Collision::Duplicate)
    } else {
        None
    }
}

} // verus!
