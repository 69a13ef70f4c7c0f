//! Unified-diff hunk headers (`@@ -a,b +c,d @@`) and the node markers a
//! working document's diff against HEAD renders to.
use vstd::prelude::*;
use crate::protocol::{ChangeKind, NodeChange, RemovedNode};
use crate::status::opt_view;
use crate::text::{
    chars_between, chars_of, chars_start_with, decimal, decimal_string, find_char, first_index,
    lemma_split_nonempty, parse_unsigned, same_text, split_chars, split_on, starts_with,
    string_of, trim_text, trimmed, unsigned_value, lemma_first_index,
};

verus! {

/// One hunk header of a unified diff: `@@ -old_start,old_count
/// +new_start,new_count @@`. Counts default to 1 when omitted; a count of
/// 0 is a pure insertion/deletion point.
#[derive(Debug, Clone, Copy, PartialEq, Eq, Structural)]
pub struct Hunk {
    /// First old-side line (1-based).
    pub old_start: usize,
    /// Old-side lines covered.
    pub old_count: usize,
    /// First new-side line (1-based).
    pub new_start: usize,
    /// New-side lines covered.
    pub new_count: usize,
}

// -------------------------------------------------------------- lines --

/// A line without the `\r` of a `\r\n` ending.
pub open spec fn strip_cr(line: Seq<char>) -> Seq<char> {
    if line.len() > 0 && line.last() == '\r' {
        line.drop_last()
    } else {
        line
    }
}

/// The lines of `s` as `str::lines` gives them: cut at each `\n` (a `\r`
/// before it dropped too); a final line ending is optional and adds no
/// empty line; a last line without an ending keeps its characters.
pub open spec fn lines_of(s: Seq<char>) -> Seq<Seq<char>> {
    let pieces = split_on(s, '\n');
    let ended = pieces.drop_last().map_values(|l: Seq<char>| strip_cr(l));
    if pieces.last().len() == 0 {
        ended
    } else {
        ended.push(pieces.last())
    }
}

/// The lines of `chars`, as `str::lines` cuts them.
pub(crate) fn text_lines(chars: &[char]) -> (lines: Vec<Vec<char>>)
    ensures
        lines@.map_values(|l: Vec<char>| l@) == lines_of(chars@),
{
    let pieces = split_chars(chars, '\n');
    let ghost views = pieces@.map_values(|p: Vec<char>| p@);
    proof {
        lemma_split_nonempty(chars@, '\n');
    }
    let count = pieces.len();
    let mut lines: Vec<Vec<char>> = Vec::new();
    let mut k: usize = 0;
    while k + 1 < count
        invariant
            count == pieces@.len(),
            count >= 1,
            views == pieces@.map_values(|p: Vec<char>| p@),
            views == split_on(chars@, '\n'),
            0 <= k < count,
            lines@.map_values(|l: Vec<char>| l@) == views.take(k as int).map_values(
                |l: Seq<char>| strip_cr(l),
            ),
        decreases count - k,
    {
        let piece = &pieces[k];
        assert(views[k as int] == piece@);
        let n = piece.len();
        let line = if n > 0 && piece[n - 1] == '\r' {
            let cut = chars_between(piece.as_slice(), 0, n - 1);
            assert(cut@ =~= piece@.drop_last());
            cut
        } else {
            chars_between(piece.as_slice(), 0, n)
        };
        assert(line@ =~= strip_cr(piece@));
        let ghost prev = lines@;
        lines.push(line);
        assert(lines@ =~= prev.push(line));
        assert(lines@.map_values(|l: Vec<char>| l@) =~= prev.map_values(|l: Vec<char>| l@).push(line@));
        assert(views.take(k + 1) =~= views.take(k as int).push(views[k as int]));
        assert(lines@.map_values(|l: Vec<char>| l@) =~= views.take(k + 1).map_values(
            |l: Seq<char>| strip_cr(l),
        ));
        k += 1;
    }
    assert(views.take(k as int) =~= views.drop_last());
    let last = &pieces[count - 1];
    assert(views.last() == last@);
    if last.len() > 0 {
        let kept = chars_between(last.as_slice(), 0, last.len());
        assert(kept@ =~= last@);
        let ghost prev = lines@;
        lines.push(kept);
        assert(lines@ =~= prev.push(kept));
        assert(lines@.map_values(|l: Vec<char>| l@) =~= lines_of(chars@));
    }
    lines
}

// ------------------------------------------------------------ headers --

/// Where `pat` first occurs in `s`.
pub open spec fn infix_at(s: Seq<char>, pat: Seq<char>) -> Option<int>
    decreases s.len(),
{
    if s.len() < pat.len() {
        None
    } else if s.take(pat.len() as int) == pat {
        Some(0)
    } else if s.len() == 0 {
        None
    } else {
        match infix_at(s.drop_first(), pat) {
            Some(i) => Some(i + 1),
            None => None,
        }
    }
}

/// `pat` sits at `k` in `s`.
pub open spec fn sits_at(s: Seq<char>, pat: Seq<char>, k: int) -> bool {
    0 <= k && k + pat.len() <= s.len() && s.subrange(k, k + pat.len()) == pat
}

/// What `infix_at` finds: the first place where `pat` sits.
pub proof fn lemma_infix_at(s: Seq<char>, pat: Seq<char>)
    ensures
        infix_at(s, pat) matches Some(i) ==> sits_at(s, pat, i) && forall|k: int|
            0 <= k < i ==> !sits_at(s, pat, k),
        infix_at(s, pat) is None ==> forall|k: int| !sits_at(s, pat, k),
    decreases s.len(),
{
    if s.len() < pat.len() {
    } else if s.take(pat.len() as int) == pat {
        assert(s.subrange(0, pat.len() as int) =~= s.take(pat.len() as int));
    } else if s.len() == 0 {
        assert(s.take(pat.len() as int) =~= pat);
    } else {
        let t = s.drop_first();
        lemma_infix_at(t, pat);
        assert(!sits_at(s, pat, 0)) by {
            assert(s.subrange(0, pat.len() as int) =~= s.take(pat.len() as int));
        }
        if let Some(i) = infix_at(t, pat) {
            assert(s.subrange(i + 1, i + 1 + pat.len()) =~= t.subrange(i, i + pat.len()));
            assert forall|k: int| 0 <= k < i + 1 implies !sits_at(s, pat, k) by {
                if k >= 1 {
                    assert(!sits_at(t, pat, k - 1));
                    if k + pat.len() <= s.len() {
                        assert(s.subrange(k, k + pat.len()) =~= t.subrange(k - 1, k - 1 + pat.len()));
                    }
                }
            }
        } else {
            assert forall|k: int| !sits_at(s, pat, k) by {
                if k >= 1 && k + pat.len() <= s.len() {
                    assert(!sits_at(t, pat, k - 1));
                    assert(s.subrange(k, k + pat.len()) =~= t.subrange(k - 1, k - 1 + pat.len()));
                }
            }
        }
    }
}

/// The first place of `pat` in `chars`.
fn infix_index(chars: &[char], pat: &[char]) -> (found: Option<usize>)
    ensures
        match found {
            Some(i) => infix_at(chars@, pat@) == Some(i as int),
            None => infix_at(chars@, pat@) is None,
        },
{
    proof {
        lemma_infix_at(chars@, pat@);
    }
    let n = chars.len();
    let p = pat.len();
    if p > n {
        return None;
    }
    let mut i: usize = 0;
    while i <= n - p
        invariant
            n == chars@.len(),
            p == pat@.len(),
            p <= n,
            0 <= i <= n - p + 1,
            forall|k: int| 0 <= k < i ==> !sits_at(chars@, pat@, k),
        decreases n - i,
    {
        let mut j: usize = 0;
        while j < p && chars[i + j] == pat[j]
            invariant
                n == chars@.len(),
                p == pat@.len(),
                i + p <= n,
                0 <= j <= p,
                forall|m: int| 0 <= m < j ==> chars@[i + m] == pat@[m],
            decreases p - j,
        {
            j += 1;
        }
        if j == p {
            assert(chars@.subrange(i as int, i + p) =~= pat@);
            proof {
                lemma_infix_at(chars@, pat@);
                assert(sits_at(chars@, pat@, i as int));
                if let Some(f) = infix_at(chars@, pat@) {
                    if f < i {
                        assert(!sits_at(chars@, pat@, f));
                    }
                    if f > i {
                        assert(!sits_at(chars@, pat@, i as int));
                    }
                    assert(f == i);
                }
            }
            return Some(i);
        }
        assert(chars@.subrange(i as int, i + p)[j as int] != pat@[j as int]);
        i += 1;
    }
    assert forall|k: int| !sits_at(chars@, pat@, k) by {
        if 0 <= k && k + p <= n {
            assert(k < i);
        }
    }
    proof {
        lemma_infix_at(chars@, pat@);
        if let Some(f) = infix_at(chars@, pat@) {
            assert(sits_at(chars@, pat@, f));
        }
    }
    None
}

/// A hunk range `start[,count]`, the count 1 when omitted; each a
/// `usize` as `from_str` reads it.
pub open spec fn range_value(text: Seq<char>) -> Option<(usize, usize)> {
    match first_index(text, ',') {
        Some(i) => match unsigned_value(text.take(i), usize::MAX as nat) {
            Some(start) => match unsigned_value(text.skip(i + 1), usize::MAX as nat) {
                Some(count) => Some((start as usize, count as usize)),
                None => None,
            },
            None => None,
        },
        None => match unsigned_value(text, usize::MAX as nat) {
            Some(start) => Some((start as usize, 1usize)),
            None => None,
        },
    }
}

/// The hunk a line of a diff heads, if it is a hunk header.
pub open spec fn hunk_of(line: Seq<char>) -> Option<Hunk> {
    if !starts_with(line, "@@ -"@) {
        None
    } else {
        let rest = line.skip("@@ -"@.len() as int);
        match infix_at(rest, " +"@) {
            None => None,
            Some(i) => {
                let old = rest.take(i);
                let tail = rest.skip(i + " +"@.len());
                match infix_at(tail, " @@"@) {
                    None => None,
                    Some(j) => match range_value(old) {
                        None => None,
                        Some((old_start, old_count)) => match range_value(tail.take(j)) {
                            None => None,
                            Some((new_start, new_count)) => Some(
                                Hunk { old_start, old_count, new_start, new_count },
                            ),
                        },
                    },
                }
            },
        }
    }
}

/// The hunk headers among `lines`, in order.
pub open spec fn hunks_of_lines(lines: Seq<Seq<char>>) -> Seq<Hunk>
    decreases lines.len(),
{
    if lines.len() == 0 {
        Seq::empty()
    } else {
        let before = hunks_of_lines(lines.drop_last());
        match hunk_of(lines.last()) {
            Some(h) => before.push(h),
            None => before,
        }
    }
}

/// The hunk headers of a diff text, in order.
pub open spec fn diff_hunks(diff: Seq<char>) -> Seq<Hunk> {
    hunks_of_lines(lines_of(diff))
}

/// A hunk range.
fn range_of(text: &[char]) -> (range: Option<(usize, usize)>)
    ensures
        range == range_value(text@),
{
    let max = usize::MAX as u64;
    match find_char(text, ',') {
        Some(at) => {
            proof {
                crate::text::lemma_first_index(text@, ',');
            }
            let n = text.len();
            let start_chars = chars_between(text, 0, at);
            let count_chars = chars_between(text, at + 1, n);
            assert(start_chars@ =~= text@.take(at as int));
            assert(count_chars@ =~= text@.skip(at + 1));
            match parse_unsigned(start_chars.as_slice(), max) {
                Some(start) => match parse_unsigned(count_chars.as_slice(), max) {
                    Some(count) => Some((start as usize, count as usize)),
                    None => None,
                },
                None => None,
            }
        },
        None => match parse_unsigned(text, max) {
            Some(start) => Some((start as usize, 1)),
            None => None,
        },
    }
}

/// The hunk a line heads, if any.
fn hunk_in(line: &[char]) -> (hunk: Option<Hunk>)
    ensures
        hunk == hunk_of(line@),
{
    let lead = chars_of("@@ -");
    if !chars_start_with(line, lead.as_slice()) {
        return None;
    }
    let n = line.len();
    let rest = chars_between(line, lead.len(), n);
    assert(rest@ =~= line@.skip("@@ -"@.len() as int));
    let plus = chars_of(" +");
    let at = match infix_index(rest.as_slice(), plus.as_slice()) {
        Some(at) => at,
        None => {
            return None;
        },
    };
    proof {
        lemma_infix_at(rest@, " +"@);
    }
    let old = chars_between(rest.as_slice(), 0, at);
    let tail = chars_between(rest.as_slice(), at + plus.len(), rest.len());
    assert(old@ =~= rest@.take(at as int));
    assert(tail@ =~= rest@.skip(at + " +"@.len()));
    let close = chars_of(" @@");
    let end = match infix_index(tail.as_slice(), close.as_slice()) {
        Some(end) => end,
        None => {
            return None;
        },
    };
    proof {
        lemma_infix_at(tail@, " @@"@);
    }
    let new = chars_between(tail.as_slice(), 0, end);
    assert(new@ =~= tail@.take(end as int));
    let (old_start, old_count) = match range_of(old.as_slice()) {
        Some(r) => r,
        None => {
            return None;
        },
    };
    let (new_start, new_count) = match range_of(new.as_slice()) {
        Some(r) => r,
        None => {
            return None;
        },
    };
    Some(Hunk { old_start, old_count, new_start, new_count })
}

/// The hunk headers of a `git diff -U0 --no-color` output (the bodies are
/// irrelevant: line ranges are all the markers need).
pub fn parse_hunks(diff: &str) -> (hunks: Vec<Hunk>)
    ensures
        hunks@ == diff_hunks(diff@),
{
    let chars = chars_of(diff);
    let lines = text_lines(chars.as_slice());
    let ghost views = lines@.map_values(|l: Vec<char>| l@);
    let mut hunks: Vec<Hunk> = Vec::new();
    let mut k: usize = 0;
    while k < lines.len()
        invariant
            0 <= k <= lines@.len(),
            views == lines@.map_values(|l: Vec<char>| l@),
            views == lines_of(diff@),
            hunks@ == hunks_of_lines(views.take(k as int)),
        decreases lines@.len() - k,
    {
        assert(views[k as int] == lines@[k as int]@);
        assert(views.take(k + 1).drop_last() =~= views.take(k as int));
        assert(views.take(k + 1).last() == views[k as int]);
        match hunk_in(lines[k].as_slice()) {
            Some(h) => {
                hunks.push(h);
            },
            None => {},
        }
        k += 1;
    }
    assert(views.take(lines@.len() as int) =~= views);
    hunks
}


// ------------------------------------------------------------ markers --

/// A line that names a node: its 0-based line, the node name, and
/// everything after the first `=`, trimmed (the rename-pairing key).
#[derive(Debug, Clone, PartialEq, Eq)]
pub struct LineNode {
    /// 0-based line index.
    pub line: usize,
    /// The node name.
    pub name: String,
    /// Everything after the first `=`, trimmed.
    pub rhs: Option<String>,
}

/// What a document line is, as far as naming its node goes.
#[derive(Debug, Clone, PartialEq, Eq)]
pub enum LineShape {
    /// A statement, live or disabled, named by its target.
    Statement(String),
    /// A disabled line whose statement does not parse, with the name it
    /// still shows, if any.
    Disabled(Option<String>),
    /// A line that does not parse, with the node name it still shows, if
    /// any.
    Broken(Option<String>),
    /// A blank line, a comment or a pragma: no node.
    Other,
}

/// One line of a document: its shape and its raw text.
#[derive(Debug, Clone, PartialEq, Eq)]
pub struct SourceLine {
    pub shape: LineShape,
    pub raw: String,
}

/// The fallback name of the node on 0-based line `index`.
pub open spec fn line_name(index: int) -> Seq<char> {
    "line_"@ + decimal((index + 1) as nat)
}

/// Everything after the first `=` of `raw`, trimmed; `None` without one.
pub open spec fn rhs_of(raw: Seq<char>) -> Option<Seq<char>> {
    match first_index(raw, '=') {
        Some(i) => Some(trimmed(raw.skip(i + 1))),
        None => None,
    }
}

/// The node on 0-based line `index`, if the line names one.
pub open spec fn node_of_line(index: int, line: SourceLine) -> Option<NodeLine> {
    let name = match line.shape {
        LineShape::Statement(name) => Some(name@),
        LineShape::Disabled(Some(name)) => Some(name@),
        LineShape::Broken(Some(name)) => Some(name@),
        LineShape::Disabled(None) => Some(line_name(index)),
        LineShape::Broken(None) => Some(line_name(index)),
        LineShape::Other => None,
    };
    match name {
        Some(name) => Some(NodeLine { line: index, name, rhs: rhs_of(line.raw@) }),
        None => None,
    }
}

/// The nodes of a document's lines, in line order.
pub open spec fn nodes_of_lines(lines: Seq<SourceLine>) -> Seq<NodeLine>
    decreases lines.len(),
{
    if lines.len() == 0 {
        Seq::empty()
    } else {
        let earlier = nodes_of_lines(lines.drop_last());
        match node_of_line(lines.len() - 1, lines.last()) {
            Some(node) => earlier.push(node),
            None => earlier,
        }
    }
}

/// The text after the first `=` of `raw`, trimmed.
fn rhs_text(raw: &str) -> (rhs: Option<String>)
    ensures
        opt_view(rhs) == rhs_of(raw@),
{
    let chars = chars_of(raw);
    match find_char(chars.as_slice(), '=') {
        Some(i) => {
            proof {
                lemma_first_index(chars@, '=');
            }
            let rest = chars_between(chars.as_slice(), i + 1, chars.len());
            assert(rest@ =~= raw@.skip(i + 1));
            let text = string_of(rest.as_slice());
            Some(trim_text(text.as_str()))
        },
        None => None,
    }
}

/// The node of line `index`, if it names one.
fn line_node(index: usize, line: &SourceLine) -> (node: Option<LineNode>)
    requires
        index < usize::MAX,
    ensures
        match node {
            Some(n) => node_of_line(index as int, *line) == Some(node_line(n)),
            None => node_of_line(index as int, *line) is None,
        },
{
    let name = match &line.shape {
        LineShape::Statement(name) => name.clone(),
        LineShape::Disabled(Some(name)) => name.clone(),
        LineShape::Broken(Some(name)) => name.clone(),
        LineShape::Disabled(None) | LineShape::Broken(None) => {
            let mut name = "line_".to_owned();
            name.append(decimal_string((index + 1) as u64).as_str());
            name
        },
        LineShape::Other => {
            return None;
        },
    };
    Some(LineNode { line: index, name, rhs: rhs_text(line.raw.as_str()) })
}

/// The nodes a document's lines name, in line order: a statement's
/// target (a disabled one's too), the name a broken or disabled line
/// still shows, else `line_N` for its 1-based line; blank lines,
/// comments and pragmas name none.
pub fn line_nodes(lines: &[SourceLine]) -> (nodes: Vec<LineNode>)
    ensures
        node_lines(nodes@) == nodes_of_lines(lines@),
        lines_fit(nodes@),
{
    let mut nodes: Vec<LineNode> = Vec::new();
    let mut k: usize = 0;
    while k < lines.len()
        invariant
            0 <= k <= lines@.len(),
            node_lines(nodes@) == nodes_of_lines(lines@.take(k as int)),
            forall|j: int| 0 <= j < nodes@.len() ==> #[trigger] nodes@[j].line < k,
        decreases lines@.len() - k,
    {
        assert(lines@.take(k + 1).drop_last() =~= lines@.take(k as int));
        let ghost before = nodes@;
        match line_node(k, &lines[k]) {
            Some(n) => {
                nodes.push(n);
                assert(node_lines(nodes@) =~= node_lines(before).push(node_line(n)));
            },
            None => {},
        }
        k += 1;
    }
    assert(lines@.take(lines@.len() as int) =~= lines@);
    nodes
}

/// The names of the nodes a document's lines name, in line order.
pub fn node_names(lines: &[SourceLine]) -> (names: Vec<String>)
    ensures
        names@.map_values(|n: String| n@) == nodes_of_lines(lines@).map_values(|n: NodeLine| n.name),
{
    let nodes = line_nodes(lines);
    let mut names: Vec<String> = Vec::new();
    let mut k: usize = 0;
    while k < nodes.len()
        invariant
            0 <= k <= nodes@.len(),
            node_lines(nodes@) == nodes_of_lines(lines@),
            names@.map_values(|n: String| n@) == node_lines(nodes@).take(k as int).map_values(
                |n: NodeLine| n.name,
            ),
        decreases nodes@.len() - k,
    {
        let ghost before = names@;
        let name = nodes[k].name.clone();
        names.push(name);
        proof {
            let views = node_lines(nodes@);
            assert(views[k as int].name == nodes@[k as int].name@);
            assert(views.take(k + 1) =~= views.take(k as int).push(views[k as int]));
            assert(names@ =~= before.push(name));
            assert(names@.map_values(|n: String| n@) =~= before.map_values(|n: String| n@).push(name@));
            assert(views.take(k + 1).map_values(|n: NodeLine| n.name) =~= views.take(k as int).map_values(
                |n: NodeLine| n.name,
            ).push(views[k as int].name));
        }
        k += 1;
    }
    assert(node_lines(nodes@).take(nodes@.len() as int) =~= node_lines(nodes@));
    names
}

/// A node line as plain values.
pub struct NodeLine {
    pub line: int,
    pub name: Seq<char>,
    pub rhs: Option<Seq<char>>,
}

/// A node line's plain values.
pub open spec fn node_line(n: LineNode) -> NodeLine {
    NodeLine { line: n.line as int, name: n.name@, rhs: opt_view(n.rhs) }
}

/// The node lines' plain values.
pub open spec fn node_lines(nodes: Seq<LineNode>) -> Seq<NodeLine> {
    nodes.map_values(|n: LineNode| node_line(n))
}

/// A change marker as plain values.
pub struct ChangeView {
    pub name: Seq<char>,
    pub change: ChangeKind,
    pub from: Option<Seq<char>>,
}

/// A change marker's plain values.
pub open spec fn change_view(c: NodeChange) -> ChangeView {
    ChangeView { name: c.name@, change: c.change, from: opt_view(c.from) }
}

/// The change markers' plain values.
pub open spec fn change_views(cs: Seq<NodeChange>) -> Seq<ChangeView> {
    cs.map_values(|c: NodeChange| change_view(c))
}

/// A removed binding as plain values.
pub struct RemovedView {
    pub name: Seq<char>,
    pub line_in_head: int,
}

/// The removed bindings' plain values.
pub open spec fn removed_views(rs: Seq<RemovedNode>) -> Seq<RemovedView> {
    rs.map_values(|r: RemovedNode| RemovedView { name: r.name@, line_in_head: r.line_in_head as int })
}

/// Every node's 1-based line fits in `usize`.
pub open spec fn lines_fit(nodes: Seq<LineNode>) -> bool {
    forall|k: int| 0 <= k < nodes.len() ==> #[trigger] nodes[k].line < usize::MAX
}

/// The last hunk whose new (or old) side covers the 1-based `line`.
pub open spec fn touching_hunk(hunks: Seq<Hunk>, line: int, new_side: bool) -> Option<int>
    decreases hunks.len(),
{
    if hunks.len() == 0 {
        None
    } else {
        let h = hunks.last();
        let start = if new_side {
            h.new_start
        } else {
            h.old_start
        };
        let count = if new_side {
            h.new_count
        } else {
            h.old_count
        };
        if start <= line < start + count {
            Some(hunks.len() - 1)
        } else {
            touching_hunk(hunks.drop_last(), line, new_side)
        }
    }
}

/// Some node of `nodes` is named `name`.
pub open spec fn binds(nodes: Seq<NodeLine>, name: Seq<char>) -> bool {
    exists|k: int| 0 <= k < nodes.len() && #[trigger] nodes[k].name == name
}

/// HEAD bindings on removed lines whose name the working tree no longer
/// binds, in HEAD order, each as (its index, the hunk that removed it).
pub open spec fn removal_candidates(head: Seq<NodeLine>, work: Seq<NodeLine>, hunks: Seq<Hunk>) -> Seq<
    (int, int),
>
    decreases head.len(),
{
    if head.len() == 0 {
        Seq::empty()
    } else {
        let before = removal_candidates(head.drop_last(), work, hunks);
        let n = head.last();
        match touching_hunk(hunks, n.line + 1, false) {
            Some(k) => if !binds(work, n.name) {
                before.push((head.len() - 1, k))
            } else {
                before
            },
            None => before,
        }
    }
}

/// The first unpaired candidate from the `c`-th on that the hunk `hunk`
/// removed with right-hand side `rhs`.
pub open spec fn partner_from(
    head: Seq<NodeLine>,
    cands: Seq<(int, int)>,
    paired: Seq<bool>,
    hunk: int,
    rhs: Seq<char>,
    c: nat,
) -> Option<int>
    decreases cands.len() - c,
{
    if c >= cands.len() {
        None
    } else if !paired[c as int] && cands[c as int].1 == hunk && head[cands[c as int].0].rhs == Some(
        rhs,
    ) {
        Some(c as int)
    } else {
        partner_from(head, cands, paired, hunk, rhs, c + 1)
    }
}

/// The markers of the working nodes from the `j`-th on, after `acc`,
/// with the candidates paired so far.
pub open spec fn mark_from(
    head: Seq<NodeLine>,
    work: Seq<NodeLine>,
    j: nat,
    cands: Seq<(int, int)>,
    paired: Seq<bool>,
    hunks: Seq<Hunk>,
    acc: Seq<ChangeView>,
) -> (Seq<ChangeView>, Seq<bool>)
    decreases work.len() - j,
{
    if j >= work.len() {
        (acc, paired)
    } else {
        let node = work[j as int];
        match touching_hunk(hunks, node.line + 1, true) {
            None => mark_from(head, work, j + 1, cands, paired, hunks, acc),
            Some(k) => if binds(head, node.name) {
                mark_from(
                    head,
                    work,
                    j + 1,
                    cands,
                    paired,
                    hunks,
                    acc.push(ChangeView { name: node.name, change: ChangeKind::Modified, from: None }),
                )
            } else {
                let partner = match node.rhs {
                    Some(rhs) => partner_from(head, cands, paired, k, rhs, 0),
                    None => None,
                };
                match partner {
                    Some(c) => mark_from(
                        head,
                        work,
                        j + 1,
                        cands,
                        paired.update(c, true),
                        hunks,
                        acc.push(
                            ChangeView {
                                name: node.name,
                                change: ChangeKind::Renamed,
                                from: Some(head[cands[c].0].name),
                            },
                        ),
                    ),
                    None => mark_from(
                        head,
                        work,
                        j + 1,
                        cands,
                        paired,
                        hunks,
                        acc.push(ChangeView { name: node.name, change: ChangeKind::Added, from: None }),
                    ),
                }
            },
        }
    }
}

/// The first `n` candidates that stayed unpaired, as removed bindings.
pub open spec fn unpaired(head: Seq<NodeLine>, cands: Seq<(int, int)>, paired: Seq<bool>, n: nat) -> Seq<
    RemovedView,
>
    decreases n,
{
    if n == 0 {
        Seq::empty()
    } else {
        let before = unpaired(head, cands, paired, (n - 1) as nat);
        if !paired[n - 1] {
            let gone = head[cands[n - 1].0];
            before.push(RemovedView { name: gone.name, line_in_head: gone.line + 1 })
        } else {
            before
        }
    }
}

/// The markers for a working document against its HEAD version, given
/// the hunks of the diff between them: the changes of the working nodes,
/// and the removed HEAD bindings left unpaired.
pub open spec fn marker_lists(head: Seq<NodeLine>, work: Seq<NodeLine>, hunks: Seq<Hunk>) -> (
    Seq<ChangeView>,
    Seq<RemovedView>,
) {
    let cands = removal_candidates(head, work, hunks);
    let marked = mark_from(
        head,
        work,
        0,
        cands,
        Seq::new(cands.len(), |c: int| false),
        hunks,
        Seq::empty(),
    );
    (marked.0, unpaired(head, cands, marked.1, cands.len()))
}

/// The last hunk touching the 1-based `line`.
fn touching(hunks: &[Hunk], line: usize, new_side: bool) -> (k: Option<usize>)
    ensures
        match k {
            Some(k) => touching_hunk(hunks@, line as int, new_side) == Some(k as int),
            None => touching_hunk(hunks@, line as int, new_side) is None,
        },
{
    let mut k: usize = hunks.len();
    assert(hunks@.take(k as int) =~= hunks@);
    while k > 0
        invariant
            0 <= k <= hunks@.len(),
            touching_hunk(hunks@, line as int, new_side) == touching_hunk(
                hunks@.take(k as int),
                line as int,
                new_side,
            ),
        decreases k,
    {
        let h = hunks[k - 1];
        let (start, count) = if new_side {
            (h.new_start, h.new_count)
        } else {
            (h.old_start, h.old_count)
        };
        assert(hunks@.take(k as int).last() == h);
        assert(hunks@.take(k as int).drop_last() =~= hunks@.take(k - 1));
        if start <= line && line - start < count {
            return Some(k - 1);
        }
        k -= 1;
    }
    None
}

/// Some node of `nodes` is named `name`.
fn binds_name(nodes: &[LineNode], name: &str) -> (found: bool)
    ensures
        found == binds(node_lines(nodes@), name@),
{
    let ghost lines = node_lines(nodes@);
    let mut k: usize = 0;
    while k < nodes.len()
        invariant
            0 <= k <= nodes@.len(),
            lines == node_lines(nodes@),
            forall|m: int| 0 <= m < k ==> lines[m].name != name@,
        decreases nodes@.len() - k,
    {
        assert(lines[k as int] == node_line(nodes@[k as int]));
        if same_text(nodes[k].name.as_str(), name) {
            assert(lines[k as int].name == name@);
            return true;
        }
        k += 1;
    }
    false
}

/// The candidates' plain values.
pub open spec fn cand_views(cands: Seq<(usize, usize)>) -> Seq<(int, int)> {
    cands.map_values(|p: (usize, usize)| (p.0 as int, p.1 as int))
}

/// The removal candidates of `head`.
fn candidates(head: &[LineNode], work: &[LineNode], hunks: &[Hunk]) -> (cands: Vec<(usize, usize)>)
    requires
        lines_fit(head@),
    ensures
        cand_views(cands@) == removal_candidates(node_lines(head@), node_lines(work@), hunks@),
        forall|c: int| 0 <= c < cands@.len() ==> #[trigger] cands@[c].0 < head@.len(),
{
    let ghost hl = node_lines(head@);
    let ghost wl = node_lines(work@);
    let mut cands: Vec<(usize, usize)> = Vec::new();
    let mut i: usize = 0;
    while i < head.len()
        invariant
            0 <= i <= head@.len(),
            lines_fit(head@),
            hl == node_lines(head@),
            wl == node_lines(work@),
            cand_views(cands@) == removal_candidates(hl.take(i as int), wl, hunks@),
            forall|c: int| 0 <= c < cands@.len() ==> #[trigger] cands@[c].0 < i,
        decreases head@.len() - i,
    {
        let node = &head[i];
        assert(hl[i as int] == node_line(head@[i as int]));
        assert(hl.take(i + 1).drop_last() =~= hl.take(i as int));
        assert(hl.take(i + 1).last() == hl[i as int]);
        assert(head@[i as int].line < usize::MAX);
        match touching(hunks, node.line + 1, false) {
            Some(k) => {
                if !binds_name(work, node.name.as_str()) {
                    let ghost prev = cands@;
                    cands.push((i, k));
                    assert(cands@ =~= prev.push((i, k)));
                    assert(cand_views(cands@) =~= cand_views(prev).push((i as int, k as int)));
                }
            },
            None => {},
        }
        i += 1;
    }
    assert(hl.take(head@.len() as int) =~= hl);
    cands
}

/// The first unpaired candidate the hunk `hunk` removed with right-hand
/// side `rhs`.
fn partner(
    head: &[LineNode],
    cands: &Vec<(usize, usize)>,
    paired: &Vec<bool>,
    hunk: usize,
    rhs: &str,
) -> (found: Option<usize>)
    requires
        paired@.len() == cands@.len(),
        forall|c: int| 0 <= c < cands@.len() ==> #[trigger] cands@[c].0 < head@.len(),
    ensures
        match found {
            Some(c) => partner_from(node_lines(head@), cand_views(cands@), paired@, hunk as int, rhs@, 0)
                == Some(c as int) && c < cands@.len(),
            None => partner_from(node_lines(head@), cand_views(cands@), paired@, hunk as int, rhs@, 0)
                is None,
        },
{
    let ghost hl = node_lines(head@);
    let ghost cv = cand_views(cands@);
    let mut c: usize = 0;
    while c < cands.len()
        invariant
            0 <= c <= cands@.len(),
            paired@.len() == cands@.len(),
            forall|m: int| 0 <= m < cands@.len() ==> #[trigger] cands@[m].0 < head@.len(),
            hl == node_lines(head@),
            cv == cand_views(cands@),
            partner_from(hl, cv, paired@, hunk as int, rhs@, 0) == partner_from(
                hl,
                cv,
                paired@,
                hunk as int,
                rhs@,
                c as nat,
            ),
        decreases cands@.len() - c,
    {
        let (index, gone_hunk) = cands[c];
        assert(cv[c as int] == (index as int, gone_hunk as int));
        assert(hl[index as int] == node_line(head@[index as int]));
        let same_rhs = match &head[index].rhs {
            Some(r) => same_text(r.as_str(), rhs),
            None => false,
        };
        if !paired[c] && gone_hunk == hunk && same_rhs {
            return Some(c);
        }
        c += 1;
    }
    None
}

/// The markers for a working document against its HEAD version, given
/// its node lines, HEAD's, and the hunks of `git diff -U0 HEAD -- <path>`.
/// A node is marked exactly when a hunk touches its line: `modified`
/// when HEAD binds its name, else `renamed` when a removed HEAD binding
/// of the same hunk has the identical right-hand side (the first unpaired
/// one, in HEAD order), else `added`. The removed bindings are the HEAD
/// ones on removed lines whose name the working tree no longer binds and
/// that no rename took.
pub fn markers(head: &[LineNode], work: &[LineNode], hunks: &[Hunk]) -> (marked: (
    Vec<NodeChange>,
    Vec<RemovedNode>,
))
    requires
        lines_fit(head@),
        lines_fit(work@),
    ensures
        change_views(marked.0@) == marker_lists(node_lines(head@), node_lines(work@), hunks@).0,
        removed_views(marked.1@) == marker_lists(node_lines(head@), node_lines(work@), hunks@).1,
{
    let ghost hl = node_lines(head@);
    let ghost wl = node_lines(work@);
    let cands = candidates(head, work, hunks);
    let ghost cv = cand_views(cands@);
    let mut paired: Vec<bool> = Vec::new();
    let mut p: usize = 0;
    while p < cands.len()
        invariant
            0 <= p <= cands@.len(),
            paired@.len() == p,
            forall|m: int| 0 <= m < p ==> !paired@[m],
        decreases cands@.len() - p,
    {
        paired.push(false);
        p += 1;
    }
    assert(paired@ =~= Seq::new(cv.len(), |c: int| false));
    let ghost goal = mark_from(hl, wl, 0, cv, paired@, hunks@, Seq::empty());
    let mut nodes: Vec<NodeChange> = Vec::new();
    let mut j: usize = 0;
    assert(change_views(nodes@) =~= Seq::<ChangeView>::empty());
    while j < work.len()
        invariant
            0 <= j <= work@.len(),
            lines_fit(work@),
            hl == node_lines(head@),
            wl == node_lines(work@),
            cv == cand_views(cands@),
            paired@.len() == cands@.len(),
            forall|c: int| 0 <= c < cands@.len() ==> #[trigger] cands@[c].0 < head@.len(),
            goal == mark_from(hl, wl, j as nat, cv, paired@, hunks@, change_views(nodes@)),
        decreases work@.len() - j,
    {
        let node = &work[j];
        assert(wl[j as int] == node_line(work@[j as int]));
        assert(work@[j as int].line < usize::MAX);
        let ghost before = nodes@;
        match touching(hunks, node.line + 1, true) {
            None => {},
            Some(k) => {
                if binds_name(head, node.name.as_str()) {
                    nodes.push(NodeChange { name: node.name.clone(), change: ChangeKind::Modified, from: None });
                } else {
                    let found = match &node.rhs {
                        Some(rhs) => partner(head, &cands, &paired, k, rhs.as_str()),
                        None => None,
                    };
                    match found {
                        Some(c) => {
                            let index = cands[c].0;
                            assert(cv[c as int].0 == index as int);
                            assert(hl[index as int] == node_line(head@[index as int]));
                            paired.set(c, true);
                            nodes.push(
                                NodeChange {
                                    name: node.name.clone(),
                                    change: ChangeKind::Renamed,
                                    from: Some(head[index].name.clone()),
                                },
                            );
                        },
                        None => {
                            nodes.push(NodeChange { name: node.name.clone(), change: ChangeKind::Added, from: None });
                        },
                    }
                }
                assert(change_views(nodes@) =~= change_views(before).push(change_view(nodes@.last())));
            },
        }
        j += 1;
    }
    let mut removed: Vec<RemovedNode> = Vec::new();
    let mut c: usize = 0;
    assert(removed_views(removed@) =~= Seq::<RemovedView>::empty());
    while c < cands.len()
        invariant
            0 <= c <= cands@.len(),
            lines_fit(head@),
            hl == node_lines(head@),
            cv == cand_views(cands@),
            paired@.len() == cands@.len(),
            forall|m: int| 0 <= m < cands@.len() ==> #[trigger] cands@[m].0 < head@.len(),
            removed_views(removed@) == unpaired(hl, cv, paired@, c as nat),
        decreases cands@.len() - c,
    {
        if !paired[c] {
            let index = cands[c].0;
            assert(cv[c as int].0 == index as int);
            assert(hl[index as int] == node_line(head@[index as int]));
            assert(head@[index as int].line < usize::MAX);
            let gone = &head[index];
            let ghost prev = removed@;
            removed.push(RemovedNode { name: gone.name.clone(), line_in_head: gone.line + 1 });
            assert(removed_views(removed@) =~= removed_views(prev).push(
                RemovedView { name: gone.name@, line_in_head: gone.line + 1 },
            ));
        }
        c += 1;
    }
    (nodes, removed)
}


/// The names of the working nodes from the `j`-th on whose line a hunk's
/// new side touches, in order.
pub open spec fn touched_from(work: Seq<NodeLine>, j: nat, hunks: Seq<Hunk>) -> Seq<Seq<char>>
    decreases work.len() - j,
{
    if j >= work.len() {
        Seq::empty()
    } else if touching_hunk(hunks, work[j as int].line + 1, true) is Some {
        seq![work[j as int].name] + touched_from(work, j + 1, hunks)
    } else {
        touched_from(work, j + 1, hunks)
    }
}

/// The names a run of markers carries.
pub open spec fn marked_names(changes: Seq<ChangeView>) -> Seq<Seq<char>> {
    changes.map_values(|c: ChangeView| c.name)
}

proof fn lemma_mark_from_names(
    head: Seq<NodeLine>,
    work: Seq<NodeLine>,
    j: nat,
    cands: Seq<(int, int)>,
    paired: Seq<bool>,
    hunks: Seq<Hunk>,
    acc: Seq<ChangeView>,
)
    ensures
        marked_names(mark_from(head, work, j, cands, paired, hunks, acc).0) == marked_names(acc)
            + touched_from(work, j, hunks),
    decreases work.len() - j,
{
    if j >= work.len() {
        assert(marked_names(acc) + touched_from(work, j, hunks) =~= marked_names(acc));
    } else {
        let node = work[j as int];
        match touching_hunk(hunks, node.line + 1, true) {
            None => {
                lemma_mark_from_names(head, work, j + 1, cands, paired, hunks, acc);
            },
            Some(k) => {
                let partner = match node.rhs {
                    Some(rhs) => partner_from(head, cands, paired, k, rhs, 0),
                    None => None,
                };
                let kind = if binds(head, node.name) {
                    ChangeKind::Modified
                } else if partner is Some {
                    ChangeKind::Renamed
                } else {
                    ChangeKind::Added
                };
                let next_paired = if !binds(head, node.name) && partner is Some {
                    paired.update(partner->0, true)
                } else {
                    paired
                };
                let from = if !binds(head, node.name) && partner is Some {
                    Some(head[cands[partner->0].0].name)
                } else {
                    None
                };
                let step = ChangeView { name: node.name, change: kind, from };
                lemma_mark_from_names(head, work, j + 1, cands, next_paired, hunks, acc.push(step));
                assert(marked_names(acc.push(step)) =~= marked_names(acc).push(node.name));
                assert(marked_names(acc).push(node.name) + touched_from(work, j + 1, hunks)
                    =~= marked_names(acc) + touched_from(work, j, hunks));
            },
        }
    }
}

/// A working node is marked exactly when a hunk touches its line: the
/// markers name, in order, the working nodes whose line a hunk's new side
/// covers, and no others.
pub proof fn lemma_marked_exactly_when_touched(
    head: Seq<NodeLine>,
    work: Seq<NodeLine>,
    hunks: Seq<Hunk>,
)
    ensures
        marked_names(marker_lists(head, work, hunks).0) == touched_from(work, 0, hunks),
{
    let cands = removal_candidates(head, work, hunks);
    lemma_mark_from_names(
        head,
        work,
        0,
        cands,
        Seq::new(cands.len(), |c: int| false),
        hunks,
        Seq::empty(),
    );
    assert(marked_names(Seq::<ChangeView>::empty()) + touched_from(work, 0, hunks) =~= touched_from(
        work,
        0,
        hunks,
    ));
}

/// What each removal candidate is: a HEAD binding whose line a hunk's old
/// side touches and whose name the working tree does not bind.
proof fn lemma_candidates_are_gone(head: Seq<NodeLine>, work: Seq<NodeLine>, hunks: Seq<Hunk>)
    ensures
        forall|c: int|
            0 <= c < removal_candidates(head, work, hunks).len() ==> {
                let (i, k) = #[trigger] removal_candidates(head, work, hunks)[c];
                &&& 0 <= i < head.len()
                &&& touching_hunk(hunks, head[i].line + 1, false) == Some(k)
                &&& !binds(work, head[i].name)
            },
    decreases head.len(),
{
    if head.len() > 0 {
        lemma_candidates_are_gone(head.drop_last(), work, hunks);
        let before = removal_candidates(head.drop_last(), work, hunks);
        assert forall|c: int| 0 <= c < before.len() implies before[c].0 < head.len() - 1 && head[before[c].0]
            == head.drop_last()[before[c].0] by {}
    }
}

/// Every removed binding is a HEAD binding whose line a hunk's old side
/// touches and whose name the working tree no longer binds.
pub proof fn lemma_removed_are_gone_from_work(
    head: Seq<NodeLine>,
    work: Seq<NodeLine>,
    hunks: Seq<Hunk>,
)
    ensures
        forall|r: int|
            0 <= r < marker_lists(head, work, hunks).1.len() ==> exists|i: int|
                0 <= i < head.len() && head[i].name == (#[trigger] marker_lists(head, work, hunks).1[r]).name
                    && head[i].line + 1 == marker_lists(head, work, hunks).1[r].line_in_head
                    && touching_hunk(hunks, head[i].line + 1, false) is Some && !binds(work, head[i].name),
{
    let cands = removal_candidates(head, work, hunks);
    let marked = mark_from(
        head,
        work,
        0,
        cands,
        Seq::new(cands.len(), |c: int| false),
        hunks,
        Seq::empty(),
    );
    lemma_candidates_are_gone(head, work, hunks);
    lemma_unpaired_from_candidates(head, cands, marked.1, cands.len());
    let removed = marker_lists(head, work, hunks).1;
    assert forall|r: int| 0 <= r < removed.len() implies exists|i: int|
        0 <= i < head.len() && head[i].name == (#[trigger] removed[r]).name && head[i].line + 1
            == removed[r].line_in_head && touching_hunk(hunks, head[i].line + 1, false) is Some
            && !binds(work, head[i].name) by {
        let c = choose|c: int|
            0 <= c < cands.len() && #[trigger] head[cands[c].0].name == removed[r].name && head[cands[c].0].line
                + 1 == removed[r].line_in_head;
        let (i, k) = cands[c];
        assert(head[i].name == removed[r].name);
    }
}

/// Each unpaired entry comes from a candidate.
proof fn lemma_unpaired_from_candidates(
    head: Seq<NodeLine>,
    cands: Seq<(int, int)>,
    paired: Seq<bool>,
    n: nat,
)
    requires
        n <= cands.len(),
    ensures
        forall|r: int|
            0 <= r < unpaired(head, cands, paired, n).len() ==> exists|c: int|
                0 <= c < n && #[trigger] head[cands[c].0].name == (#[trigger] unpaired(
                    head,
                    cands,
                    paired,
                    n,
                )[r]).name && head[cands[c].0].line + 1 == unpaired(head, cands, paired, n)[r].line_in_head,
    decreases n,
{
    if n > 0 {
        lemma_unpaired_from_candidates(head, cands, paired, (n - 1) as nat);
        let before = unpaired(head, cands, paired, (n - 1) as nat);
        let now = unpaired(head, cands, paired, n);
        assert forall|r: int| 0 <= r < now.len() implies exists|c: int|
            0 <= c < n && #[trigger] head[cands[c].0].name == (#[trigger] now[r]).name && head[cands[c].0].line
                + 1 == now[r].line_in_head by {
            if r < before.len() {
                assert(now[r] == before[r]);
                let c = choose|c: int|
                    0 <= c < n - 1 && #[trigger] head[cands[c].0].name == (#[trigger] before[r]).name
                        && head[cands[c].0].line + 1 == before[r].line_in_head;
                assert(head[cands[c].0].name == now[r].name);
            } else {
                assert(head[cands[n - 1].0].name == now[r].name);
            }
        }
    }
}


proof fn lemma_candidates_complete(head: Seq<NodeLine>, work: Seq<NodeLine>, hunks: Seq<Hunk>)
    ensures
        forall|i: int|
            0 <= i < head.len() && touching_hunk(hunks, #[trigger] head[i].line + 1, false) is Some && !binds(
                work,
                head[i].name,
            ) ==> exists|c: int|
                0 <= c < removal_candidates(head, work, hunks).len() && #[trigger] removal_candidates(
                    head,
                    work,
                    hunks,
                )[c].0 == i,
    decreases head.len(),
{
    if head.len() > 0 {
        let rest = head.drop_last();
        lemma_candidates_complete(rest, work, hunks);
        let before = removal_candidates(rest, work, hunks);
        let now = removal_candidates(head, work, hunks);
        assert forall|i: int|
            0 <= i < head.len() && touching_hunk(hunks, #[trigger] head[i].line + 1, false) is Some && !binds(
                work,
                head[i].name,
            ) implies exists|c: int| 0 <= c < now.len() && #[trigger] now[c].0 == i by {
            if i < head.len() - 1 {
                assert(rest[i] == head[i]);
                let c = choose|c: int| 0 <= c < before.len() && #[trigger] before[c].0 == i;
                assert(now[c] == before[c]);
            } else {
                assert(head.last() == head[i]);
                assert(now[before.len() as int].0 == i);
            }
        }
    }
}

proof fn lemma_partner_in_range(
    head: Seq<NodeLine>,
    cands: Seq<(int, int)>,
    paired: Seq<bool>,
    hunk: int,
    rhs: Seq<char>,
    c: nat,
)
    ensures
        partner_from(head, cands, paired, hunk, rhs, c) matches Some(p) ==> c <= p < cands.len(),
    decreases cands.len() - c,
{
    if c < cands.len() {
        lemma_partner_in_range(head, cands, paired, hunk, rhs, c + 1);
    }
}

/// Marking keeps what it was handed and only adds; a candidate it pairs
/// is paired by a rename from that candidate's name.
proof fn lemma_pairs_are_renames(
    head: Seq<NodeLine>,
    work: Seq<NodeLine>,
    j: nat,
    cands: Seq<(int, int)>,
    paired: Seq<bool>,
    hunks: Seq<Hunk>,
    acc: Seq<ChangeView>,
)
    requires
        paired.len() == cands.len(),
    ensures
        mark_from(head, work, j, cands, paired, hunks, acc).1.len() == cands.len(),
        acc.len() <= mark_from(head, work, j, cands, paired, hunks, acc).0.len(),
        forall|m: int| 0 <= m < acc.len() ==> #[trigger] mark_from(head, work, j, cands, paired, hunks, acc).0[m] == acc[m],
        forall|c: int|
            0 <= c < cands.len() && #[trigger] mark_from(head, work, j, cands, paired, hunks, acc).1[c] && !paired[c]
                ==> exists|m: int|
                0 <= m < mark_from(head, work, j, cands, paired, hunks, acc).0.len() && (#[trigger] mark_from(
                    head,
                    work,
                    j,
                    cands,
                    paired,
                    hunks,
                    acc,
                ).0[m]).change == ChangeKind::Renamed && mark_from(head, work, j, cands, paired, hunks, acc).0[m].from
                    == Some(head[cands[c].0].name),
    decreases work.len() - j,
{
    if j < work.len() {
        let node = work[j as int];
        match touching_hunk(hunks, node.line + 1, true) {
            None => {
                lemma_pairs_are_renames(head, work, j + 1, cands, paired, hunks, acc);
            },
            Some(k) => if binds(head, node.name) {
                let next = acc.push(ChangeView { name: node.name, change: ChangeKind::Modified, from: None });
                lemma_pairs_are_renames(head, work, j + 1, cands, paired, hunks, next);
                let r = mark_from(head, work, j + 1, cands, paired, hunks, next);
                assert forall|m: int| 0 <= m < acc.len() implies #[trigger] r.0[m] == acc[m] by {
                    assert(r.0[m] == next[m]);
                }
            } else {
                let partner = match node.rhs {
                    Some(rhs) => partner_from(head, cands, paired, k, rhs, 0),
                    None => None,
                };
                if let Some(rhs) = node.rhs {
                    lemma_partner_in_range(head, cands, paired, k, rhs, 0);
                }
                match partner {
                    Some(p) => {
                        let change = ChangeView {
                            name: node.name,
                            change: ChangeKind::Renamed,
                            from: Some(head[cands[p].0].name),
                        };
                        let next = acc.push(change);
                        let np = paired.update(p, true);
                        lemma_pairs_are_renames(head, work, j + 1, cands, np, hunks, next);
                        let r = mark_from(head, work, j + 1, cands, np, hunks, next);
                        assert forall|m: int| 0 <= m < acc.len() implies #[trigger] r.0[m] == acc[m] by {
                            assert(r.0[m] == next[m]);
                        }
                        assert(r.0[acc.len() as int] == change);
                        assert forall|c: int| 0 <= c < cands.len() && #[trigger] r.1[c] && !paired[c] implies exists|m: int|
                            0 <= m < r.0.len() && (#[trigger] r.0[m]).change == ChangeKind::Renamed && r.0[m].from
                                == Some(head[cands[c].0].name) by {
                            if c == p {
                                assert(r.0[acc.len() as int] == change);
                            } else {
                                assert(!np[c]);
                            }
                        }
                    },
                    None => {
                        let next = acc.push(ChangeView { name: node.name, change: ChangeKind::Added, from: None });
                        lemma_pairs_are_renames(head, work, j + 1, cands, paired, hunks, next);
                        let r = mark_from(head, work, j + 1, cands, paired, hunks, next);
                        assert forall|m: int| 0 <= m < acc.len() implies #[trigger] r.0[m] == acc[m] by {
                            assert(r.0[m] == next[m]);
                        }
                    },
                }
            },
        }
    }
}

proof fn lemma_unpaired_complete(head: Seq<NodeLine>, cands: Seq<(int, int)>, paired: Seq<bool>, n: nat)
    requires
        n <= cands.len(),
        n <= paired.len(),
    ensures
        forall|c: int|
            0 <= c < n && !paired[c] ==> exists|r: int|
                0 <= r < unpaired(head, cands, paired, n).len() && #[trigger] unpaired(head, cands, paired, n)[r]
                    == (RemovedView { name: head[cands[c].0].name, line_in_head: head[cands[c].0].line + 1 }),
    decreases n,
{
    if n > 0 {
        lemma_unpaired_complete(head, cands, paired, (n - 1) as nat);
        let before = unpaired(head, cands, paired, (n - 1) as nat);
        let now = unpaired(head, cands, paired, n);
        assert forall|c: int| 0 <= c < n && !paired[c] implies exists|r: int|
            0 <= r < now.len() && #[trigger] now[r] == (RemovedView {
                name: head[cands[c].0].name,
                line_in_head: head[cands[c].0].line + 1,
            }) by {
            if c < n - 1 {
                let r = choose|r: int|
                    0 <= r < before.len() && #[trigger] before[r] == (RemovedView {
                        name: head[cands[c].0].name,
                        line_in_head: head[cands[c].0].line + 1,
                    });
                if !paired[n - 1] {
                    assert(now[r] == before[r]);
                }
            } else {
                assert(now[before.len() as int] == (RemovedView {
                    name: head[cands[c].0].name,
                    line_in_head: head[cands[c].0].line + 1,
                }));
            }
        }
    }
}

/// Every removed HEAD binding is reported: a HEAD node whose line a
/// hunk's old side touches, whose name the working tree no longer binds,
/// and that no rename marker names as its origin, is among the removed
/// bindings, with its 1-based HEAD line.
pub proof fn lemma_every_removed_binding_is_reported(head: Seq<NodeLine>, work: Seq<NodeLine>, hunks: Seq<Hunk>)
    ensures
        forall|i: int|
            0 <= i < head.len() && touching_hunk(hunks, #[trigger] head[i].line + 1, false) is Some && !binds(
                work,
                head[i].name,
            ) && !(exists|m: int|
                0 <= m < marker_lists(head, work, hunks).0.len() && (#[trigger] marker_lists(
                    head,
                    work,
                    hunks,
                ).0[m]).change == ChangeKind::Renamed && marker_lists(head, work, hunks).0[m].from == Some(
                    head[i].name,
                )) ==> exists|r: int|
                0 <= r < marker_lists(head, work, hunks).1.len() && #[trigger] marker_lists(head, work, hunks).1[r]
                    == (RemovedView { name: head[i].name, line_in_head: head[i].line + 1 }),
{
    let cands = removal_candidates(head, work, hunks);
    let start = Seq::new(cands.len(), |c: int| false);
    let marked = mark_from(head, work, 0, cands, start, hunks, Seq::empty());
    lemma_candidates_complete(head, work, hunks);
    lemma_pairs_are_renames(head, work, 0, cands, start, hunks, Seq::empty());
    lemma_unpaired_complete(head, cands, marked.1, cands.len());
    let lists = marker_lists(head, work, hunks);
    assert forall|i: int|
        0 <= i < head.len() && touching_hunk(hunks, #[trigger] head[i].line + 1, false) is Some && !binds(
            work,
            head[i].name,
        ) && !(exists|m: int|
            0 <= m < lists.0.len() && (#[trigger] lists.0[m]).change == ChangeKind::Renamed && lists.0[m].from
                == Some(head[i].name)) implies exists|r: int|
        0 <= r < lists.1.len() && #[trigger] lists.1[r] == (RemovedView {
            name: head[i].name,
            line_in_head: head[i].line + 1,
        }) by {
        let c = choose|c: int| 0 <= c < cands.len() && #[trigger] cands[c].0 == i;
        if marked.1[c] {
            assert(!start[c]);
            let m = choose|m: int|
                0 <= m < marked.0.len() && (#[trigger] marked.0[m]).change == ChangeKind::Renamed && marked.0[m].from
                    == Some(head[cands[c].0].name);
            assert(lists.0[m] == marked.0[m]);
        }
        let r = choose|r: int|
            0 <= r < lists.1.len() && #[trigger] lists.1[r] == (RemovedView {
                name: head[cands[c].0].name,
                line_in_head: head[cands[c].0].line + 1,
            });
    }
}


/// What a change marker claims, checked against the two documents: a
/// modification names a binding HEAD has; an addition or a rename names
/// one HEAD lacks; a rename comes from a HEAD binding the working tree no
/// longer has, whose right-hand side the renamed node carries unchanged;
/// only a rename has an origin.
pub open spec fn marker_holds(head: Seq<NodeLine>, work: Seq<NodeLine>, m: ChangeView) -> bool {
    &&& m.change != ChangeKind::Removed
    &&& (m.change == ChangeKind::Modified) == binds(head, m.name)
    &&& (m.change == ChangeKind::Renamed) == (m.from is Some)
    &&& m.change == ChangeKind::Renamed ==> exists|i: int, j: int|
        0 <= i < head.len() && 0 <= j < work.len() && #[trigger] head[i].name == m.from->0
            && #[trigger] work[j].name == m.name && work[j].rhs is Some && head[i].rhs == work[j].rhs && !binds(
            work,
            head[i].name,
        )
}

proof fn lemma_partner_found(
    head: Seq<NodeLine>,
    cands: Seq<(int, int)>,
    paired: Seq<bool>,
    hunk: int,
    rhs: Seq<char>,
    c: nat,
)
    ensures
        partner_from(head, cands, paired, hunk, rhs, c) matches Some(p) ==> c <= p < cands.len()
            && head[cands[p].0].rhs == Some(rhs),
    decreases cands.len() - c,
{
    if c < cands.len() {
        lemma_partner_found(head, cands, paired, hunk, rhs, c + 1);
    }
}

proof fn lemma_markers_hold_from(
    head: Seq<NodeLine>,
    work: Seq<NodeLine>,
    j: nat,
    cands: Seq<(int, int)>,
    paired: Seq<bool>,
    hunks: Seq<Hunk>,
    acc: Seq<ChangeView>,
)
    requires
        cands == removal_candidates(head, work, hunks),
        forall|m: int| 0 <= m < acc.len() ==> marker_holds(head, work, #[trigger] acc[m]),
    ensures
        forall|m: int|
            0 <= m < mark_from(head, work, j, cands, paired, hunks, acc).0.len() ==> marker_holds(
                head,
                work,
                #[trigger] mark_from(head, work, j, cands, paired, hunks, acc).0[m],
            ),
    decreases work.len() - j,
{
    if j >= work.len() {
        assert(mark_from(head, work, j, cands, paired, hunks, acc).0 == acc);
    } else {
        let node = work[j as int];
        match touching_hunk(hunks, node.line + 1, true) {
            None => {
                lemma_markers_hold_from(head, work, j + 1, cands, paired, hunks, acc);
                assert(mark_from(head, work, j, cands, paired, hunks, acc) == mark_from(
                    head,
                    work,
                    j + 1,
                    cands,
                    paired,
                    hunks,
                    acc,
                ));
            },
            Some(k) => {
                let partner = match node.rhs {
                    Some(rhs) => partner_from(head, cands, paired, k, rhs, 0),
                    None => None,
                };
                if let Some(rhs) = node.rhs {
                    lemma_partner_found(head, cands, paired, k, rhs, 0);
                }
                lemma_candidates_are_gone(head, work, hunks);
                let step = if binds(head, node.name) {
                    ChangeView { name: node.name, change: ChangeKind::Modified, from: None }
                } else if partner is Some {
                    ChangeView { name: node.name, change: ChangeKind::Renamed, from: Some(head[cands[partner->0].0].name) }
                } else {
                    ChangeView { name: node.name, change: ChangeKind::Added, from: None }
                };
                let next_paired = if !binds(head, node.name) && partner is Some {
                    paired.update(partner->0, true)
                } else {
                    paired
                };
                if !binds(head, node.name) && partner is Some {
                    let p = partner->0;
                    let i = cands[p].0;
                    assert(head[i].name == step.from->0 && work[j as int].name == step.name);
                }
                assert(marker_holds(head, work, step));
                let next = acc.push(step);
                assert forall|m: int| 0 <= m < next.len() implies marker_holds(head, work, #[trigger] next[m]) by {
                    if m < acc.len() {
                        assert(next[m] == acc[m]);
                    }
                }
                lemma_markers_hold_from(head, work, j + 1, cands, next_paired, hunks, next);
                assert(mark_from(head, work, j, cands, paired, hunks, acc) == mark_from(
                    head,
                    work,
                    j + 1,
                    cands,
                    next_paired,
                    hunks,
                    next,
                ));
            },
        }
    }
}

/// Every change marker says what the documents show (see
/// [`marker_holds`]): modifications exactly for names HEAD binds,
/// renames only from a vanished HEAD binding with the same right-hand
/// side, additions otherwise.
pub proof fn lemma_markers_say_what_changed(head: Seq<NodeLine>, work: Seq<NodeLine>, hunks: Seq<Hunk>)
    ensures
        forall|m: int|
            0 <= m < marker_lists(head, work, hunks).0.len() ==> marker_holds(
                head,
                work,
                #[trigger] marker_lists(head, work, hunks).0[m],
            ),
{
    let cands = removal_candidates(head, work, hunks);
    lemma_markers_hold_from(head, work, 0, cands, Seq::new(cands.len(), |c: int| false), hunks, Seq::empty());
}


/// The indices of the working nodes from the `j`-th on whose line a
/// hunk's new side touches, in order: the nodes the markers stand for.
pub open spec fn touched_at(work: Seq<NodeLine>, j: nat, hunks: Seq<Hunk>) -> Seq<int>
    decreases work.len() - j,
{
    if j >= work.len() {
        Seq::empty()
    } else if touching_hunk(hunks, work[j as int].line + 1, true) is Some {
        seq![j as int] + touched_at(work, j + 1, hunks)
    } else {
        touched_at(work, j + 1, hunks)
    }
}

proof fn lemma_partner_none(
    head: Seq<NodeLine>,
    cands: Seq<(int, int)>,
    paired: Seq<bool>,
    hunk: int,
    rhs: Seq<char>,
    c: nat,
)
    ensures
        partner_from(head, cands, paired, hunk, rhs, c) is None ==> forall|d: int|
            c <= d < cands.len() && #[trigger] cands[d].1 == hunk && head[cands[d].0].rhs == Some(rhs) ==> paired[d],
    decreases cands.len() - c,
{
    if c < cands.len() {
        lemma_partner_none(head, cands, paired, hunk, rhs, c + 1);
    }
}

/// Marking from the `j`-th working node: one marker per touched node, in
/// order; pairs only grow; and a node marked as added left no unpaired
/// candidate of its hunk with its right-hand side.
proof fn lemma_added_left_no_twin(
    head: Seq<NodeLine>,
    work: Seq<NodeLine>,
    j: nat,
    cands: Seq<(int, int)>,
    paired: Seq<bool>,
    hunks: Seq<Hunk>,
    acc: Seq<ChangeView>,
)
    requires
        paired.len() == cands.len(),
    ensures
        mark_from(head, work, j, cands, paired, hunks, acc).0.len() == acc.len() + touched_at(work, j, hunks).len(),
        forall|c: int| 0 <= c < cands.len() && paired[c] ==> #[trigger] mark_from(head, work, j, cands, paired, hunks, acc).1[c],
        forall|q: int|
            0 <= q < touched_at(work, j, hunks).len() ==> {
                let jj = #[trigger] touched_at(work, j, hunks)[q];
                let m = mark_from(head, work, j, cands, paired, hunks, acc).0[acc.len() + q];
                &&& j <= jj < work.len()
                &&& touching_hunk(hunks, work[jj].line + 1, true) is Some
                &&& m.name == work[jj].name
                &&& m.change == ChangeKind::Added && work[jj].rhs is Some ==> forall|c: int|
                    0 <= c < cands.len() && Some(#[trigger] cands[c].1) == touching_hunk(hunks, work[jj].line + 1, true)
                        && head[cands[c].0].rhs == work[jj].rhs ==> mark_from(head, work, j, cands, paired, hunks, acc).1[c]
            },
    decreases work.len() - j,
{
    if j < work.len() {
        let node = work[j as int];
        match touching_hunk(hunks, node.line + 1, true) {
            None => {
                lemma_added_left_no_twin(head, work, j + 1, cands, paired, hunks, acc);
                assert(touched_at(work, j, hunks) == touched_at(work, j + 1, hunks));
                assert(mark_from(head, work, j, cands, paired, hunks, acc) == mark_from(
                    head,
                    work,
                    j + 1,
                    cands,
                    paired,
                    hunks,
                    acc,
                ));
            },
            Some(k) => {
                let partner = match node.rhs {
                    Some(rhs) => partner_from(head, cands, paired, k, rhs, 0),
                    None => None,
                };
                if let Some(rhs) = node.rhs {
                    lemma_partner_in_range(head, cands, paired, k, rhs, 0);
                    lemma_partner_none(head, cands, paired, k, rhs, 0);
                }
                let step = if binds(head, node.name) {
                    ChangeView { name: node.name, change: ChangeKind::Modified, from: None }
                } else if partner is Some {
                    ChangeView { name: node.name, change: ChangeKind::Renamed, from: Some(head[cands[partner->0].0].name) }
                } else {
                    ChangeView { name: node.name, change: ChangeKind::Added, from: None }
                };
                let np = if !binds(head, node.name) && partner is Some {
                    paired.update(partner->0, true)
                } else {
                    paired
                };
                let next = acc.push(step);
                lemma_added_left_no_twin(head, work, j + 1, cands, np, hunks, next);
                lemma_pairs_are_renames(head, work, j + 1, cands, np, hunks, next);
                let r = mark_from(head, work, j + 1, cands, np, hunks, next);
                assert(mark_from(head, work, j, cands, paired, hunks, acc) == r);
                let rest = touched_at(work, j + 1, hunks);
                let all = touched_at(work, j, hunks);
                assert(all == seq![j as int] + rest);
                assert(r.0[acc.len() as int] == step) by {
                    assert(r.0[acc.len() as int] == next[acc.len() as int]);
                }
                assert forall|c: int| 0 <= c < cands.len() && paired[c] implies #[trigger] r.1[c] by {
                    assert(np[c]);
                }
                assert forall|q: int| 0 <= q < all.len() implies {
                    let jj = #[trigger] all[q];
                    let m = r.0[acc.len() + q];
                    &&& j <= jj < work.len()
                    &&& touching_hunk(hunks, work[jj].line + 1, true) is Some
                    &&& m.name == work[jj].name
                    &&& m.change == ChangeKind::Added && work[jj].rhs is Some ==> forall|c: int|
                        0 <= c < cands.len() && Some(#[trigger] cands[c].1) == touching_hunk(
                            hunks,
                            work[jj].line + 1,
                            true,
                        ) && head[cands[c].0].rhs == work[jj].rhs ==> r.1[c]
                } by {
                    if q == 0 {
                        assert(all[0] == j as int);
                        if step.change == ChangeKind::Added && node.rhs is Some {
                            assert forall|c: int|
                                0 <= c < cands.len() && Some(#[trigger] cands[c].1) == touching_hunk(
                                    hunks,
                                    work[j as int].line + 1,
                                    true,
                                ) && head[cands[c].0].rhs == work[j as int].rhs implies r.1[c] by {
                                assert(paired[c]);
                                assert(np[c]);
                            }
                        }
                    } else {
                        assert(all[q] == rest[q - 1]);
                        assert(acc.len() + q == next.len() + (q - 1));
                    }
                }
            },
        }
    }
}

/// Each unpaired removal comes from an unpaired candidate.
proof fn lemma_unpaired_sources(head: Seq<NodeLine>, cands: Seq<(int, int)>, paired: Seq<bool>, n: nat)
    requires
        n <= cands.len(),
    ensures
        forall|r: int|
            0 <= r < unpaired(head, cands, paired, n).len() ==> exists|c: int|
                0 <= c < n && !paired[c] && #[trigger] unpaired(head, cands, paired, n)[r] == (RemovedView {
                    name: head[cands[c].0].name,
                    line_in_head: head[cands[c].0].line + 1,
                }),
    decreases n,
{
    if n > 0 {
        lemma_unpaired_sources(head, cands, paired, (n - 1) as nat);
        let before = unpaired(head, cands, paired, (n - 1) as nat);
        let now = unpaired(head, cands, paired, n);
        assert forall|r: int| 0 <= r < now.len() implies exists|c: int|
            0 <= c < n && !paired[c] && #[trigger] now[r] == (RemovedView {
                name: head[cands[c].0].name,
                line_in_head: head[cands[c].0].line + 1,
            }) by {
            if r < before.len() {
                assert(now[r] == before[r]);
                let c = choose|c: int|
                    0 <= c < n - 1 && !paired[c] && #[trigger] before[r] == (RemovedView {
                        name: head[cands[c].0].name,
                        line_in_head: head[cands[c].0].line + 1,
                    });
            } else {
                assert(now[r] == (RemovedView {
                    name: head[cands[n - 1].0].name,
                    line_in_head: head[cands[n - 1].0].line + 1,
                }));
            }
        }
    }
}

/// A line moved under a new name is a rename, not an addition plus a
/// removal: when the `q`-th marked working node is marked added, no HEAD
/// binding that the same hunk removed with the same right-hand side (and
/// whose name the working tree no longer binds) is reported removed. HEAD
/// lines are given in increasing order, as a document has them.
pub proof fn lemma_identical_lines_are_renamed(head: Seq<NodeLine>, work: Seq<NodeLine>, hunks: Seq<Hunk>)
    requires
        forall|a: int, b: int| 0 <= a < b < head.len() ==> #[trigger] head[a].line < #[trigger] head[b].line,
    ensures
        marker_lists(head, work, hunks).0.len() == touched_at(work, 0, hunks).len(),
        forall|q: int, i: int|
            0 <= q < touched_at(work, 0, hunks).len() && 0 <= i < head.len() && (#[trigger] marker_lists(
                head,
                work,
                hunks,
            ).0[q]).change == ChangeKind::Added && work[touched_at(work, 0, hunks)[q]].rhs is Some
                && touching_hunk(hunks, #[trigger] head[i].line + 1, false) == touching_hunk(
                hunks,
                work[touched_at(work, 0, hunks)[q]].line + 1,
                true,
            ) && head[i].rhs == work[touched_at(work, 0, hunks)[q]].rhs && !binds(work, head[i].name)
                ==> !marker_lists(head, work, hunks).1.contains(
                RemovedView { name: head[i].name, line_in_head: head[i].line + 1 },
            ),
{
    let cands = removal_candidates(head, work, hunks);
    let start = Seq::new(cands.len(), |c: int| false);
    let marked = mark_from(head, work, 0, cands, start, hunks, Seq::empty());
    let lists = marker_lists(head, work, hunks);
    let ta = touched_at(work, 0, hunks);
    lemma_added_left_no_twin(head, work, 0, cands, start, hunks, Seq::empty());
    lemma_pairs_are_renames(head, work, 0, cands, start, hunks, Seq::empty());
    lemma_candidates_are_gone(head, work, hunks);
    lemma_unpaired_sources(head, cands, marked.1, cands.len());
    assert forall|q: int, i: int|
        0 <= q < ta.len() && 0 <= i < head.len() && (#[trigger] lists.0[q]).change == ChangeKind::Added
            && work[ta[q]].rhs is Some && touching_hunk(hunks, #[trigger] head[i].line + 1, false)
            == touching_hunk(hunks, work[ta[q]].line + 1, true) && head[i].rhs == work[ta[q]].rhs && !binds(
            work,
            head[i].name,
        ) implies !lists.1.contains(RemovedView { name: head[i].name, line_in_head: head[i].line + 1 }) by {
        let jj = ta[q];
        assert(lists.0[q] == marked.0[0 + q]);
        if lists.1.contains(RemovedView { name: head[i].name, line_in_head: head[i].line + 1 }) {
            let r = choose|r: int|
                0 <= r < lists.1.len() && lists.1[r] == (RemovedView {
                    name: head[i].name,
                    line_in_head: head[i].line + 1,
                });
            let c = choose|c: int|
                0 <= c < cands.len() && !marked.1[c] && #[trigger] lists.1[r] == (RemovedView {
                    name: head[cands[c].0].name,
                    line_in_head: head[cands[c].0].line + 1,
                });
            let h = cands[c].0;
            assert(head[h].line == head[i].line);
            if h < i {
                assert(head[h].line < head[i].line);
            } else if i < h {
                assert(head[i].line < head[h].line);
            }
            assert(h == i);
            assert(touching_hunk(hunks, head[h].line + 1, false) == Some(cands[c].1));
            assert(Some(cands[c].1) == touching_hunk(hunks, work[jj].line + 1, true));
            assert(marked.1[c]);
        }
    }
}

} // verus!
