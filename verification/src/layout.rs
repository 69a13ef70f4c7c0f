//! Auto-layout on the unit grid: layer by dependency depth, stack in
//! definition order. Overridden nodes sit exactly where the sidecar says;
//! auto nodes flow around them.
use vstd::prelude::*;
use crate::text::same_text;

verus! {

/// Grid columns between layers (in units).
pub const COLUMN_GAP: i64 = 3;

/// Grid rows between stacked nodes.
pub const ROW_GAP: i64 = 1;

/// Default node width in units.
pub const NODE_WIDTH: u32 = 9;

/// One node's layout input.
#[derive(Debug, Clone)]
pub struct LayoutNode<'a> {
    /// Binding name.
    pub name: &'a str,
    /// Names this node reads from.
    pub deps: Vec<&'a str>,
    /// Size in grid units `[w, h]`.
    pub size: [u32; 2],
    /// Manual override cell, if any.
    pub manual: Option<[i64; 2]>,
}

// ---------------------------------------------------------------------
// Depth
// ---------------------------------------------------------------------

/// The last of the first `n` nodes named `name`.
pub open spec fn named<'a>(nodes: Seq<LayoutNode<'a>>, name: Seq<char>, n: int) -> Option<int>
    decreases n,
{
    if n <= 0 {
        None
    } else if nodes[n - 1].name@ == name {
        Some(n - 1)
    } else {
        named(nodes, name, n - 1)
    }
}

/// One more than the deepest of node `i`'s first `k` deps that name
/// another node (0 when none does).
pub open spec fn reach<'a>(nodes: Seq<LayoutNode<'a>>, d: Seq<int>, i: int, k: int) -> int
    decreases k,
{
    if k <= 0 {
        0
    } else {
        let b = reach(nodes, d, i, k - 1);
        match named(nodes, nodes[i].deps@[k - 1]@, nodes.len() as int) {
            Some(j) => if j != i && d[j] + 1 > b {
                d[j] + 1
            } else {
                b
            },
            None => b,
        }
    }
}

/// The depths after one pass over the first `i` nodes in definition order,
/// each deepened in place to its deps' reach while that stays below
/// `bound`.
pub open spec fn deepen<'a>(nodes: Seq<LayoutNode<'a>>, d: Seq<int>, i: int, bound: int) -> Seq<int>
    decreases i,
{
    if i <= 0 {
        d
    } else {
        let e = deepen(nodes, d, i - 1, bound);
        let b = reach(nodes, e, i - 1, nodes[i - 1].deps@.len() as int);
        if b > e[i - 1] && b < bound {
            e.update(i - 1, b)
        } else {
            e
        }
    }
}

/// Passes repeated until one changes nothing, at most `rounds` times.
pub open spec fn deepened<'a>(nodes: Seq<LayoutNode<'a>>, d: Seq<int>, rounds: nat, bound: int) -> Seq<int>
    decreases rounds,
{
    if rounds == 0 {
        d
    } else {
        let e = deepen(nodes, d, nodes.len() as int, bound);
        if e == d {
            d
        } else {
            deepened(nodes, e, (rounds - 1) as nat, bound)
        }
    }
}

/// No depth reaches this: the node count (at least 1).
pub open spec fn depth_bound(n: int) -> int {
    if n > 1 {
        n
    } else {
        1
    }
}

/// Each node's column, found by repeated passes from all zeros (a cycle
/// stops deepening at the bound); without cycles it is the longest
/// dependency path ending at the node ([`lemma_depth_is_longest_path`]).
pub open spec fn layer_depths<'a>(nodes: Seq<LayoutNode<'a>>) -> Seq<int> {
    let bound = depth_bound(nodes.len() as int);
    deepened(nodes, Seq::new(nodes.len(), |i: int| 0int), bound as nat, bound)
}

// ---------------------------------------------------------------------
// Placement
// ---------------------------------------------------------------------

/// The widest auto node among the first `n` in column `c` (0 if none).
pub open spec fn column_width<'a>(nodes: Seq<LayoutNode<'a>>, d: Seq<int>, c: int, n: int) -> int
    decreases n,
{
    if n <= 0 {
        0
    } else {
        let w = column_width(nodes, d, c, n - 1);
        if nodes[n - 1].manual is None && d[n - 1] == c && nodes[n - 1].size[0] > w {
            nodes[n - 1].size[0] as int
        } else {
            w
        }
    }
}

/// What a column of width `w` takes across, the gap included.
pub open spec fn column_span(w: int) -> int {
    (if w > NODE_WIDTH {
        w
    } else {
        NODE_WIDTH as int
    }) + COLUMN_GAP
}

/// The x of column `c`: the spans of the columns before it.
pub open spec fn column_x<'a>(nodes: Seq<LayoutNode<'a>>, d: Seq<int>, c: int) -> int
    decreases c,
{
    if c <= 0 {
        0
    } else {
        column_x(nodes, d, c - 1) + column_span(column_width(nodes, d, c - 1, nodes.len() as int))
    }
}

/// Node `j` is manual and its rectangle overlaps the `w × h` box at
/// `(x, y)`.
pub open spec fn covers<'a>(nodes: Seq<LayoutNode<'a>>, j: int, x: int, y: int, w: int, h: int) -> bool {
    match nodes[j].manual {
        Some(cell) => x < cell[0] + nodes[j].size[0] && x + w > cell[0] && y < cell[1]
            + nodes[j].size[1] && y + h > cell[1],
        None => false,
    }
}

/// The bottom of manual node `j`.
pub open spec fn bottom<'a>(nodes: Seq<LayoutNode<'a>>, j: int) -> int {
    match nodes[j].manual {
        Some(cell) => cell[1] + nodes[j].size[1],
        None => 0,
    }
}

/// The lowest bottom among the first `n` manual nodes overlapping the box.
pub open spec fn lowest_cover<'a>(nodes: Seq<LayoutNode<'a>>, x: int, y: int, w: int, h: int, n: int) -> Option<int>
    decreases n,
{
    if n <= 0 {
        None
    } else {
        let b = lowest_cover(nodes, x, y, w, h, n - 1);
        if covers(nodes, n - 1, x, y, w, h) {
            match b {
                Some(v) => if v >= bottom(nodes, n - 1) {
                    Some(v)
                } else {
                    Some(bottom(nodes, n - 1))
                },
                None => Some(bottom(nodes, n - 1)),
            }
        } else {
            b
        }
    }
}

/// The lowest bottom of any of the first `n` manual nodes (0 if none).
pub open spec fn manual_floor<'a>(nodes: Seq<LayoutNode<'a>>, n: int) -> int
    decreases n,
{
    if n <= 0 {
        0
    } else {
        let f = manual_floor(nodes, n - 1);
        if nodes[n - 1].manual is Some && bottom(nodes, n - 1) > f {
            bottom(nodes, n - 1)
        } else {
            f
        }
    }
}

/// The lowest overlapping bottom lies below the box's top and no lower
/// than the lowest manual node, and it is the bottom of one that overlaps.
pub proof fn lemma_lowest_cover_bounds<'a>(nodes: Seq<LayoutNode<'a>>, x: int, y: int, w: int, h: int, n: int)
    ensures
        lowest_cover(nodes, x, y, w, h, n) matches Some(b) ==> y < b <= manual_floor(nodes, n),
        lowest_cover(nodes, x, y, w, h, n) matches Some(b) ==> exists|j: int|
            0 <= j < n && covers(nodes, j, x, y, w, h) && bottom(nodes, j) == b,
        forall|j: int|
            0 <= j < n && covers(nodes, j, x, y, w, h) ==> (lowest_cover(nodes, x, y, w, h, n) matches Some(
                b,
            ) && bottom(nodes, j) <= b),
    decreases n,
{
    if n > 0 {
        lemma_lowest_cover_bounds(nodes, x, y, w, h, n - 1);
    }
}

/// Slide the box down past every manual node it overlaps.
pub open spec fn slide<'a>(nodes: Seq<LayoutNode<'a>>, x: int, y: int, w: int, h: int) -> int
    decreases manual_floor(nodes, nodes.len() as int) + 1 - y,
{
    match lowest_cover(nodes, x, y, w, h, nodes.len() as int) {
        None => y,
        Some(b) => {
            proof {
                lemma_lowest_cover_bounds(nodes, x, y, w, h, nodes.len() as int);
            }
            slide(nodes, x, b + ROW_GAP, w, h)
        },
    }
}

/// Column `c`'s cursor once the first `n` nodes are placed: below the
/// last auto node placed in it.
pub open spec fn cursor_after<'a>(nodes: Seq<LayoutNode<'a>>, d: Seq<int>, c: int, n: int) -> int
    decreases n, 0int,
{
    if n <= 0 {
        0
    } else if nodes[n - 1].manual is None && d[n - 1] == c {
        auto_y(nodes, d, n - 1) + nodes[n - 1].size[1] + ROW_GAP
    } else {
        cursor_after(nodes, d, c, n - 1)
    }
}

/// The row of auto node `i`: its column's cursor, slid past manual nodes.
pub open spec fn auto_y<'a>(nodes: Seq<LayoutNode<'a>>, d: Seq<int>, i: int) -> int
    decreases i, 1int,
{
    if i < 0 {
        0
    } else {
        slide(
            nodes,
            column_x(nodes, d, d[i]),
            cursor_after(nodes, d, d[i], i),
            nodes[i].size[0] as int,
            nodes[i].size[1] as int,
        )
    }
}

/// Node `i`'s cell for depths `d`: where the sidecar says for a manual
/// node; its column's x and its slid row for an auto node.
pub open spec fn cell_at<'a>(nodes: Seq<LayoutNode<'a>>, d: Seq<int>, i: int) -> (int, int) {
    match nodes[i].manual {
        Some(cell) => (cell[0] as int, cell[1] as int),
        None => (column_x(nodes, d, d[i]), auto_y(nodes, d, i)),
    }
}

/// Node `i`'s cell.
pub open spec fn layout_cell<'a>(nodes: Seq<LayoutNode<'a>>, i: int) -> (int, int) {
    cell_at(nodes, layer_depths(nodes), i)
}

/// The inputs whose layout the grid's `i64` holds: every hand-placed
/// node's far corner, the right edge of every column up to the deepest,
/// and every auto node's bottom with the row gap below it.
pub open spec fn layout_fits<'a>(nodes: Seq<LayoutNode<'a>>) -> bool {
    &&& forall|j: int|
        0 <= j < nodes.len() ==> (#[trigger] nodes[j].manual matches Some(cell) ==> cell[0] + nodes[j].size[0]
            <= i64::MAX && cell[1] + nodes[j].size[1] <= i64::MAX)
    &&& forall|j: int|
        0 <= j < nodes.len() ==> column_x(nodes, layer_depths(nodes), #[trigger] layer_depths(nodes)[j] + 1)
            <= i64::MAX
    &&& forall|j: int|
        0 <= j < nodes.len() && nodes[j].manual is None ==> #[trigger] auto_y(nodes, layer_depths(nodes), j)
            + nodes[j].size[1] + ROW_GAP <= i64::MAX
}

// ---------------------------------------------------------------------
// Executable layout
// ---------------------------------------------------------------------

/// The depths as plain integers.
pub open spec fn as_ints(d: Seq<usize>) -> Seq<int> {
    d.map_values(|x: usize| x as int)
}

/// `entry` names `name` at `cell`.
pub open spec fn placed(entry: (String, [i64; 2]), name: Seq<char>, cell: (int, int)) -> bool {
    &&& entry.0@ == name
    &&& entry.1[0] as int == cell.0
    &&& entry.1[1] as int == cell.1
}

/// The index of the last node named `name`.
fn named_index(nodes: &[LayoutNode], name: &str) -> (found: Option<usize>)
    ensures
        found matches Some(j) ==> named(nodes@, name@, nodes@.len() as int) == Some(j as int) && j
            < nodes@.len(),
        found is None ==> named(nodes@, name@, nodes@.len() as int) is None,
{
    let mut n: usize = nodes.len();
    while n > 0
        invariant
            0 <= n <= nodes@.len(),
            named(nodes@, name@, nodes@.len() as int) == named(nodes@, name@, n as int),
        decreases n,
    {
        if same_text(nodes[n - 1].name, name) {
            return Some(n - 1);
        }
        assert(named(nodes@, name@, n as int) == named(nodes@, name@, n - 1));
        n -= 1;
    }
    None
}

/// One more than the deepest dep of node `i` that names another node.
fn reach_of(nodes: &[LayoutNode], depth: &Vec<usize>, i: usize, bound: usize) -> (best: usize)
    requires
        i < nodes@.len(),
        depth@.len() == nodes@.len(),
        forall|j: int| 0 <= j < depth@.len() ==> depth@[j] < bound,
    ensures
        best == reach(nodes@, as_ints(depth@), i as int, nodes@[i as int].deps@.len() as int),
        best <= bound,
{
    let deps = &nodes[i].deps;
    let mut best: usize = 0;
    let mut k: usize = 0;
    while k < deps.len()
        invariant
            0 <= k <= deps@.len(),
            i < nodes@.len(),
            deps@ == nodes@[i as int].deps@,
            depth@.len() == nodes@.len(),
            forall|j: int| 0 <= j < depth@.len() ==> depth@[j] < bound,
            best == reach(nodes@, as_ints(depth@), i as int, k as int),
            best <= bound,
        decreases deps@.len() - k,
    {
        match named_index(nodes, deps[k]) {
            Some(j) => {
                if j != i && depth[j] + 1 > best {
                    best = depth[j] + 1;
                }
            },
            None => {},
        }
        k += 1;
    }
    best
}

/// One pass over the nodes in definition order; says whether it deepened
/// anything.
fn deepen_pass(nodes: &[LayoutNode], depth: &mut Vec<usize>, bound: usize) -> (changed: bool)
    requires
        old(depth)@.len() == nodes@.len(),
        forall|j: int| 0 <= j < old(depth)@.len() ==> old(depth)@[j] < bound,
    ensures
        final(depth)@.len() == nodes@.len(),
        forall|j: int| 0 <= j < final(depth)@.len() ==> final(depth)@[j] < bound,
        as_ints(final(depth)@) == deepen(nodes@, as_ints(old(depth)@), nodes@.len() as int, bound as int),
        changed == (as_ints(final(depth)@) != as_ints(old(depth)@)),
{
    let ghost start = as_ints(depth@);
    let mut changed = false;
    let mut i: usize = 0;
    while i < nodes.len()
        invariant
            0 <= i <= nodes@.len(),
            depth@.len() == nodes@.len(),
            start.len() == nodes@.len(),
            forall|j: int| 0 <= j < depth@.len() ==> depth@[j] < bound,
            forall|j: int| 0 <= j < depth@.len() ==> depth@[j] >= start[j],
            as_ints(depth@) == deepen(nodes@, start, i as int, bound as int),
            changed == (as_ints(depth@) != start),
        decreases nodes@.len() - i,
    {
        let best = reach_of(nodes, depth, i, bound);
        if best > depth[i] && best < bound {
            let ghost before = as_ints(depth@);
            depth.set(i, best);
            proof {
                assert(as_ints(depth@) =~= before.update(i as int, best as int));
                assert(as_ints(depth@)[i as int] != start[i as int]);
            }
            changed = true;
        }
        i += 1;
    }
    changed
}

/// Each node's depth: repeated passes from all zeros until one changes
/// nothing, at most `bound` passes.
fn layer_depths_of(nodes: &[LayoutNode]) -> (depth: Vec<usize>)
    ensures
        as_ints(depth@) == layer_depths(nodes@),
        depth@.len() == nodes@.len(),
        forall|j: int| 0 <= j < depth@.len() ==> depth@[j] < depth_bound(nodes@.len() as int),
{
    let n = nodes.len();
    let bound: usize = if n > 1 {
        n
    } else {
        1
    };
    let mut depth: Vec<usize> = Vec::new();
    let mut k: usize = 0;
    while k < n
        invariant
            0 <= k <= n,
            n == nodes@.len(),
            depth@.len() == k,
            forall|j: int| 0 <= j < k ==> depth@[j] == 0,
        decreases n - k,
    {
        depth.push(0);
        k += 1;
    }
    let ghost zeros = Seq::new(nodes@.len(), |i: int| 0int);
    assert(as_ints(depth@) =~= zeros);
    let mut round: usize = 0;
    let mut done = false;
    while round < bound && !done
        invariant
            0 <= round <= bound,
            bound as int == depth_bound(nodes@.len() as int),
            depth@.len() == nodes@.len(),
            forall|j: int| 0 <= j < depth@.len() ==> depth@[j] < bound,
            !done ==> deepened(nodes@, zeros, bound as nat, bound as int) == deepened(
                nodes@,
                as_ints(depth@),
                (bound - round) as nat,
                bound as int,
            ),
            done ==> deepened(nodes@, zeros, bound as nat, bound as int) == as_ints(depth@),
        decreases bound - round,
    {
        let ghost before = as_ints(depth@);
        let changed = deepen_pass(nodes, &mut depth, bound);
        if !changed {
            assert(deepened(nodes@, before, (bound - round) as nat, bound as int) == before);
            done = true;
        }
        round += 1;
    }
    depth
}

proof fn lemma_column_width_bound<'a>(nodes: Seq<LayoutNode<'a>>, d: Seq<int>, c: int, n: int)
    ensures
        0 <= column_width(nodes, d, c, n) <= u32::MAX,
    decreases n,
{
    if n > 0 {
        lemma_column_width_bound(nodes, d, c, n - 1);
    }
}

proof fn lemma_column_x_grows<'a>(nodes: Seq<LayoutNode<'a>>, d: Seq<int>, a: int, b: int)
    requires
        0 <= a <= b,
    ensures
        0 <= column_x(nodes, d, a) <= column_x(nodes, d, b),
    decreases b,
{
    if a < b {
        lemma_column_x_grows(nodes, d, a, b - 1);
        lemma_column_width_bound(nodes, d, b - 1, nodes.len() as int);
    } else {
        lemma_column_x_nonnegative(nodes, d, a);
    }
}

proof fn lemma_column_x_nonnegative<'a>(nodes: Seq<LayoutNode<'a>>, d: Seq<int>, c: int)
    ensures
        0 <= column_x(nodes, d, c),
    decreases c,
{
    if c > 0 {
        lemma_column_x_nonnegative(nodes, d, c - 1);
        lemma_column_width_bound(nodes, d, c - 1, nodes.len() as int);
    }
}

proof fn lemma_slide_bounds<'a>(nodes: Seq<LayoutNode<'a>>, x: int, y: int, w: int, h: int)
    ensures
        y <= slide(nodes, x, y, w, h),
        slide(nodes, x, y, w, h) <= (if y > manual_floor(nodes, nodes.len() as int) + ROW_GAP {
            y
        } else {
            manual_floor(nodes, nodes.len() as int) + ROW_GAP
        }),
    decreases manual_floor(nodes, nodes.len() as int) + 1 - y,
{
    lemma_lowest_cover_bounds(nodes, x, y, w, h, nodes.len() as int);
    if let Some(b) = lowest_cover(nodes, x, y, w, h, nodes.len() as int) {
        lemma_slide_bounds(nodes, x, b + ROW_GAP, w, h);
    }
}

/// The lowest bottom of the manual nodes overlapping the box.
fn lowest_cover_of(nodes: &[LayoutNode], x: i64, y: i64, w: u32, h: u32) -> (found: Option<i64>)
    requires
        layout_fits(nodes@),
        0 <= x,
        x + w <= i64::MAX,
        0 <= y,
        y + h <= i64::MAX,
    ensures
        found matches Some(b) ==> lowest_cover(nodes@, x as int, y as int, w as int, h as int, nodes@.len() as int) == Some(b as int),
        found is None ==> lowest_cover(nodes@, x as int, y as int, w as int, h as int, nodes@.len() as int) is None,
{
    let mut found: Option<i64> = None;
    let mut j: usize = 0;
    while j < nodes.len()
        invariant
            0 <= j <= nodes@.len(),
            layout_fits(nodes@),
            0 <= x,
            x + w <= i64::MAX,
            0 <= y,
            y + h <= i64::MAX,
            found matches Some(b) ==> lowest_cover(nodes@, x as int, y as int, w as int, h as int, j as int) == Some(b as int),
            found is None ==> lowest_cover(nodes@, x as int, y as int, w as int, h as int, j as int) is None,
        decreases nodes@.len() - j,
    {
        let node = &nodes[j];
        if let Some(cell) = node.manual {
            assert(nodes@[j as int].manual == Some(cell));
            let right = cell[0] + node.size[0] as i64;
            let bottom_j = cell[1] + node.size[1] as i64;
            if x < right && x + w as i64 > cell[0] && y < bottom_j && y + h as i64 > cell[1] {
                found = match found {
                    Some(v) => if v >= bottom_j {
                        Some(v)
                    } else {
                        Some(bottom_j)
                    },
                    None => Some(bottom_j),
                };
            }
        }
        j += 1;
    }
    found
}

/// Cells for every node, in node order (a later node of the same name
/// wins when they are read into a map). Nodes are given in definition
/// order, the tie-breaker within a column.
pub fn auto_layout(nodes: &[LayoutNode]) -> (cells: Vec<(String, [i64; 2])>)
    requires
        layout_fits(nodes@),
    ensures
        cells@.len() == nodes@.len(),
        forall|i: int|
            0 <= i < nodes@.len() ==> placed(#[trigger] cells@[i], nodes@[i].name@, layout_cell(nodes@, i)),
{
    let depth = layer_depths_of(nodes);
    let ghost d = as_ints(depth@);
    let n = nodes.len();
    // Columns: one per depth up to the deepest.
    let mut column_count: usize = 0;
    let mut i: usize = 0;
    while i < n
        invariant
            0 <= i <= n,
            n == nodes@.len(),
            depth@.len() == n,
            forall|j: int| 0 <= j < n ==> depth@[j] < depth_bound(n as int),
            column_count <= depth_bound(n as int),
            forall|j: int| 0 <= j < i ==> depth@[j] < column_count,
            column_count == 0 || exists|j: int| 0 <= j < i && column_count == #[trigger] depth@[j] + 1,
        decreases n - i,
    {
        if depth[i] + 1 > column_count {
            column_count = depth[i] + 1;
        }
        i += 1;
    }
    // Each column as wide as its widest auto node.
    let mut widths: Vec<u32> = Vec::new();
    let mut c: usize = 0;
    while c < column_count
        invariant
            0 <= c <= column_count,
            widths@.len() == c,
            forall|k: int| 0 <= k < c ==> widths@[k] == 0,
        decreases column_count - c,
    {
        widths.push(0);
        c += 1;
    }
    i = 0;
    while i < n
        invariant
            0 <= i <= n,
            n == nodes@.len(),
            depth@.len() == n,
            d == as_ints(depth@),
            forall|j: int| 0 <= j < n ==> depth@[j] < column_count,
            widths@.len() == column_count,
            forall|k: int| 0 <= k < column_count ==> widths@[k] == column_width(nodes@, d, k, i as int),
        decreases n - i,
    {
        let node = &nodes[i];
        if node.manual.is_none() && node.size[0] > widths[depth[i]] {
            widths.set(depth[i], node.size[0]);
        }
        i += 1;
    }
    // Column x positions.
    let mut xs: Vec<i64> = Vec::new();
    let mut x: i64 = 0;
    c = 0;
    while c < column_count
        invariant
            0 <= c <= column_count,
            column_count <= depth_bound(n as int),
            n == nodes@.len(),
            layout_fits(nodes@),
            depth@.len() == n,
            d == as_ints(depth@),
            d == layer_depths(nodes@),
            column_count == 0 || exists|j: int| 0 <= j < n && column_count == #[trigger] depth@[j] + 1,
            widths@.len() == column_count,
            forall|k: int| 0 <= k < column_count ==> widths@[k] == column_width(nodes@, d, k, n as int),
            xs@.len() == c,
            forall|k: int| 0 <= k < c ==> xs@[k] == column_x(nodes@, d, k),
            x == column_x(nodes@, d, c as int),
        decreases column_count - c,
    {
        proof {
            let j = choose|j: int| 0 <= j < n && column_count == #[trigger] depth@[j] + 1;
            assert(d[j] == depth@[j]);
            lemma_column_x_grows(nodes@, d, c + 1, d[j] + 1);
            lemma_column_width_bound(nodes@, d, c as int, n as int);
            assert(column_x(nodes@, layer_depths(nodes@), layer_depths(nodes@)[j] + 1) <= i64::MAX);
        }
        xs.push(x);
        let w: i64 = if widths[c] > NODE_WIDTH {
            widths[c] as i64
        } else {
            NODE_WIDTH as i64
        };
        x = x + w + COLUMN_GAP;
        c += 1;
    }
    // Place: manual nodes where they are, auto nodes down their column,
    // sliding past manual ones.
    let mut cursor: Vec<i64> = Vec::new();
    c = 0;
    while c < column_count
        invariant
            0 <= c <= column_count,
            cursor@.len() == c,
            forall|k: int| 0 <= k < c ==> cursor@[k] == 0,
        decreases column_count - c,
    {
        cursor.push(0);
        c += 1;
    }
    let mut cells: Vec<(String, [i64; 2])> = Vec::new();
    i = 0;
    while i < n
        invariant
            0 <= i <= n,
            n == nodes@.len(),
            layout_fits(nodes@),
            depth@.len() == n,
            d == as_ints(depth@),
            d == layer_depths(nodes@),
            forall|j: int| 0 <= j < n ==> depth@[j] < column_count,
            column_count <= depth_bound(n as int),
            xs@.len() == column_count,
            forall|k: int| 0 <= k < column_count ==> xs@[k] == column_x(nodes@, d, k),
            cursor@.len() == column_count,
            forall|k: int|
                0 <= k < column_count ==> cursor@[k] == cursor_after(nodes@, d, k, i as int),
            cells@.len() == i,
            forall|k: int| 0 <= k < i ==> placed(#[trigger] cells@[k], nodes@[k].name@, cell_at(nodes@, d, k)),
        decreases n - i,
    {
        let node = &nodes[i];
        let name = node.name.to_owned();
        match node.manual {
            Some(cell) => {
                cells.push((name, cell));
                proof {
                    assert forall|k: int| 0 <= k < column_count implies cursor@[k] == cursor_after(
                        nodes@,
                        d,
                        k,
                        i + 1,
                    ) by {}
                }
            },
            None => {
                let column = depth[i];
                let x = xs[column];
                let mut y = cursor[column];
                let w = node.size[0];
                let h = node.size[1];
                let ghost y0 = y as int;
                proof {
                    assert(d[i as int] == column);
                    lemma_cursor_nonnegative(nodes@, d, column as int, i as int);
                    lemma_column_x_grows(nodes@, d, 0, column as int);
                    lemma_width_within_column(nodes@, d, i as int, n as int);
                    assert(column_x(nodes@, layer_depths(nodes@), layer_depths(nodes@)[i as int] + 1) <= i64::MAX);
                    lemma_slide_bounds(nodes@, x as int, y0, w as int, h as int);
                    assert(auto_y(nodes@, layer_depths(nodes@), i as int) + nodes@[i as int].size[1] + ROW_GAP <= i64::MAX);
                    assert(auto_y(nodes@, d, i as int) == slide(nodes@, x as int, y0, w as int, h as int));
                }
                let ghost floor = manual_floor(nodes@, n as int);
                let mut cover = lowest_cover_of(nodes, x, y, w, h);
                while cover.is_some()
                    invariant
                        cover matches Some(b) ==> lowest_cover(nodes@, x as int, y as int, w as int, h as int, nodes@.len() as int) == Some(b as int),
                        cover is None ==> lowest_cover(nodes@, x as int, y as int, w as int, h as int, nodes@.len() as int) is None,
                        layout_fits(nodes@),
                        0 <= x,
                        x + w <= i64::MAX,
                        floor == manual_floor(nodes@, nodes@.len() as int),
                        0 <= y0 <= y,
                        y <= (if y0 > floor + ROW_GAP { y0 } else { floor + ROW_GAP }),
                        slide(nodes@, x as int, y0, w as int, h as int) + h + ROW_GAP <= i64::MAX,
                        slide(nodes@, x as int, y0, w as int, h as int) == slide(
                            nodes@,
                            x as int,
                            y as int,
                            w as int,
                            h as int,
                        ),
                    decreases floor + 1 - y,
                {
                    proof {
                        lemma_lowest_cover_bounds(nodes@, x as int, y as int, w as int, h as int, nodes@.len() as int);
                        let b = cover->0;
                        lemma_slide_bounds(nodes@, x as int, b + ROW_GAP, w as int, h as int);
                    }
                    let below = cover.unwrap();
                    y = below + ROW_GAP;
                    cover = lowest_cover_of(nodes, x, y, w, h);
                }
                proof {
                    assert(slide(nodes@, x as int, y as int, w as int, h as int) == y);
                    assert(d[i as int] == column);
                    assert(y0 == cursor_after(nodes@, d, column as int, i as int));
                    assert(y == auto_y(nodes@, d, i as int));
                    assert(cursor_after(nodes@, d, column as int, i + 1) == y + h + ROW_GAP);
                }
                cursor.set(column, y + h as i64 + ROW_GAP);
                cells.push((name, [x, y]));
                proof {
                    assert(cell_at(nodes@, d, i as int) == (x as int, y as int));
                }
                proof {
                    assert forall|k: int| 0 <= k < column_count implies cursor@[k] == cursor_after(
                        nodes@,
                        d,
                        k,
                        i + 1,
                    ) by {}
                }
            },
        }
        proof {
            assert forall|k: int| 0 <= k < i + 1 implies placed(#[trigger] cells@[k], nodes@[k].name@, cell_at(nodes@, d, k)) by {}
        }
        i += 1;
    }
    assert forall|k: int| 0 <= k < nodes@.len() implies placed(#[trigger] cells@[k], nodes@[k].name@, layout_cell(nodes@, k)) by {
        assert(layout_cell(nodes@, k) == cell_at(nodes@, d, k));
    }
    cells
}

// ---------------------------------------------------------------------
// What the layout promises
// ---------------------------------------------------------------------

/// A hand-placed node sits exactly where the sidecar says.
pub proof fn lemma_manual_nodes_keep_their_cell<'a>(nodes: Seq<LayoutNode<'a>>, i: int)
    requires
        0 <= i < nodes.len(),
        nodes[i].manual is Some,
    ensures
        layout_cell(nodes, i) == (nodes[i].manual->0[0] as int, nodes[i].manual->0[1] as int),
{
}

proof fn lemma_slide_clears<'a>(nodes: Seq<LayoutNode<'a>>, x: int, y: int, w: int, h: int)
    ensures
        lowest_cover(nodes, x, slide(nodes, x, y, w, h), w, h, nodes.len() as int) is None,
    decreases manual_floor(nodes, nodes.len() as int) + 1 - y,
{
    lemma_lowest_cover_bounds(nodes, x, y, w, h, nodes.len() as int);
    if let Some(b) = lowest_cover(nodes, x, y, w, h, nodes.len() as int) {
        lemma_slide_clears(nodes, x, b + ROW_GAP, w, h);
    }
}

/// An auto-placed node never lies over a hand-placed one: the box at its
/// cell overlaps no manual node's rectangle.
pub proof fn lemma_auto_nodes_never_cover_manual_ones<'a>(nodes: Seq<LayoutNode<'a>>, i: int, j: int)
    requires
        0 <= i < nodes.len(),
        0 <= j < nodes.len(),
        nodes[i].manual is None,
    ensures
        !covers(
            nodes,
            j,
            layout_cell(nodes, i).0,
            layout_cell(nodes, i).1,
            nodes[i].size[0] as int,
            nodes[i].size[1] as int,
        ),
{
    let d = layer_depths(nodes);
    let x = column_x(nodes, d, d[i]);
    let y0 = cursor_after(nodes, d, d[i], i);
    let (w, h) = (nodes[i].size[0] as int, nodes[i].size[1] as int);
    lemma_slide_clears(nodes, x, y0, w, h);
    lemma_lowest_cover_bounds(nodes, x, slide(nodes, x, y0, w, h), w, h, nodes.len() as int);
}

proof fn lemma_cursor_grows<'a>(nodes: Seq<LayoutNode<'a>>, d: Seq<int>, c: int, m: int, n: int)
    requires
        0 <= m <= n <= nodes.len(),
    ensures
        cursor_after(nodes, d, c, m) <= cursor_after(nodes, d, c, n),
    decreases n - m,
{
    if m < n {
        lemma_cursor_grows(nodes, d, c, m, n - 1);
        if nodes[n - 1].manual is None && d[n - 1] == c {
            let i = n - 1;
            lemma_slide_bounds(
                nodes,
                column_x(nodes, d, d[i]),
                cursor_after(nodes, d, d[i], i),
                nodes[i].size[0] as int,
                nodes[i].size[1] as int,
            );
            assert(auto_y(nodes, d, i) >= cursor_after(nodes, d, c, i));
            assert(cursor_after(nodes, d, c, n) == auto_y(nodes, d, i) + nodes[i].size[1] + ROW_GAP);
        }
    }
}

/// Auto nodes of one column stack in definition order: a later one starts
/// below the earlier one's bottom, a row gap between them.
pub proof fn lemma_auto_nodes_stack_in_definition_order<'a>(nodes: Seq<LayoutNode<'a>>, i: int, k: int)
    requires
        0 <= i < k < nodes.len(),
        nodes[i].manual is None,
        nodes[k].manual is None,
        layer_depths(nodes)[i] == layer_depths(nodes)[k],
    ensures
        layout_cell(nodes, i).0 == layout_cell(nodes, k).0,
        layout_cell(nodes, i).1 + nodes[i].size[1] + ROW_GAP <= layout_cell(nodes, k).1,
{
    let d = layer_depths(nodes);
    lemma_cursor_grows(nodes, d, d[i], i + 1, k);
    lemma_slide_bounds(
        nodes,
        column_x(nodes, d, d[k]),
        cursor_after(nodes, d, d[k], k),
        nodes[k].size[0] as int,
        nodes[k].size[1] as int,
    );
}

/// The `w1 × h1` box at `(x1, y1)` and the `w2 × h2` box at `(x2, y2)`
/// share no grid cell.
pub open spec fn apart(x1: int, y1: int, w1: int, h1: int, x2: int, y2: int, w2: int, h2: int) -> bool {
    x1 + w1 <= x2 || x2 + w2 <= x1 || y1 + h1 <= y2 || y2 + h2 <= y1
}

proof fn lemma_width_within_column<'a>(nodes: Seq<LayoutNode<'a>>, d: Seq<int>, m: int, n: int)
    requires
        0 <= m < n <= nodes.len(),
        nodes[m].manual is None,
    ensures
        nodes[m].size[0] as int <= column_width(nodes, d, d[m], n),
    decreases n,
{
    if m < n - 1 {
        lemma_width_within_column(nodes, d, m, n - 1);
    }
}

proof fn lemma_column_x_past<'a>(nodes: Seq<LayoutNode<'a>>, d: Seq<int>, c1: int, c2: int)
    requires
        0 <= c1 < c2,
    ensures
        column_x(nodes, d, c1) + column_span(column_width(nodes, d, c1, nodes.len() as int))
            <= column_x(nodes, d, c2),
    decreases c2,
{
    if c1 < c2 - 1 {
        lemma_column_x_past(nodes, d, c1, c2 - 1);
        lemma_columns_grow_rightward(nodes, d, c2 - 1);
    }
}

proof fn lemma_cursor_nonnegative<'a>(nodes: Seq<LayoutNode<'a>>, d: Seq<int>, c: int, n: int)
    requires
        0 <= n <= nodes.len(),
    ensures
        0 <= cursor_after(nodes, d, c, n),
    decreases n,
{
    if n > 0 {
        lemma_cursor_nonnegative(nodes, d, c, n - 1);
        if nodes[n - 1].manual is None && d[n - 1] == c {
            let i = n - 1;
            lemma_cursor_nonnegative(nodes, d, d[i], i);
            lemma_slide_bounds(
                nodes,
                column_x(nodes, d, d[i]),
                cursor_after(nodes, d, d[i], i),
                nodes[i].size[0] as int,
                nodes[i].size[1] as int,
            );
            assert(auto_y(nodes, d, i) == slide(
                nodes,
                column_x(nodes, d, d[i]),
                cursor_after(nodes, d, d[i], i),
                nodes[i].size[0] as int,
                nodes[i].size[1] as int,
            ));
            assert(cursor_after(nodes, d, c, n) == auto_y(nodes, d, i) + nodes[i].size[1] + ROW_GAP);
        }
    }
}

/// An auto-placed node overlaps no other node, hand-placed or auto, and
/// sits at or below row 0.
pub proof fn lemma_auto_nodes_overlap_nothing<'a>(nodes: Seq<LayoutNode<'a>>, i: int, k: int)
    requires
        0 <= i < nodes.len(),
        0 <= k < nodes.len(),
        i != k,
        nodes[i].manual is None,
    ensures
        layout_cell(nodes, i).1 >= 0,
        apart(
            layout_cell(nodes, i).0,
            layout_cell(nodes, i).1,
            nodes[i].size[0] as int,
            nodes[i].size[1] as int,
            layout_cell(nodes, k).0,
            layout_cell(nodes, k).1,
            nodes[k].size[0] as int,
            nodes[k].size[1] as int,
        ),
{
    let d = layer_depths(nodes);
    lemma_depths_stay_below_the_node_count(nodes);
    assert(0 <= d[i] && 0 <= d[k]);
    lemma_cursor_nonnegative(nodes, d, d[i], i);
    lemma_slide_bounds(
        nodes,
        column_x(nodes, d, d[i]),
        cursor_after(nodes, d, d[i], i),
        nodes[i].size[0] as int,
        nodes[i].size[1] as int,
    );
    if nodes[k].manual is Some {
        lemma_auto_nodes_never_cover_manual_ones(nodes, i, k);
    } else if d[i] == d[k] {
        if i < k {
            lemma_auto_nodes_stack_in_definition_order(nodes, i, k);
        } else {
            lemma_auto_nodes_stack_in_definition_order(nodes, k, i);
        }
    } else {
        let n = nodes.len() as int;
        lemma_width_within_column(nodes, d, i, n);
        lemma_width_within_column(nodes, d, k, n);
        if d[i] < d[k] {
            lemma_column_x_past(nodes, d, d[i], d[k]);
        } else {
            lemma_column_x_past(nodes, d, d[k], d[i]);
        }
    }
}

/// Deeper columns lie strictly to the right: each column's x is past the
/// previous one's by at least the default node width plus the gap.
pub proof fn lemma_columns_grow_rightward<'a>(nodes: Seq<LayoutNode<'a>>, d: Seq<int>, c: int)
    requires
        c >= 0,
    ensures
        column_x(nodes, d, c) + NODE_WIDTH + COLUMN_GAP <= column_x(nodes, d, c + 1),
{
}

proof fn lemma_deepen_bounded<'a>(nodes: Seq<LayoutNode<'a>>, d: Seq<int>, i: int, bound: int)
    requires
        0 <= i <= nodes.len(),
        d.len() == nodes.len(),
        forall|j: int| 0 <= j < d.len() ==> 0 <= #[trigger] d[j] < bound,
    ensures
        deepen(nodes, d, i, bound).len() == nodes.len(),
        forall|j: int| 0 <= j < nodes.len() ==> 0 <= #[trigger] deepen(nodes, d, i, bound)[j] < bound,
    decreases i,
{
    if i > 0 {
        lemma_deepen_bounded(nodes, d, i - 1, bound);
        lemma_reach_nonnegative(nodes, deepen(nodes, d, i - 1, bound), i - 1, nodes[i - 1].deps@.len() as int);
    }
}

proof fn lemma_reach_nonnegative<'a>(nodes: Seq<LayoutNode<'a>>, d: Seq<int>, i: int, k: int)
    ensures
        reach(nodes, d, i, k) >= 0,
    decreases k,
{
    if k > 0 {
        lemma_reach_nonnegative(nodes, d, i, k - 1);
    }
}

proof fn lemma_deepened_bounded<'a>(nodes: Seq<LayoutNode<'a>>, d: Seq<int>, rounds: nat, bound: int)
    requires
        d.len() == nodes.len(),
        forall|j: int| 0 <= j < d.len() ==> 0 <= #[trigger] d[j] < bound,
    ensures
        deepened(nodes, d, rounds, bound).len() == nodes.len(),
        forall|j: int| 0 <= j < nodes.len() ==> 0 <= #[trigger] deepened(nodes, d, rounds, bound)[j] < bound,
    decreases rounds,
{
    if rounds > 0 {
        lemma_deepen_bounded(nodes, d, nodes.len() as int, bound);
        let e = deepen(nodes, d, nodes.len() as int, bound);
        if e != d {
            lemma_deepened_bounded(nodes, e, (rounds - 1) as nat, bound);
        }
    }
}

/// Every node gets a column, and no column reaches the node count: a cycle
/// stops deepening at the bound instead of pushing its nodes away.
pub proof fn lemma_depths_stay_below_the_node_count<'a>(nodes: Seq<LayoutNode<'a>>)
    ensures
        layer_depths(nodes).len() == nodes.len(),
        forall|j: int|
            0 <= j < nodes.len() ==> 0 <= #[trigger] layer_depths(nodes)[j] < depth_bound(
                nodes.len() as int,
            ),
{
    let bound = depth_bound(nodes.len() as int);
    lemma_deepened_bounded(nodes, Seq::new(nodes.len(), |i: int| 0int), bound as nat, bound);
}

proof fn lemma_settled_pass<'a>(nodes: Seq<LayoutNode<'a>>, d: Seq<int>, i: int, bound: int)
    requires
        0 <= i <= nodes.len(),
        d.len() == nodes.len(),
        forall|j: int| 0 <= j < d.len() ==> 0 <= #[trigger] d[j] < bound,
        deepen(nodes, d, i, bound) == d,
    ensures
        forall|j: int|
            0 <= j < i ==> #[trigger] reach(nodes, d, j, nodes[j].deps@.len() as int) <= d[j] || reach(
                nodes,
                d,
                j,
                nodes[j].deps@.len() as int,
            ) >= bound,
    decreases i,
{
    if i > 0 {
        lemma_deepen_bounded(nodes, d, i - 1, bound);
        let e = deepen(nodes, d, i - 1, bound);
        lemma_deepen_grows(nodes, d, i - 1, bound);
        let b = reach(nodes, e, i - 1, nodes[i - 1].deps@.len() as int);
        if b > e[i - 1] && b < bound {
            assert(e.update(i - 1, b)[i - 1] == b);
            assert(e[i - 1] >= d[i - 1]);
            assert(false);
        }
        assert(e =~= d);
        lemma_settled_pass(nodes, d, i - 1, bound);
    }
}

proof fn lemma_deepen_grows<'a>(nodes: Seq<LayoutNode<'a>>, d: Seq<int>, i: int, bound: int)
    requires
        0 <= i <= nodes.len(),
        d.len() == nodes.len(),
    ensures
        deepen(nodes, d, i, bound).len() == d.len(),
        forall|j: int| 0 <= j < d.len() ==> #[trigger] deepen(nodes, d, i, bound)[j] >= d[j],
    decreases i,
{
    if i > 0 {
        lemma_deepen_grows(nodes, d, i - 1, bound);
    }
}

/// Once a pass changes nothing, every node sits right of each node it
/// reads from (its depth is more than each such node's), unless the
/// deepest of them already sits at the last depth the bound allows.
pub proof fn lemma_settled_layers_follow_their_deps<'a>(nodes: Seq<LayoutNode<'a>>, i: int, k: int)
    requires
        0 <= i < nodes.len(),
        0 <= k < nodes[i].deps@.len(),
        deepen(
            nodes,
            layer_depths(nodes),
            nodes.len() as int,
            depth_bound(nodes.len() as int),
        ) == layer_depths(nodes),
    ensures
        named(nodes, nodes[i].deps@[k]@, nodes.len() as int) matches Some(j) ==> j == i
            || layer_depths(nodes)[j] < layer_depths(nodes)[i] || reach(
            nodes,
            layer_depths(nodes),
            i,
            nodes[i].deps@.len() as int,
        ) >= depth_bound(nodes.len() as int),
{
    let d = layer_depths(nodes);
    let bound = depth_bound(nodes.len() as int);
    lemma_depths_stay_below_the_node_count(nodes);
    lemma_settled_pass(nodes, d, nodes.len() as int, bound);
    lemma_reach_covers(nodes, d, i, k + 1, nodes[i].deps@.len() as int);
}

proof fn lemma_reach_covers<'a>(nodes: Seq<LayoutNode<'a>>, d: Seq<int>, i: int, k: int, m: int)
    requires
        0 < k <= m,
    ensures
        reach(nodes, d, i, k) <= reach(nodes, d, i, m),
        named(nodes, nodes[i].deps@[k - 1]@, nodes.len() as int) matches Some(j) ==> j == i || d[j] + 1
            <= reach(nodes, d, i, m),
    decreases m - k,
{
    if k < m {
        lemma_reach_covers(nodes, d, i, k, m - 1);
    }
}


// ---------------------------------------------------------------------
// Depth as the longest dependency path
// ---------------------------------------------------------------------

/// Node `i` reads from node `j`: one of its deps names `j` (the last node
/// of that name), and `j` is not `i` itself.
pub open spec fn dep_edge<'a>(nodes: Seq<LayoutNode<'a>>, j: int, i: int) -> bool {
    &&& 0 <= i < nodes.len()
    &&& j != i
    &&& exists|k: int|
        0 <= k < nodes[i].deps@.len() && #[trigger] named(nodes, nodes[i].deps@[k]@, nodes.len() as int)
            == Some(j)
}

/// A dependency path: nodes, each read from by the next. Its length is
/// its number of steps, one less than its nodes.
pub open spec fn dep_path<'a>(nodes: Seq<LayoutNode<'a>>, p: Seq<int>) -> bool {
    &&& p.len() >= 1
    &&& forall|t: int| 0 <= t < p.len() ==> 0 <= #[trigger] p[t] < nodes.len()
    &&& forall|t: int| 0 <= t < p.len() - 1 ==> #[trigger] dep_edge(nodes, p[t], p[t + 1])
}

/// No dependency cycle: no path runs through more nodes than there are.
pub open spec fn acyclic<'a>(nodes: Seq<LayoutNode<'a>>) -> bool {
    forall|p: Seq<int>| #[trigger] dep_path(nodes, p) ==> p.len() <= nodes.len()
}

/// Some dependency path of `steps` steps ends at node `i`.
pub open spec fn ends_path<'a>(nodes: Seq<LayoutNode<'a>>, i: int, steps: int) -> bool {
    exists|p: Seq<int>| #[trigger] dep_path(nodes, p) && p.last() == i && p.len() == steps + 1
}

/// Every depth is the length of some dependency path ending at its node.
spec fn witnessed<'a>(nodes: Seq<LayoutNode<'a>>, d: Seq<int>) -> bool {
    &&& d.len() == nodes.len()
    &&& forall|i: int| 0 <= i < nodes.len() ==> #[trigger] ends_path(nodes, i, d[i])
}

/// Every dependency path of at most `r` steps is no longer than the depth
/// of the node it ends at.
spec fn covered<'a>(nodes: Seq<LayoutNode<'a>>, d: Seq<int>, r: int) -> bool {
    forall|p: Seq<int>| #[trigger] dep_path(nodes, p) && p.len() <= r + 1 ==> d[p.last()] >= p.len() - 1
}

proof fn lemma_named_in_range<'a>(nodes: Seq<LayoutNode<'a>>, name: Seq<char>, n: int)
    requires
        n <= nodes.len(),
    ensures
        named(nodes, name, n) matches Some(j) ==> 0 <= j < n,
    decreases n,
{
    if n > 0 {
        lemma_named_in_range(nodes, name, n - 1);
    }
}

proof fn lemma_path_extends<'a>(nodes: Seq<LayoutNode<'a>>, p: Seq<int>, i: int)
    requires
        dep_path(nodes, p),
        dep_edge(nodes, p.last(), i),
    ensures
        dep_path(nodes, p.push(i)),
        p.push(i).last() == i,
{
    let q = p.push(i);
    assert forall|t: int| 0 <= t < q.len() implies 0 <= #[trigger] q[t] < nodes.len() by {
        if t < p.len() {
            assert(q[t] == p[t]);
        }
    }
    assert forall|t: int| 0 <= t < q.len() - 1 implies #[trigger] dep_edge(nodes, q[t], q[t + 1]) by {
        if t < p.len() - 1 {
            assert(q[t] == p[t] && q[t + 1] == p[t + 1]);
        } else {
            assert(q[t] == p.last());
        }
    }
}

proof fn lemma_path_shortens<'a>(nodes: Seq<LayoutNode<'a>>, p: Seq<int>)
    requires
        dep_path(nodes, p),
        p.len() >= 2,
    ensures
        dep_path(nodes, p.drop_last()),
        dep_edge(nodes, p.drop_last().last(), p.last()),
{
    let q = p.drop_last();
    assert forall|t: int| 0 <= t < q.len() implies 0 <= #[trigger] q[t] < nodes.len() by {
        assert(q[t] == p[t]);
    }
    assert forall|t: int| 0 <= t < q.len() - 1 implies #[trigger] dep_edge(nodes, q[t], q[t + 1]) by {
        assert(q[t] == p[t] && q[t + 1] == p[t + 1]);
    }
    let t = p.len() - 2;
    assert(dep_edge(nodes, p[t], p[t + 1]));
    assert(q.last() == p[t] && p.last() == p[t + 1]);
}

/// A positive reach is one more than the depth of some node read from.
proof fn lemma_reach_witness<'a>(nodes: Seq<LayoutNode<'a>>, d: Seq<int>, i: int, k: int)
    requires
        0 <= i < nodes.len(),
        0 <= k <= nodes[i].deps@.len(),
    ensures
        reach(nodes, d, i, k) >= 0,
        reach(nodes, d, i, k) > 0 ==> exists|j: int|
            0 <= j < nodes.len() && #[trigger] dep_edge(nodes, j, i) && reach(nodes, d, i, k) == d[j] + 1,
    decreases k,
{
    if k > 0 {
        lemma_reach_witness(nodes, d, i, k - 1);
        lemma_named_in_range(nodes, nodes[i].deps@[k - 1]@, nodes.len() as int);
        if let Some(j) = named(nodes, nodes[i].deps@[k - 1]@, nodes.len() as int) {
            if j != i && d[j] + 1 > reach(nodes, d, i, k - 1) {
                assert(dep_edge(nodes, j, i));
            }
        }
    }
}

/// On an acyclic graph, witnessed depths stay below the node count, and
/// so does every reach.
proof fn lemma_witnessed_below<'a>(nodes: Seq<LayoutNode<'a>>, d: Seq<int>, i: int)
    requires
        acyclic(nodes),
        witnessed(nodes, d),
        0 <= i < nodes.len(),
    ensures
        0 <= d[i] <= nodes.len() - 1,
        reach(nodes, d, i, nodes[i].deps@.len() as int) <= nodes.len() - 1,
{
    assert(ends_path(nodes, i, d[i]));
    let p = choose|p: Seq<int>| #[trigger] dep_path(nodes, p) && p.last() == i && p.len() == d[i] + 1;
    let r = reach(nodes, d, i, nodes[i].deps@.len() as int);
    lemma_reach_witness(nodes, d, i, nodes[i].deps@.len() as int);
    if r > 0 {
        let j = choose|j: int| 0 <= j < nodes.len() && #[trigger] dep_edge(nodes, j, i) && r == d[j] + 1;
        assert(ends_path(nodes, j, d[j]));
        let q = choose|q: Seq<int>| #[trigger] dep_path(nodes, q) && q.last() == j && q.len() == d[j] + 1;
        lemma_path_extends(nodes, q, i);
    }
}

proof fn lemma_deepen_witnessed<'a>(nodes: Seq<LayoutNode<'a>>, d: Seq<int>, m: int, bound: int)
    requires
        acyclic(nodes),
        witnessed(nodes, d),
        0 <= m <= nodes.len(),
    ensures
        witnessed(nodes, deepen(nodes, d, m, bound)),
    decreases m,
{
    if m > 0 {
        lemma_deepen_witnessed(nodes, d, m - 1, bound);
        let e = deepen(nodes, d, m - 1, bound);
        let i = m - 1;
        let b = reach(nodes, e, i, nodes[i].deps@.len() as int);
        lemma_witnessed_below(nodes, e, i);
        if b > e[i] && b < bound {
            let f = e.update(i, b);
            lemma_reach_witness(nodes, e, i, nodes[i].deps@.len() as int);
            let j = choose|j: int| 0 <= j < nodes.len() && #[trigger] dep_edge(nodes, j, i) && b == e[j] + 1;
            assert(ends_path(nodes, j, e[j]));
            let q = choose|q: Seq<int>| #[trigger] dep_path(nodes, q) && q.last() == j && q.len() == e[j] + 1;
            lemma_path_extends(nodes, q, i);
            assert forall|x: int| 0 <= x < nodes.len() implies #[trigger] ends_path(nodes, x, f[x]) by {
                if x == i {
                    assert(dep_path(nodes, q.push(i)) && q.push(i).last() == x && q.push(i).len() == f[x] + 1);
                } else {
                    assert(f[x] == e[x]);
                    assert(ends_path(nodes, x, e[x]));
                }
            }
        }
    }
}

proof fn lemma_deepen_steps<'a>(nodes: Seq<LayoutNode<'a>>, d: Seq<int>, m1: int, m2: int, bound: int)
    requires
        0 <= m1 <= m2 <= nodes.len(),
        d.len() == nodes.len(),
    ensures
        forall|j: int| 0 <= j < d.len() ==> #[trigger] deepen(nodes, d, m2, bound)[j] >= deepen(nodes, d, m1, bound)[j],
    decreases m2 - m1,
{
    lemma_deepen_grows(nodes, d, m2, bound);
    if m1 < m2 {
        lemma_deepen_steps(nodes, d, m1, m2 - 1, bound);
        lemma_deepen_grows(nodes, d, m2 - 1, bound);
    }
}

/// A pass reaches one step further along every path.
proof fn lemma_pass_progress<'a>(nodes: Seq<LayoutNode<'a>>, d: Seq<int>, r: int)
    requires
        acyclic(nodes),
        witnessed(nodes, d),
        covered(nodes, d, r),
        r >= 0,
    ensures
        covered(nodes, deepen(nodes, d, nodes.len() as int, depth_bound(nodes.len() as int)), r + 1),
{
    let n = nodes.len() as int;
    let bound = depth_bound(n);
    let f = deepen(nodes, d, n, bound);
    lemma_deepen_grows(nodes, d, n, bound);
    assert forall|p: Seq<int>| #[trigger] dep_path(nodes, p) && p.len() <= r + 2 implies f[p.last()] >= p.len() - 1 by {
        let i = p.last();
        assert(p[p.len() - 1] == i);
        if p.len() <= r + 1 {
            assert(d[i] >= p.len() - 1);
        } else {
            lemma_path_shortens(nodes, p);
            let q = p.drop_last();
            let j = q.last();
            assert(q[q.len() - 1] == j);
            assert(d[j] >= r);
            let k = choose|k: int|
                0 <= k < nodes[i].deps@.len() && #[trigger] named(nodes, nodes[i].deps@[k]@, nodes.len() as int)
                    == Some(j);
            let e = deepen(nodes, d, i, bound);
            lemma_deepen_grows(nodes, d, i, bound);
            lemma_deepen_witnessed(nodes, d, i, bound);
            lemma_reach_covers(nodes, e, i, k + 1, nodes[i].deps@.len() as int);
            lemma_witnessed_below(nodes, e, i);
            assert(deepen(nodes, d, i + 1, bound)[i] >= r + 1);
            lemma_deepen_steps(nodes, d, i + 1, n, bound);
        }
    }
}

proof fn lemma_stable_covers<'a>(nodes: Seq<LayoutNode<'a>>, d: Seq<int>, r: int, m: nat)
    requires
        acyclic(nodes),
        witnessed(nodes, d),
        covered(nodes, d, r),
        r >= 0,
        deepen(nodes, d, nodes.len() as int, depth_bound(nodes.len() as int)) == d,
    ensures
        covered(nodes, d, r + m),
    decreases m,
{
    if m > 0 {
        lemma_pass_progress(nodes, d, r);
        lemma_stable_covers(nodes, d, r + 1, (m - 1) as nat);
    }
}

proof fn lemma_deepened_covers<'a>(nodes: Seq<LayoutNode<'a>>, d: Seq<int>, rounds: nat, r: int)
    requires
        acyclic(nodes),
        witnessed(nodes, d),
        covered(nodes, d, r),
        r >= 0,
    ensures
        witnessed(nodes, deepened(nodes, d, rounds, depth_bound(nodes.len() as int))),
        covered(nodes, deepened(nodes, d, rounds, depth_bound(nodes.len() as int)), r + rounds),
    decreases rounds,
{
    let bound = depth_bound(nodes.len() as int);
    if rounds > 0 {
        let e = deepen(nodes, d, nodes.len() as int, bound);
        if e == d {
            lemma_stable_covers(nodes, d, r, rounds);
        } else {
            lemma_deepen_witnessed(nodes, d, nodes.len() as int, bound);
            lemma_pass_progress(nodes, d, r);
            lemma_deepened_covers(nodes, e, (rounds - 1) as nat, r + 1);
        }
    }
}

/// On a graph without dependency cycles, each node's column is the
/// length of the longest dependency path ending at it: some path is that
/// long, and none is longer (a source sits in column 0).
pub proof fn lemma_depth_is_longest_path<'a>(nodes: Seq<LayoutNode<'a>>, i: int)
    requires
        acyclic(nodes),
        0 <= i < nodes.len(),
    ensures
        exists|p: Seq<int>|
            #[trigger] dep_path(nodes, p) && p.last() == i && p.len() - 1 == layer_depths(nodes)[i],
        forall|p: Seq<int>| #[trigger] dep_path(nodes, p) && p.last() == i ==> p.len() - 1 <= layer_depths(nodes)[i],
{
    let n = nodes.len() as int;
    let bound = depth_bound(n);
    let zeros = Seq::new(nodes.len(), |x: int| 0int);
    assert forall|x: int| 0 <= x < nodes.len() implies #[trigger] ends_path(nodes, x, zeros[x]) by {
        let p = seq![x];
        assert(dep_path(nodes, p) && p.last() == x && p.len() == zeros[x] + 1);
    }
    assert forall|p: Seq<int>| #[trigger] dep_path(nodes, p) && p.len() <= 0 + 1 implies zeros[p.last()] >= p.len() - 1 by {
        assert(p[p.len() - 1] == p.last());
    }
    lemma_deepened_covers(nodes, zeros, bound as nat, 0);
    let d = layer_depths(nodes);
    assert(d == deepened(nodes, zeros, bound as nat, bound));
    assert(ends_path(nodes, i, d[i]));
    let p = choose|p: Seq<int>| #[trigger] dep_path(nodes, p) && p.last() == i && p.len() == d[i] + 1;
    assert(dep_path(nodes, p) && p.last() == i && p.len() - 1 == d[i]);
}

} // verus!
