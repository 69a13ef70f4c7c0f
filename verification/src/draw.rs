//! One output's drawables as display frames: points in one batch, curve
//! segments in another, and meshes instanced by value hash — a hash drawn
//! once goes inline in the mesh batch, a hash shared by several elements
//! travels once as a blob plus an instances frame. Nothing drawable is one
//! `clear` frame. A value is walked into its drawing here, each drawable
//! under its top-level slot; its leaves arrive as plain values (positions
//! as `f32` bit patterns, curves and solids already tessellated).

use vstd::prelude::*;
use crate::display::{allocated_after, fresh_triples, id_in, PickTable};
use crate::frames::{
    batch_bytes, batch_fits, batch_is_aligned, decode_spec, encode_batch, encode_clear,
    encode_instances, encode_mesh_blob, header_bytes, identity, identity_bits,
    instances_frame_bytes, lemma_batch_round_trip, lemma_clear_round_trip,
    lemma_instances_round_trip, lemma_mesh_blob_round_trip, mesh_blob_bytes, Batch, BatchView,
    ElementEntry, FrameKind, Header, Instance, InstanceView, ValueHash,
};

verus! {

/// A point to draw: its element and its position (`f32` bit patterns).
#[derive(Debug, Clone, Copy, PartialEq, Eq)]
pub struct DrawnPoint {
    pub element: u32,
    pub position: [u32; 3],
}

/// A curve's display segments: its element, positions (xyz triples, `f32`
/// bit patterns) and segment index pairs. No positions: nothing to draw.
#[derive(Debug, Clone, PartialEq, Eq)]
pub struct DrawnCurve {
    pub element: u32,
    pub positions: Vec<u32>,
    pub indices: Vec<u32>,
}

/// A mesh to draw — a mesh value, or a solid's display mesh — under the
/// value hash that interns it.
#[derive(Debug, Clone, PartialEq, Eq)]
pub struct DrawnMesh {
    pub element: u32,
    pub hash: ValueHash,
    pub positions: Vec<u32>,
    pub indices: Vec<u32>,
}

/// Everything one output draws: points, curves, and meshes (mesh values
/// first, then solids' display meshes, each in the order the value holds
/// them); `refused` are the elements of solids that could not be meshed —
/// they draw nothing but still get a pick id.
#[derive(Debug, Clone, PartialEq, Eq)]
pub struct Drawing {
    pub points: Vec<DrawnPoint>,
    pub curves: Vec<DrawnCurve>,
    pub meshes: Vec<DrawnMesh>,
    pub refused: Vec<u32>,
}

// ------------------------------------------------------------- batches --

/// The empty batch.
pub open spec fn no_batch() -> BatchView {
    BatchView {
        elements: Seq::empty(),
        positions: Seq::empty(),
        indices: Seq::empty(),
        pick_ids: Seq::empty(),
    }
}

/// `b` with one element appended, as `Batch::push_element` appends it.
pub open spec fn pushed(b: BatchView, element: u32, pick: u32, positions: Seq<u32>, indices: Seq<u32>) -> BatchView {
    BatchView {
        elements: b.elements.push(b.next_entry(element, pick, positions.len() / 3, indices.len())),
        positions: b.positions + positions,
        indices: b.indices + indices.map_values(
            |i: u32| i.saturating_add((b.positions.len() / 3) as u32),
        ),
        pick_ids: b.pick_ids + Seq::new(positions.len() / 3, |k: int| pick),
    }
}

/// A batch with nothing in it is the empty batch.
proof fn lemma_no_batch(b: BatchView)
    requires
        b.elements.len() == 0,
        b.positions.len() == 0,
        b.indices.len() == 0,
        b.pick_ids.len() == 0,
    ensures
        b == no_batch(),
{
    assert(b.elements =~= Seq::<ElementEntry>::empty());
    assert(b.positions =~= Seq::<u32>::empty());
    assert(b.indices =~= Seq::<u32>::empty());
    assert(b.pick_ids =~= Seq::<u32>::empty());
}

/// The pick id of element `e`, from the ids answered for `elements`.
pub open spec fn pick_in(elements: Seq<u32>, ids: Seq<u32>, e: u32) -> u32 {
    match elements.index_of_first(e) {
        Some(i) => ids[i],
        None => 0,
    }
}

/// Where an output's frames go: the generation, the node, the output
/// port, and how many elements the output value has.
#[derive(Debug, Clone, Copy, PartialEq, Eq, Structural)]
pub struct FrameTarget {
    pub generation: u64,
    pub node: u32,
    pub output: u32,
    pub element_count: u32,
}

/// The header of a frame of `kind` for `target`.
pub open spec fn header_for(target: FrameTarget, kind: FrameKind) -> Header {
    Header {
        kind,
        generation: target.generation,
        node: target.node,
        output: target.output,
        element_start: 0,
        element_count: target.element_count,
    }
}

/// The header of a frame of `kind` for `target`.
fn header_of(target: FrameTarget, kind: FrameKind) -> (h: Header)
    ensures
        h == header_for(target, kind),
{
    Header {
        kind,
        generation: target.generation,
        node: target.node,
        output: target.output,
        element_start: 0,
        element_count: target.element_count,
    }
}

/// The pick id answered for `e`.
fn pick_of(elements: &[u32], ids: &[u32], e: u32) -> (pick: u32)
    requires
        elements@.contains(e),
        ids@.len() == elements@.len(),
    ensures
        pick == pick_in(elements@, ids@, e),
{
    let mut k: usize = 0;
    while k < elements.len()
        invariant
            0 <= k <= elements@.len(),
            elements@.contains(e),
            ids@.len() == elements@.len(),
            forall|j: int| 0 <= j < k ==> elements@[j] != e,
        decreases elements@.len() - k,
    {
        if elements[k] == e {
            proof {
                elements@.index_of_first_ensures(e);
            }
            return ids[k];
        }
        k += 1;
    }
    assert(false);
    0
}

/// The point batch: every point, in order, one vertex each.
pub open spec fn point_batch(points: Seq<DrawnPoint>, pick: spec_fn(u32) -> u32) -> BatchView
    decreases points.len(),
{
    if points.len() == 0 {
        no_batch()
    } else {
        let p = points.last();
        pushed(point_batch(points.drop_last(), pick), p.element, pick(p.element), p.position@, Seq::empty())
    }
}

/// The curve batch: every curve with segments, in order.
pub open spec fn curve_batch(curves: Seq<DrawnCurve>, pick: spec_fn(u32) -> u32) -> BatchView
    decreases curves.len(),
{
    if curves.len() == 0 {
        no_batch()
    } else {
        let c = curves.last();
        let before = curve_batch(curves.drop_last(), pick);
        if c.positions@.len() == 0 {
            before
        } else {
            pushed(before, c.element, pick(c.element), c.positions@, c.indices@)
        }
    }
}

/// The positions the curve batch carries.
pub open spec fn curve_positions(curves: Seq<DrawnCurve>) -> nat
    decreases curves.len(),
{
    if curves.len() == 0 {
        0
    } else {
        curve_positions(curves.drop_last()) + curves.last().positions@.len()
    }
}

/// The indices the curve batch carries.
pub open spec fn curve_indices(curves: Seq<DrawnCurve>) -> nat
    decreases curves.len(),
{
    if curves.len() == 0 {
        0
    } else if curves.last().positions@.len() == 0 {
        curve_indices(curves.drop_last())
    } else {
        curve_indices(curves.drop_last()) + curves.last().indices@.len()
    }
}

/// A prefix of the curves carries no more than all of them.
proof fn lemma_curve_prefix(curves: Seq<DrawnCurve>, k: int)
    requires
        0 <= k <= curves.len(),
    ensures
        curve_positions(curves.take(k)) <= curve_positions(curves),
        curve_indices(curves.take(k)) <= curve_indices(curves),
    decreases curves.len() - k,
{
    if k < curves.len() {
        lemma_curve_prefix(curves, k + 1);
        assert(curves.take(k + 1).drop_last() =~= curves.take(k));
    } else {
        assert(curves.take(k) =~= curves);
    }
}

/// The batch of `points`, picked by `pick_in(elements, ids, ..)`.
fn build_point_batch(points: &[DrawnPoint], elements: &[u32], ids: &[u32]) -> (batch: Batch)
    requires
        points@.len() <= u32::MAX,
        ids@.len() == elements@.len(),
        forall|k: int| 0 <= k < points@.len() ==> elements@.contains(#[trigger] points@[k].element),
    ensures
        batch@ == point_batch(points@, |e: u32| pick_in(elements@, ids@, e)),
        batch@.elements.len() == points@.len(),
        batch@.positions.len() == 3 * points@.len(),
        batch@.indices.len() == 0,
        batch_is_aligned(batch@),
{
    let ghost pick = |e: u32| pick_in(elements@, ids@, e);
    let mut batch = Batch::new();
    let mut k: usize = 0;
    proof {
        lemma_no_batch(batch@);
    }
    while k < points.len()
        invariant
            0 <= k <= points@.len(),
            points@.len() <= u32::MAX,
            ids@.len() == elements@.len(),
            forall|j: int| 0 <= j < points@.len() ==> elements@.contains(#[trigger] points@[j].element),
            pick == (|e: u32| pick_in(elements@, ids@, e)),
            batch@ == point_batch(points@.take(k as int), pick),
            batch@.elements.len() == k,
            batch@.positions.len() == 3 * k,
            batch@.pick_ids.len() == k,
            batch@.indices.len() == 0,
        decreases points@.len() - k,
    {
        let p = points[k];
        assert(elements@.contains(points@[k as int].element));
        let id = pick_of(elements, ids, p.element);
        let empty: Vec<u32> = Vec::new();
        batch.push_element(p.element, id, p.position.as_slice(), empty.as_slice());
        proof {
            assert(points@.take(k + 1).drop_last() =~= points@.take(k as int));
            assert(empty@ =~= Seq::<u32>::empty());
            assert(batch@ =~= pushed(point_batch(points@.take(k as int), pick), p.element, pick(p.element), p.position@, Seq::empty()));
        }
        k += 1;
    }
    assert(points@.take(points@.len() as int) =~= points@);
    batch
}

/// The batch of `curves`, picked by `pick_in(elements, ids, ..)`.
fn build_curve_batch(curves: &[DrawnCurve], elements: &[u32], ids: &[u32]) -> (batch: Batch)
    requires
        curves@.len() <= u32::MAX,
        curve_positions(curves@) / 3 <= u32::MAX,
        curve_indices(curves@) <= u32::MAX,
        forall|k: int| 0 <= k < curves@.len() ==> (#[trigger] curves@[k]).positions@.len() % 3 == 0,
        ids@.len() == elements@.len(),
        forall|k: int| 0 <= k < curves@.len() ==> elements@.contains(#[trigger] curves@[k].element),
    ensures
        batch@ == curve_batch(curves@, |e: u32| pick_in(elements@, ids@, e)),
        batch_fits(batch@),
        batch_is_aligned(batch@),
{
    let ghost pick = |e: u32| pick_in(elements@, ids@, e);
    let mut batch = Batch::new();
    let mut k: usize = 0;
    proof {
        lemma_no_batch(batch@);
    }
    while k < curves.len()
        invariant
            0 <= k <= curves@.len(),
            curves@.len() <= u32::MAX,
            curve_positions(curves@) / 3 <= u32::MAX,
            curve_indices(curves@) <= u32::MAX,
            forall|j: int| 0 <= j < curves@.len() ==> (#[trigger] curves@[j]).positions@.len() % 3 == 0,
            ids@.len() == elements@.len(),
            forall|j: int| 0 <= j < curves@.len() ==> elements@.contains(#[trigger] curves@[j].element),
            pick == (|e: u32| pick_in(elements@, ids@, e)),
            batch@ == curve_batch(curves@.take(k as int), pick),
            batch@.elements.len() <= k,
            batch@.positions.len() == curve_positions(curves@.take(k as int)),
            batch@.indices.len() == curve_indices(curves@.take(k as int)),
            batch@.positions.len() == 3 * batch@.pick_ids.len(),
        decreases curves@.len() - k,
    {
        let c = &curves[k];
        proof {
            assert(curves@.take(k + 1).drop_last() =~= curves@.take(k as int));
            lemma_curve_prefix(curves@, k + 1);
            lemma_curve_prefix(curves@, k as int);
        }
        if c.positions.len() > 0 {
            assert(elements@.contains(curves@[k as int].element));
            let id = pick_of(elements, ids, c.element);
            batch.push_element(c.element, id, c.positions.as_slice(), c.indices.as_slice());
        }
        k += 1;
    }
    assert(curves@.take(curves@.len() as int) =~= curves@);
    batch
}

// -------------------------------------------------------- hash order --

/// `a` sorts strictly before `b`, byte by byte (the order of hashes).
pub open spec fn bytes_less(a: Seq<u8>, b: Seq<u8>) -> bool
    decreases a.len(),
{
    if b.len() == 0 {
        false
    } else if a.len() == 0 {
        true
    } else if a[0] != b[0] {
        a[0] < b[0]
    } else {
        bytes_less(a.drop_first(), b.drop_first())
    }
}

/// No byte string sorts before itself.
pub proof fn lemma_bytes_less_irreflexive(a: Seq<u8>)
    ensures
        !bytes_less(a, a),
    decreases a.len(),
{
    if a.len() > 0 {
        lemma_bytes_less_irreflexive(a.drop_first());
    }
}

/// Sorting before is transitive.
pub proof fn lemma_bytes_less_transitive(a: Seq<u8>, b: Seq<u8>, c: Seq<u8>)
    requires
        bytes_less(a, b),
        bytes_less(b, c),
    ensures
        bytes_less(a, c),
    decreases a.len(),
{
    if a.len() > 0 && b.len() > 0 && c.len() > 0 && a[0] == b[0] && b[0] == c[0] {
        lemma_bytes_less_transitive(a.drop_first(), b.drop_first(), c.drop_first());
    }
}

/// Of two different byte strings, exactly one sorts before the other.
pub proof fn lemma_bytes_less_total(a: Seq<u8>, b: Seq<u8>)
    ensures
        a != b ==> bytes_less(a, b) || bytes_less(b, a),
        !(bytes_less(a, b) && bytes_less(b, a)),
    decreases a.len(),
{
    if a.len() > 0 && b.len() > 0 && a[0] == b[0] {
        lemma_bytes_less_total(a.drop_first(), b.drop_first());
        if a != b {
            assert(a =~= seq![a[0]] + a.drop_first());
            assert(b =~= seq![b[0]] + b.drop_first());
        }
    } else if a.len() == 0 && b.len() == 0 {
        assert(a =~= b);
    }
}

/// Does hash `a` sort strictly before hash `b`?
fn hash_before(a: &ValueHash, b: &ValueHash) -> (before: bool)
    ensures
        before == bytes_less(a@, b@),
{
    let x = a.as_bytes();
    let y = b.as_bytes();
    proof {
        a.lemma_len();
        b.lemma_len();
    }
    let mut i: usize = 0;
    assert(x@.skip(0) =~= x@);
    assert(y@.skip(0) =~= y@);
    while i < 32 && x[i] == y[i]
        invariant
            0 <= i <= 32,
            x@ == a@,
            y@ == b@,
            x@.len() == 32,
            y@.len() == 32,
            bytes_less(a@, b@) == bytes_less(x@.skip(i as int), y@.skip(i as int)),
        decreases 32 - i,
    {
        assert(x@.skip(i as int).drop_first() =~= x@.skip(i + 1));
        assert(y@.skip(i as int).drop_first() =~= y@.skip(i + 1));
        i += 1;
    }
    if i == 32 {
        false
    } else {
        x[i] < y[i]
    }
}

/// The hashes in strictly increasing order.
pub open spec fn strictly_sorted(hashes: Seq<Seq<u8>>) -> bool {
    forall|i: int, j: int| 0 <= i < j < hashes.len() ==> bytes_less(#[trigger] hashes[i], #[trigger] hashes[j])
}

/// The meshes' hashes.
pub open spec fn mesh_hashes(meshes: Seq<DrawnMesh>) -> Set<Seq<u8>> {
    Set::new(|h: Seq<u8>| exists|k: int| 0 <= k < meshes.len() && #[trigger] meshes[k].hash@ == h)
}

/// The meshes' distinct hashes in increasing order (there is one such
/// sequence, and only one: see [`lemma_sorted_hashes_exist`] and
/// [`lemma_sorted_hashes_unique`]).
pub open spec fn sorted_hashes(meshes: Seq<DrawnMesh>) -> Seq<Seq<u8>> {
    choose|hs: Seq<Seq<u8>>| strictly_sorted(hs) && hs.to_set() == mesh_hashes(meshes)
}

/// Two strictly increasing sequences holding the same hashes are the
/// same sequence.
pub proof fn lemma_sorted_hashes_unique(a: Seq<Seq<u8>>, b: Seq<Seq<u8>>)
    requires
        strictly_sorted(a),
        strictly_sorted(b),
        a.to_set() == b.to_set(),
    ensures
        a == b,
    decreases a.len(),
{
    if a.len() == 0 {
        if b.len() > 0 {
            assert(b.to_set().contains(b[0]));
        }
        assert(b.len() == 0);
        assert(a =~= b);
    } else {
        assert(a.to_set().contains(a[0]));
        assert(b.len() > 0);
        assert(b.to_set().contains(b[0]));
        let i = choose|i: int| 0 <= i < a.len() && a[i] == b[0];
        let j = choose|j: int| 0 <= j < b.len() && b[j] == a[0];
        if j > 0 {
            assert(bytes_less(b[0], b[j]));
            if i > 0 {
                assert(bytes_less(a[0], a[i]));
                lemma_bytes_less_total(a[0], b[0]);
            } else {
                lemma_bytes_less_irreflexive(a[0]);
            }
        }
        assert(a[0] == b[0]);
        let ra = a.drop_first();
        let rb = b.drop_first();
        assert forall|h: Seq<u8>| ra.to_set().contains(h) implies rb.to_set().contains(h) by {
            let p = choose|p: int| 0 <= p < ra.len() && ra[p] == h;
            assert(a.to_set().contains(h)) by {
                assert(a[p + 1] == h);
            }
            let q = choose|q: int| 0 <= q < b.len() && b[q] == h;
            if q == 0 {
                assert(bytes_less(a[0], a[p + 1]));
                lemma_bytes_less_irreflexive(a[0]);
            }
            assert(rb[q - 1] == h);
        }
        assert forall|h: Seq<u8>| rb.to_set().contains(h) implies ra.to_set().contains(h) by {
            let p = choose|p: int| 0 <= p < rb.len() && rb[p] == h;
            assert(b.to_set().contains(h)) by {
                assert(b[p + 1] == h);
            }
            let q = choose|q: int| 0 <= q < a.len() && a[q] == h;
            if q == 0 {
                assert(bytes_less(b[0], b[p + 1]));
                lemma_bytes_less_irreflexive(b[0]);
            }
            assert(ra[q - 1] == h);
        }
        assert(ra.to_set() =~= rb.to_set());
        lemma_sorted_hashes_unique(ra, rb);
        assert(a =~= seq![a[0]] + ra);
        assert(b =~= seq![b[0]] + rb);
    }
}

/// The views of hashes.
pub open spec fn hash_views(hashes: Seq<ValueHash>) -> Seq<Seq<u8>> {
    hashes.map_values(|h: ValueHash| h@)
}

/// Adding one more mesh adds its hash.
proof fn lemma_mesh_hashes_step(meshes: Seq<DrawnMesh>, k: int)
    requires
        0 <= k < meshes.len(),
    ensures
        mesh_hashes(meshes.take(k + 1)) == mesh_hashes(meshes.take(k)).insert(meshes[k].hash@),
{
    let before = meshes.take(k);
    let after = meshes.take(k + 1);
    assert forall|h: Seq<u8>| mesh_hashes(after).contains(h) implies mesh_hashes(before).insert(
        meshes[k].hash@,
    ).contains(h) by {
        let p = choose|p: int| 0 <= p < after.len() && #[trigger] after[p].hash@ == h;
        if p < k {
            assert(before[p].hash@ == h);
        }
    }
    assert forall|h: Seq<u8>| mesh_hashes(before).insert(meshes[k].hash@).contains(h) implies mesh_hashes(
        after,
    ).contains(h) by {
        if h == meshes[k].hash@ {
            assert(after[k].hash@ == h);
        } else {
            let p = choose|p: int| 0 <= p < before.len() && #[trigger] before[p].hash@ == h;
            assert(after[p].hash@ == h);
        }
    }
    assert(mesh_hashes(after) =~= mesh_hashes(before).insert(meshes[k].hash@));
}

/// The meshes' distinct hashes in increasing order.
fn order_hashes(meshes: &[DrawnMesh]) -> (order: Vec<ValueHash>)
    ensures
        hash_views(order@) == sorted_hashes(meshes@),
        order@.len() <= meshes@.len(),
{
    let mut order: Vec<ValueHash> = Vec::new();
    let mut k: usize = 0;
    assert(hash_views(order@).to_set() =~= mesh_hashes(meshes@.take(0)));
    while k < meshes.len()
        invariant
            0 <= k <= meshes@.len(),
            strictly_sorted(hash_views(order@)),
            hash_views(order@).to_set() == mesh_hashes(meshes@.take(k as int)),
            order@.len() <= k,
        decreases meshes@.len() - k,
    {
        let h = meshes[k].hash;
        let ghost views = hash_views(order@);
        let mut j: usize = 0;
        while j < order.len() && hash_before(&order[j], &h)
            invariant
                0 <= j <= order@.len(),
                views == hash_views(order@),
                forall|i: int| 0 <= i < j ==> bytes_less(#[trigger] views[i], h@),
            decreases order@.len() - j,
        {
            j += 1;
        }
        proof {
            lemma_mesh_hashes_step(meshes@, k as int);
        }
        if j < order.len() && order[j].same(&h) {
            assert(views.to_set().contains(h@)) by {
                assert(views[j as int] == h@);
            }
            assert(hash_views(order@).to_set().insert(h@) =~= hash_views(order@).to_set());
        } else {
            order.insert(j, h);
            proof {
                let nv = hash_views(order@);
                assert(nv =~= views.insert(j as int, h@));
                if j < views.len() {
                    lemma_bytes_less_total(views[j as int], h@);
                }
                assert forall|a: int, b: int| 0 <= a < b < nv.len() implies bytes_less(
                    #[trigger] nv[a],
                    #[trigger] nv[b],
                ) by {
                    if b < j {
                        assert(bytes_less(views[a], views[b]));
                    } else if b == j {
                        assert(bytes_less(views[a], h@));
                    } else if a < j {
                        assert(bytes_less(views[a], h@));
                        assert(bytes_less(h@, views[j as int]));
                        if b - 1 > j {
                            assert(bytes_less(views[j as int], views[b - 1]));
                            lemma_bytes_less_transitive(h@, views[j as int], views[b - 1]);
                        }
                        lemma_bytes_less_transitive(views[a], h@, views[b - 1]);
                    } else if a == j {
                        assert(bytes_less(h@, views[j as int]));
                        if b - 1 > j {
                            assert(bytes_less(views[j as int], views[b - 1]));
                            lemma_bytes_less_transitive(h@, views[j as int], views[b - 1]);
                        }
                    } else {
                        assert(bytes_less(views[a - 1], views[b - 1]));
                    }
                }
                assert(nv.to_set() =~= views.to_set().insert(h@)) by {
                    assert forall|x: Seq<u8>| nv.to_set().contains(x) implies views.to_set().insert(h@).contains(x) by {
                        let p = choose|p: int| 0 <= p < nv.len() && nv[p] == x;
                        if p < j {
                            assert(views[p] == x);
                        } else if p > j {
                            assert(views[p - 1] == x);
                        }
                    }
                    assert forall|x: Seq<u8>| views.to_set().insert(h@).contains(x) implies nv.to_set().contains(x) by {
                        if x == h@ {
                            assert(nv[j as int] == x);
                        } else {
                            let p = choose|p: int| 0 <= p < views.len() && views[p] == x;
                            if p < j {
                                assert(nv[p] == x);
                            } else {
                                assert(nv[p + 1] == x);
                            }
                        }
                    }
                }
            }
        }
        k += 1;
    }
    proof {
        assert(meshes@.take(meshes@.len() as int) =~= meshes@);
        let hs = hash_views(order@);
        assert(strictly_sorted(hs) && hs.to_set() == mesh_hashes(meshes@));
        lemma_sorted_hashes_unique(hs, sorted_hashes(meshes@));
    }
    order
}

// ------------------------------------------------------------ meshes --

/// The meshes drawn under hash `h`, in order.
pub open spec fn group_of(meshes: Seq<DrawnMesh>, h: Seq<u8>) -> Seq<DrawnMesh>
    decreases meshes.len(),
{
    if meshes.len() == 0 {
        Seq::empty()
    } else {
        let before = group_of(meshes.drop_last(), h);
        if meshes.last().hash@ == h {
            before.push(meshes.last())
        } else {
            before
        }
    }
}

/// A group's instances: one per mesh, identity transforms.
pub open spec fn instance_views(group: Seq<DrawnMesh>, pick: spec_fn(u32) -> u32) -> Seq<InstanceView> {
    group.map_values(
        |m: DrawnMesh| InstanceView { element_index: m.element, pick_id: pick(m.element), transform: identity_bits() },
    )
}

/// The frames and the inline batch after the hashes `hs`, in order: a
/// hash drawn once goes into the batch; a hash drawn by several elements
/// is one blob (the first mesh's geometry) and one instances frame.
pub open spec fn mesh_pass(meshes: Seq<DrawnMesh>, hs: Seq<Seq<u8>>, pick: spec_fn(u32) -> u32, target: FrameTarget) -> (
    Seq<Seq<u8>>,
    BatchView,
)
    decreases hs.len(),
{
    if hs.len() == 0 {
        (Seq::empty(), no_batch())
    } else {
        let before = mesh_pass(meshes, hs.drop_last(), pick, target);
        let hash = hs.last();
        let g = group_of(meshes, hash);
        if g.len() == 1 {
            (before.0, pushed(before.1, g[0].element, pick(g[0].element), g[0].positions@, g[0].indices@))
        } else if g.len() > 1 {
            (
                before.0.push(
                    mesh_blob_bytes(header_for(target, FrameKind::MeshBlob), hash, g[0].positions@, g[0].indices@),
                ).push(instances_frame_bytes(header_for(target, FrameKind::Instances), hash, instance_views(g, pick))),
                before.1,
            )
        } else {
            before
        }
    }
}

/// The positions and indices the inline batch carries after `hs`.
pub open spec fn inline_sizes(meshes: Seq<DrawnMesh>, hs: Seq<Seq<u8>>) -> (nat, nat)
    decreases hs.len(),
{
    if hs.len() == 0 {
        (0, 0)
    } else {
        let before = inline_sizes(meshes, hs.drop_last());
        let g = group_of(meshes, hs.last());
        if g.len() == 1 {
            (before.0 + g[0].positions@.len(), before.1 + g[0].indices@.len())
        } else {
            before
        }
    }
}

/// A prefix of the hashes puts no more in the batch than all of them.
proof fn lemma_inline_prefix(meshes: Seq<DrawnMesh>, hs: Seq<Seq<u8>>, k: int)
    requires
        0 <= k <= hs.len(),
    ensures
        inline_sizes(meshes, hs.take(k)).0 <= inline_sizes(meshes, hs).0,
        inline_sizes(meshes, hs.take(k)).1 <= inline_sizes(meshes, hs).1,
    decreases hs.len() - k,
{
    if k < hs.len() {
        lemma_inline_prefix(meshes, hs, k + 1);
        assert(hs.take(k + 1).drop_last() =~= hs.take(k));
    } else {
        assert(hs.take(k) =~= hs);
    }
}

/// A group holds meshes of the whole.
proof fn lemma_group_within(meshes: Seq<DrawnMesh>, h: Seq<u8>)
    ensures
        group_of(meshes, h).len() <= meshes.len(),
        forall|k: int| 0 <= k < group_of(meshes, h).len() ==> meshes.contains(#[trigger] group_of(meshes, h)[k]),
        forall|k: int| 0 <= k < group_of(meshes, h).len() ==> (#[trigger] group_of(meshes, h)[k]).hash@ == h,
    decreases meshes.len(),
{
    if meshes.len() > 0 {
        lemma_group_within(meshes.drop_last(), h);
        let g = group_of(meshes, h);
        assert forall|k: int| 0 <= k < g.len() implies meshes.contains(#[trigger] g[k]) by {
            let before = group_of(meshes.drop_last(), h);
            if k < before.len() {
                let p = choose|p: int| 0 <= p < meshes.drop_last().len() && meshes.drop_last()[p] == before[k];
                assert(meshes[p] == g[k]);
            } else {
                assert(meshes[meshes.len() - 1] == g[k]);
            }
        }
    }
}

/// The places of the meshes drawn under `h`, in order.
fn collect_group(meshes: &[DrawnMesh], h: &ValueHash) -> (places: Vec<usize>)
    ensures
        places@.map_values(|i: usize| meshes@[i as int]) == group_of(meshes@, h@),
        forall|k: int| 0 <= k < places@.len() ==> (#[trigger] places@[k]) < meshes@.len(),
{
    let mut places: Vec<usize> = Vec::new();
    let mut k: usize = 0;
    while k < meshes.len()
        invariant
            0 <= k <= meshes@.len(),
            places@.map_values(|i: usize| meshes@[i as int]) == group_of(meshes@.take(k as int), h@),
            forall|j: int| 0 <= j < places@.len() ==> (#[trigger] places@[j]) < k,
        decreases meshes@.len() - k,
    {
        let ghost before = places@;
        assert(meshes@.take(k + 1).drop_last() =~= meshes@.take(k as int));
        assert(meshes@.take(k + 1).last() == meshes@[k as int]);
        if meshes[k].hash.same(h) {
            places.push(k);
            assert(places@.map_values(|i: usize| meshes@[i as int]) =~= before.map_values(
                |i: usize| meshes@[i as int],
            ).push(meshes@[k as int]));
        }
        k += 1;
    }
    assert(meshes@.take(meshes@.len() as int) =~= meshes@);
    places
}

/// The instances of the meshes at `places`.
fn group_instances(meshes: &[DrawnMesh], places: &[usize], elements: &[u32], ids: &[u32]) -> (instances: Vec<Instance>)
    requires
        forall|k: int| 0 <= k < places@.len() ==> (#[trigger] places@[k]) < meshes@.len(),
        forall|k: int| 0 <= k < meshes@.len() ==> elements@.contains(#[trigger] meshes@[k].element),
        ids@.len() == elements@.len(),
    ensures
        instances@.map_values(|i: Instance| i@) == instance_views(
            places@.map_values(|i: usize| meshes@[i as int]),
            |e: u32| pick_in(elements@, ids@, e),
        ),
        instances@.len() == places@.len(),
{
    let ghost pick = |e: u32| pick_in(elements@, ids@, e);
    let ghost group = places@.map_values(|i: usize| meshes@[i as int]);
    let mut instances: Vec<Instance> = Vec::new();
    let mut k: usize = 0;
    while k < places.len()
        invariant
            0 <= k <= places@.len(),
            forall|j: int| 0 <= j < places@.len() ==> (#[trigger] places@[j]) < meshes@.len(),
            forall|j: int| 0 <= j < meshes@.len() ==> elements@.contains(#[trigger] meshes@[j].element),
            ids@.len() == elements@.len(),
            pick == (|e: u32| pick_in(elements@, ids@, e)),
            group == places@.map_values(|i: usize| meshes@[i as int]),
            instances@.map_values(|i: Instance| i@) == instance_views(group.take(k as int), pick),
            instances@.len() == k,
        decreases places@.len() - k,
    {
        let m = &meshes[places[k]];
        assert(elements@.contains(meshes@[places@[k as int] as int].element));
        let id = pick_of(elements, ids, m.element);
        let ghost before = instances@;
        instances.push(Instance { element_index: m.element, pick_id: id, transform: identity() });
        assert(group.take(k + 1) =~= group.take(k as int).push(group[k as int]));
        assert(instances@.map_values(|i: Instance| i@) =~= instance_views(group.take(k as int), pick).push(
            InstanceView { element_index: m.element, pick_id: pick(m.element), transform: identity_bits() },
        ));
        assert(instance_views(group.take(k + 1), pick) =~= instance_views(group.take(k as int), pick).push(
            InstanceView { element_index: m.element, pick_id: pick(m.element), transform: identity_bits() },
        ));
        k += 1;
    }
    assert(group.take(places@.len() as int) =~= group);
    instances
}

// ------------------------------------------------------------ frames --

/// One frame, when `present`.
pub open spec fn frame_if(present: bool, frame: Seq<u8>) -> Seq<Seq<u8>> {
    if present {
        seq![frame]
    } else {
        Seq::empty()
    }
}

/// The frames of a drawing, in send order: the point batch, the curve
/// batch, each shared mesh's blob and instances (by increasing hash), the
/// inline mesh batch — or one clear frame when there is nothing to draw.
/// `pick` names each element's pick id.
pub open spec fn drawn_frames(d: Drawing, pick: spec_fn(u32) -> u32, target: FrameTarget) -> Seq<Seq<u8>> {
    let points = frame_if(
        d.points@.len() > 0,
        batch_bytes(header_for(target, FrameKind::Point), FrameKind::Point, point_batch(d.points@, pick)),
    );
    let curves = curve_batch(d.curves@, pick);
    let meshes = mesh_pass(d.meshes@, sorted_hashes(d.meshes@), pick, target);
    let all = points + frame_if(
        curves.elements.len() > 0,
        batch_bytes(header_for(target, FrameKind::Curve), FrameKind::Curve, curves),
    ) + meshes.0 + frame_if(
        meshes.1.elements.len() > 0,
        batch_bytes(header_for(target, FrameKind::Mesh), FrameKind::Mesh, meshes.1),
    );
    if all.len() == 0 {
        seq![header_bytes(header_for(target, FrameKind::Clear), FrameKind::Clear)]
    } else {
        all
    }
}

/// The elements a drawing draws (or would, for a refused solid).
pub open spec fn drawing_elements(d: Drawing) -> Set<u32> {
    Set::new(
        |e: u32|
            (exists|k: int| 0 <= k < d.points@.len() && #[trigger] d.points@[k].element == e) || (exists|k: int|
                0 <= k < d.curves@.len() && #[trigger] d.curves@[k].element == e) || (exists|k: int|
                0 <= k < d.meshes@.len() && #[trigger] d.meshes@[k].element == e) || d.refused@.contains(e),
    )
}

/// What the frame format can carry of a drawing: `u32` counts in every
/// batch and blob, and geometry in `xyz` triples.
pub open spec fn drawing_fits(d: Drawing) -> bool {
    &&& d.points@.len() <= u32::MAX
    &&& d.curves@.len() <= u32::MAX
    &&& d.meshes@.len() <= u32::MAX
    &&& curve_positions(d.curves@) / 3 <= u32::MAX
    &&& curve_indices(d.curves@) <= u32::MAX
    &&& forall|k: int| 0 <= k < d.curves@.len() ==> (#[trigger] d.curves@[k]).positions@.len() % 3 == 0
    &&& forall|k: int|
        0 <= k < d.meshes@.len() ==> {
            let m = #[trigger] d.meshes@[k];
            &&& m.positions@.len() % 3 == 0
            &&& m.positions@.len() / 3 <= u32::MAX
            &&& m.indices@.len() <= u32::MAX
        }
    &&& inline_sizes(d.meshes@, sorted_hashes(d.meshes@)).0 / 3 <= u32::MAX
    &&& inline_sizes(d.meshes@, sorted_hashes(d.meshes@)).1 <= u32::MAX
}

/// The frames of a drawing (see [`drawn_frames`]), each element picked by
/// the id `ids` holds for it in `elements`; every frame decodes.
pub fn draw_frames(d: &Drawing, target: FrameTarget, elements: &[u32], ids: &[u32]) -> (frames: Vec<Vec<u8>>)
    requires
        drawing_fits(*d),
        ids@.len() == elements@.len(),
        forall|e: u32| drawing_elements(*d).contains(e) ==> elements@.contains(e),
    ensures
        frames@.map_values(|f: Vec<u8>| f@) == drawn_frames(*d, |e: u32| pick_in(elements@, ids@, e), target),
        forall|k: int| 0 <= k < frames@.len() ==> decode_spec(#[trigger] frames@[k]@) is Ok,
{
    let ghost pick = |e: u32| pick_in(elements@, ids@, e);
    let ghost meshes = d.meshes@;
    let ghost hs = sorted_hashes(meshes);
    assert forall|k: int| 0 <= k < d.points@.len() implies elements@.contains(#[trigger] d.points@[k].element) by {
        assert(drawing_elements(*d).contains(d.points@[k].element));
    }
    assert forall|k: int| 0 <= k < d.curves@.len() implies elements@.contains(#[trigger] d.curves@[k].element) by {
        assert(drawing_elements(*d).contains(d.curves@[k].element));
    }
    assert forall|k: int| 0 <= k < meshes.len() implies elements@.contains(#[trigger] meshes[k].element) by {
        assert(drawing_elements(*d).contains(meshes[k].element));
    }
    let mut frames: Vec<Vec<u8>> = Vec::new();
    let ghost point_frames = frame_if(
        d.points@.len() > 0,
        batch_bytes(header_for(target, FrameKind::Point), FrameKind::Point, point_batch(d.points@, pick)),
    );
    if d.points.len() > 0 {
        let batch = build_point_batch(d.points.as_slice(), elements, ids);
        proof {
            lemma_batch_round_trip(header_for(target, FrameKind::Point), FrameKind::Point, batch@);
        }
        frames.push(encode_batch(&header_of(target, FrameKind::Point), FrameKind::Point, &batch));
    }
    assert(frames@.map_values(|f: Vec<u8>| f@) =~= point_frames);
    let curves = build_curve_batch(d.curves.as_slice(), elements, ids);
    let ghost curve_frames = frame_if(
        curves@.elements.len() > 0,
        batch_bytes(header_for(target, FrameKind::Curve), FrameKind::Curve, curves@),
    );
    if !curves.is_empty() {
        proof {
            lemma_batch_round_trip(header_for(target, FrameKind::Curve), FrameKind::Curve, curves@);
        }
        frames.push(encode_batch(&header_of(target, FrameKind::Curve), FrameKind::Curve, &curves));
    }
    let ghost lead = frames@.map_values(|f: Vec<u8>| f@);
    assert(lead =~= point_frames + curve_frames);
    let order = order_hashes(d.meshes.as_slice());
    let mut singles = Batch::new();
    proof {
        lemma_no_batch(singles@);
        assert(frames@.map_values(|f: Vec<u8>| f@) =~= lead + mesh_pass(meshes, hs.take(0), pick, target).0);
    }
    let mut j: usize = 0;
    while j < order.len()
        invariant
            0 <= j <= order@.len(),
            hash_views(order@) == hs,
            hs == sorted_hashes(meshes),
            meshes == d.meshes@,
            order@.len() <= meshes.len(),
            drawing_fits(*d),
            ids@.len() == elements@.len(),
            forall|k: int| 0 <= k < meshes.len() ==> elements@.contains(#[trigger] meshes[k].element),
            pick == (|e: u32| pick_in(elements@, ids@, e)),
            frames@.map_values(|f: Vec<u8>| f@) == lead + mesh_pass(meshes, hs.take(j as int), pick, target).0,
            singles@ == mesh_pass(meshes, hs.take(j as int), pick, target).1,
            singles@.positions.len() == inline_sizes(meshes, hs.take(j as int)).0,
            singles@.indices.len() == inline_sizes(meshes, hs.take(j as int)).1,
            singles@.elements.len() <= j,
            singles@.positions.len() == 3 * singles@.pick_ids.len(),
            forall|k: int| 0 <= k < frames@.len() ==> decode_spec(#[trigger] frames@[k]@) is Ok,
        decreases order@.len() - j,
    {
        let h = &order[j];
        let places = collect_group(d.meshes.as_slice(), h);
        let ghost group = group_of(meshes, h@);
        proof {
            assert(hs.take(j + 1).drop_last() =~= hs.take(j as int));
            assert(hs.take(j + 1).last() == h@);
            lemma_group_within(meshes, h@);
            lemma_inline_prefix(meshes, hs, j + 1);
            lemma_inline_prefix(meshes, hs, j as int);
            assert(places@.map_values(|i: usize| meshes[i as int]).len() == places@.len());
        }
        if places.len() == 1 {
            let m = &d.meshes[places[0]];
            assert(m == group[0]);
            assert(elements@.contains(meshes[places@[0] as int].element));
            let id = pick_of(elements, ids, m.element);
            proof {
                let k = places@[0] as int;
                assert(meshes[k] == *m);
            }
            singles.push_element(m.element, id, m.positions.as_slice(), m.indices.as_slice());
        } else if places.len() > 1 {
            let first = &d.meshes[places[0]];
            assert(first == group[0]);
            proof {
                let k = places@[0] as int;
                assert(meshes[k] == *first);
            }
            let blob = encode_mesh_blob(
                &header_of(target, FrameKind::MeshBlob),
                h,
                first.positions.as_slice(),
                first.indices.as_slice(),
            );
            let instances = group_instances(d.meshes.as_slice(), places.as_slice(), elements, ids);
            let frame = encode_instances(&header_of(target, FrameKind::Instances), h, instances.as_slice());
            proof {
                h.lemma_len();
                lemma_mesh_blob_round_trip(
                    header_for(target, FrameKind::MeshBlob),
                    h@,
                    first.positions@,
                    first.indices@,
                );
                let views = instances@.map_values(|i: Instance| i@);
                assert forall|k: int| 0 <= k < views.len() implies (#[trigger] views[k]).transform.len() == 12 by {
                    assert(views[k] == instances@[k]@);
                }
                lemma_instances_round_trip(header_for(target, FrameKind::Instances), h@, views);
            }
            let ghost before = frames@.map_values(|f: Vec<u8>| f@);
            frames.push(blob);
            frames.push(frame);
            proof {
                assert(frames@.map_values(|f: Vec<u8>| f@) =~= before.push(blob@).push(frame@));
            }
        }
        j += 1;
    }
    assert(hs.take(order@.len() as int) =~= hs);
    let ghost passed = mesh_pass(meshes, hs, pick, target);
    let ghost before_singles = frames@.map_values(|f: Vec<u8>| f@);
    if !singles.is_empty() {
        proof {
            lemma_batch_round_trip(header_for(target, FrameKind::Mesh), FrameKind::Mesh, singles@);
        }
        frames.push(encode_batch(&header_of(target, FrameKind::Mesh), FrameKind::Mesh, &singles));
    }
    let ghost all = point_frames + curve_frames + passed.0 + frame_if(
        passed.1.elements.len() > 0,
        batch_bytes(header_for(target, FrameKind::Mesh), FrameKind::Mesh, passed.1),
    );
    assert(frames@.map_values(|f: Vec<u8>| f@) =~= all);
    if frames.len() == 0 {
        proof {
            lemma_clear_round_trip(header_for(target, FrameKind::Clear));
        }
        frames.push(encode_clear(&header_of(target, FrameKind::Clear)));
        assert(frames@.map_values(|f: Vec<u8>| f@) =~= seq![
            header_bytes(header_for(target, FrameKind::Clear), FrameKind::Clear),
        ]);
    }
    frames
}

// ------------------------------------------------------------- picks --

/// Frames do not depend on the pick ids of elements they do not draw.
proof fn lemma_point_batch_congruent(points: Seq<DrawnPoint>, p1: spec_fn(u32) -> u32, p2: spec_fn(u32) -> u32)
    requires
        forall|k: int| 0 <= k < points.len() ==> p1(#[trigger] points[k].element) == p2(points[k].element),
    ensures
        point_batch(points, p1) == point_batch(points, p2),
    decreases points.len(),
{
    if points.len() > 0 {
        lemma_point_batch_congruent(points.drop_last(), p1, p2);
        assert(p1(points[points.len() - 1].element) == p2(points[points.len() - 1].element));
    }
}

proof fn lemma_curve_batch_congruent(curves: Seq<DrawnCurve>, p1: spec_fn(u32) -> u32, p2: spec_fn(u32) -> u32)
    requires
        forall|k: int| 0 <= k < curves.len() ==> p1(#[trigger] curves[k].element) == p2(curves[k].element),
    ensures
        curve_batch(curves, p1) == curve_batch(curves, p2),
    decreases curves.len(),
{
    if curves.len() > 0 {
        lemma_curve_batch_congruent(curves.drop_last(), p1, p2);
        assert(p1(curves[curves.len() - 1].element) == p2(curves[curves.len() - 1].element));
    }
}

proof fn lemma_mesh_pass_congruent(
    meshes: Seq<DrawnMesh>,
    hs: Seq<Seq<u8>>,
    p1: spec_fn(u32) -> u32,
    p2: spec_fn(u32) -> u32,
    target: FrameTarget,
)
    requires
        forall|k: int| 0 <= k < meshes.len() ==> p1(#[trigger] meshes[k].element) == p2(meshes[k].element),
    ensures
        mesh_pass(meshes, hs, p1, target) == mesh_pass(meshes, hs, p2, target),
    decreases hs.len(),
{
    if hs.len() > 0 {
        lemma_mesh_pass_congruent(meshes, hs.drop_last(), p1, p2, target);
        let g = group_of(meshes, hs.last());
        lemma_group_within(meshes, hs.last());
        assert forall|k: int| 0 <= k < g.len() implies p1(#[trigger] g[k].element) == p2(g[k].element) by {
            assert(meshes.contains(g[k]));
            let p = choose|p: int| 0 <= p < meshes.len() && meshes[p] == g[k];
            assert(p1(meshes[p].element) == p2(meshes[p].element));
        }
        assert(instance_views(g, p1) =~= instance_views(g, p2));
    }
}

/// The frames of a drawing depend on its elements' pick ids only.
pub proof fn lemma_drawn_frames_congruent(d: Drawing, p1: spec_fn(u32) -> u32, p2: spec_fn(u32) -> u32, target: FrameTarget)
    requires
        forall|e: u32| drawing_elements(d).contains(e) ==> p1(e) == p2(e),
    ensures
        drawn_frames(d, p1, target) == drawn_frames(d, p2, target),
{
    assert forall|k: int| 0 <= k < d.points@.len() implies p1(#[trigger] d.points@[k].element) == p2(
        d.points@[k].element,
    ) by {
        assert(drawing_elements(d).contains(d.points@[k].element));
    }
    assert forall|k: int| 0 <= k < d.curves@.len() implies p1(#[trigger] d.curves@[k].element) == p2(
        d.curves@[k].element,
    ) by {
        assert(drawing_elements(d).contains(d.curves@[k].element));
    }
    assert forall|k: int| 0 <= k < d.meshes@.len() implies p1(#[trigger] d.meshes@[k].element) == p2(
        d.meshes@[k].element,
    ) by {
        assert(drawing_elements(d).contains(d.meshes@[k].element));
    }
    lemma_point_batch_congruent(d.points@, p1, p2);
    lemma_curve_batch_congruent(d.curves@, p1, p2);
    lemma_mesh_pass_congruent(d.meshes@, sorted_hashes(d.meshes@), p1, p2, target);
}

/// Strictly increasing.
pub open spec fn increasing(elements: Seq<u32>) -> bool {
    forall|i: int, j: int| 0 <= i < j < elements.len() ==> #[trigger] elements[i] < #[trigger] elements[j]
}

/// The drawing's elements in increasing order, each once — the one list
/// the pick ids are asked for.
pub open spec fn sorted_elements(d: Drawing) -> Seq<u32> {
    choose|es: Seq<u32>| increasing(es) && es.to_set() == drawing_elements(d)
}

/// Two increasing sequences of the same elements are the same sequence.
pub proof fn lemma_increasing_unique(a: Seq<u32>, b: Seq<u32>)
    requires
        increasing(a),
        increasing(b),
        a.to_set() == b.to_set(),
    ensures
        a == b,
    decreases a.len(),
{
    if a.len() == 0 {
        if b.len() > 0 {
            assert(b.to_set().contains(b[0]));
        }
        assert(a =~= b);
    } else {
        assert(a.to_set().contains(a[0]));
        assert(b.to_set().contains(b[0]));
        let i = choose|i: int| 0 <= i < a.len() && a[i] == b[0];
        let j = choose|j: int| 0 <= j < b.len() && b[j] == a[0];
        if j > 0 {
            assert(b[0] < b[j]);
            if i > 0 {
                assert(a[0] < a[i]);
            }
        }
        let ra = a.drop_first();
        let rb = b.drop_first();
        assert forall|x: u32| ra.to_set().contains(x) implies rb.to_set().contains(x) by {
            let p = choose|p: int| 0 <= p < ra.len() && ra[p] == x;
            assert(a[p + 1] == x);
            assert(a.to_set().contains(x));
            let q = choose|q: int| 0 <= q < b.len() && b[q] == x;
            if q == 0 {
                assert(a[0] < a[p + 1]);
            }
            assert(rb[q - 1] == x);
        }
        assert forall|x: u32| rb.to_set().contains(x) implies ra.to_set().contains(x) by {
            let p = choose|p: int| 0 <= p < rb.len() && rb[p] == x;
            assert(b[p + 1] == x);
            assert(b.to_set().contains(x));
            let q = choose|q: int| 0 <= q < a.len() && a[q] == x;
            if q == 0 {
                assert(b[0] < b[p + 1]);
            }
            assert(ra[q - 1] == x);
        }
        assert(ra.to_set() =~= rb.to_set());
        lemma_increasing_unique(ra, rb);
        assert(a =~= seq![a[0]] + ra);
        assert(b =~= seq![b[0]] + rb);
    }
}

/// `sorted` with `e` put in its place (if not there yet).
fn insert_sorted(sorted: &mut Vec<u32>, e: u32)
    requires
        increasing(old(sorted)@),
    ensures
        increasing(final(sorted)@),
        final(sorted)@.to_set() == old(sorted)@.to_set().insert(e),
{
    let ghost before = sorted@;
    let mut j: usize = 0;
    while j < sorted.len() && sorted[j] < e
        invariant
            0 <= j <= sorted@.len(),
            sorted@ == before,
            forall|i: int| 0 <= i < j ==> #[trigger] before[i] < e,
        decreases sorted@.len() - j,
    {
        j += 1;
    }
    if j < sorted.len() && sorted[j] == e {
        assert(before.to_set().contains(e)) by {
            assert(before[j as int] == e);
        }
        assert(before.to_set().insert(e) =~= before.to_set());
    } else {
        sorted.insert(j, e);
        proof {
            let now = sorted@;
            assert(now =~= before.insert(j as int, e));
            assert forall|a: int, b: int| 0 <= a < b < now.len() implies #[trigger] now[a] < #[trigger] now[b] by {
                if b < j {
                    assert(before[a] < before[b]);
                } else if b == j {
                    assert(before[a] < e);
                } else if a < j {
                    assert(before[a] < e);
                    if b - 1 > j {
                        assert(before[j as int] < before[b - 1]);
                    }
                } else if a == j {
                    if b - 1 > j {
                        assert(before[j as int] < before[b - 1]);
                    }
                } else {
                    assert(before[a - 1] < before[b - 1]);
                }
            }
            assert forall|x: u32| now.to_set().contains(x) implies before.to_set().insert(e).contains(x) by {
                let p = choose|p: int| 0 <= p < now.len() && now[p] == x;
                if p < j {
                    assert(before[p] == x);
                } else if p > j {
                    assert(before[p - 1] == x);
                }
            }
            assert forall|x: u32| before.to_set().insert(e).contains(x) implies now.to_set().contains(x) by {
                if x == e {
                    assert(now[j as int] == x);
                } else {
                    let p = choose|p: int| 0 <= p < before.len() && before[p] == x;
                    if p < j {
                        assert(now[p] == x);
                    } else {
                        assert(now[p + 1] == x);
                    }
                }
            }
            assert(now.to_set() =~= before.to_set().insert(e));
        }
    }
}

/// The drawing's elements in increasing order, each once.
pub fn drawn_elements(d: &Drawing) -> (elements: Vec<u32>)
    ensures
        elements@ == sorted_elements(*d),
        increasing(elements@),
        elements@.to_set() == drawing_elements(*d),
{
    let mut sorted: Vec<u32> = Vec::new();
    let ghost points = d.points@.map_values(|p: DrawnPoint| p.element);
    let ghost curves = d.curves@.map_values(|c: DrawnCurve| c.element);
    let ghost meshes = d.meshes@.map_values(|m: DrawnMesh| m.element);
    assert(sorted@.to_set() =~= Set::<u32>::empty());
    let mut k: usize = 0;
    while k < d.points.len()
        invariant
            0 <= k <= d.points@.len(),
            points == d.points@.map_values(|p: DrawnPoint| p.element),
            increasing(sorted@),
            sorted@.to_set() == points.take(k as int).to_set(),
        decreases d.points@.len() - k,
    {
        insert_sorted(&mut sorted, d.points[k].element);
        assert(points.take(k + 1) =~= points.take(k as int).push(points[k as int]));
        proof {
            points.take(k as int).lemma_push_to_set_commute(points[k as int]);
        }
        k += 1;
    }
    assert(points.take(points.len() as int) =~= points);
    assert(points.to_set() + curves.take(0).to_set() =~= points.to_set());
    let mut k: usize = 0;
    while k < d.curves.len()
        invariant
            0 <= k <= d.curves@.len(),
            points == d.points@.map_values(|p: DrawnPoint| p.element),
            curves == d.curves@.map_values(|c: DrawnCurve| c.element),
            increasing(sorted@),
            sorted@.to_set() == points.to_set() + curves.take(k as int).to_set(),
        decreases d.curves@.len() - k,
    {
        insert_sorted(&mut sorted, d.curves[k].element);
        assert(curves.take(k + 1) =~= curves.take(k as int).push(curves[k as int]));
        proof {
            curves.take(k as int).lemma_push_to_set_commute(curves[k as int]);
            assert(points.to_set() + curves.take(k + 1).to_set() =~= (points.to_set() + curves.take(
                k as int,
            ).to_set()).insert(curves[k as int]));
        }
        k += 1;
    }
    assert(curves.take(curves.len() as int) =~= curves);
    assert(points.to_set() + curves.to_set() + meshes.take(0).to_set() =~= points.to_set() + curves.to_set());
    k = 0;
    while k < d.meshes.len()
        invariant
            0 <= k <= d.meshes@.len(),
            points == d.points@.map_values(|p: DrawnPoint| p.element),
            curves == d.curves@.map_values(|c: DrawnCurve| c.element),
            meshes == d.meshes@.map_values(|m: DrawnMesh| m.element),
            increasing(sorted@),
            sorted@.to_set() == points.to_set() + curves.to_set() + meshes.take(k as int).to_set(),
        decreases d.meshes@.len() - k,
    {
        insert_sorted(&mut sorted, d.meshes[k].element);
        assert(meshes.take(k + 1) =~= meshes.take(k as int).push(meshes[k as int]));
        proof {
            meshes.take(k as int).lemma_push_to_set_commute(meshes[k as int]);
            assert(points.to_set() + curves.to_set() + meshes.take(k + 1).to_set() =~= (points.to_set()
                + curves.to_set() + meshes.take(k as int).to_set()).insert(meshes[k as int]));
        }
        k += 1;
    }
    assert(meshes.take(meshes.len() as int) =~= meshes);
    assert(points.to_set() + curves.to_set() + meshes.to_set() + d.refused@.take(0).to_set() =~= points.to_set()
        + curves.to_set() + meshes.to_set());
    k = 0;
    while k < d.refused.len()
        invariant
            0 <= k <= d.refused@.len(),
            points == d.points@.map_values(|p: DrawnPoint| p.element),
            curves == d.curves@.map_values(|c: DrawnCurve| c.element),
            meshes == d.meshes@.map_values(|m: DrawnMesh| m.element),
            increasing(sorted@),
            sorted@.to_set() == points.to_set() + curves.to_set() + meshes.to_set() + d.refused@.take(
                k as int,
            ).to_set(),
        decreases d.refused@.len() - k,
    {
        insert_sorted(&mut sorted, d.refused[k]);
        assert(d.refused@.take(k + 1) =~= d.refused@.take(k as int).push(d.refused@[k as int]));
        proof {
            d.refused@.take(k as int).lemma_push_to_set_commute(d.refused@[k as int]);
            assert(points.to_set() + curves.to_set() + meshes.to_set() + d.refused@.take(k + 1).to_set()
                =~= (points.to_set() + curves.to_set() + meshes.to_set() + d.refused@.take(
                k as int,
            ).to_set()).insert(d.refused@[k as int]));
        }
        k += 1;
    }
    proof {
        assert(d.refused@.take(d.refused@.len() as int) =~= d.refused@);
        assert forall|e: u32| sorted@.to_set().contains(e) <==> drawing_elements(*d).contains(e) by {
            if points.to_set().contains(e) {
                let p = choose|p: int| 0 <= p < points.len() && points[p] == e;
                assert(d.points@[p].element == e);
            }
            if curves.to_set().contains(e) {
                let p = choose|p: int| 0 <= p < curves.len() && curves[p] == e;
                assert(d.curves@[p].element == e);
            }
            if meshes.to_set().contains(e) {
                let p = choose|p: int| 0 <= p < meshes.len() && meshes[p] == e;
                assert(d.meshes@[p].element == e);
            }
            if exists|p: int| 0 <= p < d.points@.len() && #[trigger] d.points@[p].element == e {
                let p = choose|p: int| 0 <= p < d.points@.len() && #[trigger] d.points@[p].element == e;
                assert(points[p] == e);
            }
            if exists|p: int| 0 <= p < d.curves@.len() && #[trigger] d.curves@[p].element == e {
                let p = choose|p: int| 0 <= p < d.curves@.len() && #[trigger] d.curves@[p].element == e;
                assert(curves[p] == e);
            }
            if exists|p: int| 0 <= p < d.meshes@.len() && #[trigger] d.meshes@[p].element == e {
                let p = choose|p: int| 0 <= p < d.meshes@.len() && #[trigger] d.meshes@[p].element == e;
                assert(meshes[p] == e);
            }
        }
        assert(sorted@.to_set() =~= drawing_elements(*d));
        lemma_increasing_unique(sorted@, sorted_elements(*d));
    }
    sorted
}

/// The pick ids a table holds for one output's elements.
pub open spec fn table_picks(triples: Seq<(u32, u32, u32)>, node: u32, output: u32) -> spec_fn(u32) -> u32 {
    |e: u32| id_in(triples, (node, output, e))
}

/// The display frames of one output's drawing (see [`drawn_frames`]):
/// the pick ids of every element it draws are asked of `table` once, up
/// front, in increasing element order; each element is drawn with its id;
/// and every frame sent decodes.
pub fn frames_for_drawing(d: &Drawing, target: FrameTarget, table: &mut PickTable) -> (frames: Vec<Vec<u8>>)
    requires
        drawing_fits(*d),
        old(table).wf(),
        old(table).triples().len() + fresh_triples(
            old(table).triples(),
            target.node,
            target.output,
            sorted_elements(*d),
        ) <= u32::MAX,
    ensures
        final(table).wf(),
        final(table).encoded() == old(table).encoded().wrapping_add(1),
        final(table).triples() == allocated_after(
            old(table).triples(),
            target.node,
            target.output,
            sorted_elements(*d),
        ),
        frames@.map_values(|f: Vec<u8>| f@) == drawn_frames(
            *d,
            table_picks(final(table).triples(), target.node, target.output),
            target,
        ),
        forall|k: int| 0 <= k < frames@.len() ==> decode_spec(#[trigger] frames@[k]@) is Ok,
{
    let elements = drawn_elements(d);
    let ids = table.ids_for(target.node, target.output, elements.as_slice());
    proof {
        assert forall|e: u32| drawing_elements(*d).contains(e) implies elements@.contains(e) by {
            assert(elements@.to_set().contains(e));
        }
    }
    let frames = draw_frames(d, target, elements.as_slice(), ids.as_slice());
    proof {
        let triples = table.triples();
        assert forall|e: u32| drawing_elements(*d).contains(e) implies pick_in(elements@, ids@, e) == table_picks(
            triples,
            target.node,
            target.output,
        )(e) by {
            assert(elements@.to_set().contains(e));
            elements@.index_of_first_ensures(e);
            let i = elements@.index_of_first(e)->0;
            assert(ids@[i] == id_in(triples, (target.node, target.output, elements@[i])));
        }
        lemma_drawn_frames_congruent(
            *d,
            |e: u32| pick_in(elements@, ids@, e),
            table_picks(triples, target.node, target.output),
            target,
        );
    }
    frames
}

// ------------------------------------------------------------ counts --

/// A kind of frame an output's drawing emitted.
#[derive(Debug, Clone, Copy, PartialEq, Eq, Structural)]
pub enum DrawnKind {
    Point,
    Curve,
    Instances,
    Mesh,
    Clear,
}

impl DrawnKind {
    /// The kind's name in the display report.
    pub fn name(self) -> (name: &'static str)
        ensures
            name@ == drawn_kind_name(self),
    {
        match self {
            DrawnKind::Point => "point",
            DrawnKind::Curve => "curve",
            DrawnKind::Instances => "instances",
            DrawnKind::Mesh => "mesh",
            DrawnKind::Clear => "clear",
        }
    }
}

/// A kind's name in the display report.
pub open spec fn drawn_kind_name(kind: DrawnKind) -> Seq<char> {
    match kind {
        DrawnKind::Point => "point"@,
        DrawnKind::Curve => "curve"@,
        DrawnKind::Instances => "instances"@,
        DrawnKind::Mesh => "mesh"@,
        DrawnKind::Clear => "clear"@,
    }
}

/// What one output's frames hold.
#[derive(Debug, Clone, PartialEq, Eq)]
pub struct DrawCounts {
    /// Frame kinds emitted, in order, each once.
    pub kinds: Vec<DrawnKind>,
    /// Elements drawn (an instanced element counts once per instance).
    pub elements: usize,
    /// Vertices transmitted (a blob's once).
    pub vertices: usize,
    /// Triangles drawn (a blob's once per instance).
    pub triangles: usize,
    /// Line segments.
    pub segments: usize,
    /// Points.
    pub points: usize,
    /// Elements drawn from a shared blob.
    pub instanced: usize,
}

/// Counts as plain integers: elements, vertices, triangles, segments,
/// instanced.
pub struct Counted {
    pub elements: nat,
    pub vertices: nat,
    pub triangles: nat,
    pub segments: nat,
    pub instanced: nat,
}

/// Nothing counted.
pub open spec fn none_counted() -> Counted {
    Counted { elements: 0, vertices: 0, triangles: 0, segments: 0, instanced: 0 }
}

/// The curves' counts: each curve with segments is one element.
pub open spec fn curve_counted(curves: Seq<DrawnCurve>) -> Counted
    decreases curves.len(),
{
    if curves.len() == 0 {
        none_counted()
    } else {
        let t = curve_counted(curves.drop_last());
        let c = curves.last();
        if c.positions@.len() == 0 {
            t
        } else {
            Counted {
                elements: t.elements + 1,
                vertices: t.vertices + c.positions@.len() / 3,
                segments: t.segments + c.indices@.len() / 2,
                ..t
            }
        }
    }
}

/// The meshes' counts after the hashes `hs`: a single draws inline; a
/// shared blob sends its vertices once and draws its triangles once per
/// instance.
pub open spec fn mesh_counted(meshes: Seq<DrawnMesh>, hs: Seq<Seq<u8>>) -> Counted
    decreases hs.len(),
{
    if hs.len() == 0 {
        none_counted()
    } else {
        let t = mesh_counted(meshes, hs.drop_last());
        let g = group_of(meshes, hs.last());
        if g.len() == 1 {
            Counted {
                elements: t.elements + 1,
                vertices: t.vertices + g[0].positions@.len() / 3,
                triangles: t.triangles + g[0].indices@.len() / 3,
                ..t
            }
        } else if g.len() > 1 {
            Counted {
                elements: t.elements + g.len(),
                vertices: t.vertices + g[0].positions@.len() / 3,
                triangles: t.triangles + (g[0].indices@.len() / 3) * g.len(),
                instanced: t.instanced + g.len(),
                ..t
            }
        } else {
            t
        }
    }
}

/// Some hash in `hs` is drawn by several elements.
pub open spec fn any_shared(meshes: Seq<DrawnMesh>, hs: Seq<Seq<u8>>) -> bool {
    exists|k: int| 0 <= k < hs.len() && group_of(meshes, #[trigger] hs[k]).len() > 1
}

/// Some hash in `hs` is drawn by one element only.
pub open spec fn any_single(meshes: Seq<DrawnMesh>, hs: Seq<Seq<u8>>) -> bool {
    exists|k: int| 0 <= k < hs.len() && group_of(meshes, #[trigger] hs[k]).len() == 1
}

/// Some curve has segments.
pub open spec fn any_segments(curves: Seq<DrawnCurve>) -> bool {
    exists|k: int| 0 <= k < curves.len() && (#[trigger] curves[k]).positions@.len() > 0
}

/// The kinds a drawing's frames have, in order.
pub open spec fn drawn_kinds(d: Drawing) -> Seq<DrawnKind> {
    let hs = sorted_hashes(d.meshes@);
    let kinds = (if d.points@.len() > 0 {
        seq![DrawnKind::Point]
    } else {
        Seq::empty()
    }) + (if any_segments(d.curves@) {
        seq![DrawnKind::Curve]
    } else {
        Seq::empty()
    }) + (if any_shared(d.meshes@, hs) {
        seq![DrawnKind::Instances]
    } else {
        Seq::empty()
    }) + (if any_single(d.meshes@, hs) {
        seq![DrawnKind::Mesh]
    } else {
        Seq::empty()
    });
    if kinds.len() == 0 {
        seq![DrawnKind::Clear]
    } else {
        kinds
    }
}

/// The whole drawing's counts.
pub open spec fn drawing_counted(d: Drawing) -> Counted {
    let c = curve_counted(d.curves@);
    let m = mesh_counted(d.meshes@, sorted_hashes(d.meshes@));
    Counted {
        elements: d.points@.len() + c.elements + m.elements,
        vertices: d.points@.len() + c.vertices + m.vertices,
        triangles: m.triangles,
        segments: c.segments,
        instanced: m.instanced,
    }
}

/// Every count fits a `usize`.
pub open spec fn counted_fits(t: Counted) -> bool {
    t.elements <= usize::MAX && t.vertices <= usize::MAX && t.triangles <= usize::MAX && t.segments
        <= usize::MAX && t.instanced <= usize::MAX
}

/// `a` counts no more than `b`, count by count.
pub open spec fn counted_within(a: Counted, b: Counted) -> bool {
    a.elements <= b.elements && a.vertices <= b.vertices && a.triangles <= b.triangles && a.segments
        <= b.segments && a.instanced <= b.instanced
}

proof fn lemma_curve_counted_prefix(curves: Seq<DrawnCurve>, k: int)
    requires
        0 <= k <= curves.len(),
    ensures
        counted_within(curve_counted(curves.take(k)), curve_counted(curves)),
        any_segments(curves.take(k)) ==> any_segments(curves),
    decreases curves.len() - k,
{
    if k < curves.len() {
        lemma_curve_counted_prefix(curves, k + 1);
        assert(curves.take(k + 1).drop_last() =~= curves.take(k));
        if any_segments(curves.take(k)) {
            let j = choose|j: int| 0 <= j < k && (#[trigger] curves.take(k)[j]).positions@.len() > 0;
            assert(curves.take(k + 1)[j] == curves.take(k)[j]);
        }
    } else {
        assert(curves.take(k) =~= curves);
    }
}

proof fn lemma_mesh_counted_prefix(meshes: Seq<DrawnMesh>, hs: Seq<Seq<u8>>, k: int)
    requires
        0 <= k <= hs.len(),
    ensures
        counted_within(mesh_counted(meshes, hs.take(k)), mesh_counted(meshes, hs)),
    decreases hs.len() - k,
{
    if k < hs.len() {
        lemma_mesh_counted_prefix(meshes, hs, k + 1);
        assert(hs.take(k + 1).drop_last() =~= hs.take(k));
    } else {
        assert(hs.take(k) =~= hs);
    }
}

/// What a drawing's frames will hold (see [`drawn_kinds`] and
/// [`drawing_counted`]).
pub fn drawing_counts(d: &Drawing) -> (counts: DrawCounts)
    requires
        counted_fits(drawing_counted(*d)),
    ensures
        counts.kinds@ == drawn_kinds(*d),
        counts.points == d.points@.len(),
        counts.elements == drawing_counted(*d).elements,
        counts.vertices == drawing_counted(*d).vertices,
        counts.triangles == drawing_counted(*d).triangles,
        counts.segments == drawing_counted(*d).segments,
        counts.instanced == drawing_counted(*d).instanced,
{
    let ghost total = drawing_counted(*d);
    let ghost curves = d.curves@;
    let ghost meshes = d.meshes@;
    let ghost hs = sorted_hashes(meshes);
    let points = d.points.len();
    let mut elements: usize = points;
    let mut vertices: usize = points;
    let mut segments: usize = 0;
    let mut drew_segments = false;
    let mut k: usize = 0;
    while k < d.curves.len()
        invariant
            0 <= k <= curves.len(),
            curves == d.curves@,
            points == d.points@.len(),
            total == drawing_counted(*d),
            counted_fits(total),
            elements == points + curve_counted(curves.take(k as int)).elements,
            vertices == points + curve_counted(curves.take(k as int)).vertices,
            segments == curve_counted(curves.take(k as int)).segments,
            drew_segments == any_segments(curves.take(k as int)),
        decreases curves.len() - k,
    {
        let c = &d.curves[k];
        proof {
            assert(curves.take(k + 1).drop_last() =~= curves.take(k as int));
            lemma_curve_counted_prefix(curves, k + 1);
            lemma_mesh_counted_prefix(meshes, hs, hs.len() as int);
            assert(hs.take(hs.len() as int) =~= hs);
        }
        if c.positions.len() > 0 {
            elements = elements + 1;
            vertices = vertices + c.positions.len() / 3;
            segments = segments + c.indices.len() / 2;
            drew_segments = true;
            assert(curves.take(k + 1)[k as int] == curves[k as int]);
        } else {
            assert(any_segments(curves.take(k + 1)) == any_segments(curves.take(k as int))) by {
                if any_segments(curves.take(k + 1)) {
                    let j = choose|j: int| 0 <= j < k + 1 && (#[trigger] curves.take(k + 1)[j]).positions@.len() > 0;
                    assert(curves.take(k as int)[j] == curves.take(k + 1)[j]);
                }
                if any_segments(curves.take(k as int)) {
                    let j = choose|j: int| 0 <= j < k && (#[trigger] curves.take(k as int)[j]).positions@.len() > 0;
                    assert(curves.take(k + 1)[j] == curves.take(k as int)[j]);
                }
            }
        }
        k += 1;
    }
    assert(curves.take(curves.len() as int) =~= curves);
    let order = order_hashes(d.meshes.as_slice());
    let mut triangles: usize = 0;
    let mut instanced: usize = 0;
    let mut shared = false;
    let mut single = false;
    let ghost curve_part = curve_counted(curves);
    assert(mesh_counted(meshes, hs.take(0)) == none_counted());
    let mut j: usize = 0;
    while j < order.len()
        invariant
            0 <= j <= order@.len(),
            hash_views(order@) == hs,
            hs == sorted_hashes(meshes),
            meshes == d.meshes@,
            total == drawing_counted(*d),
            counted_fits(total),
            curve_part == curve_counted(curves),
            curves == d.curves@,
            points == d.points@.len(),
            elements == points + curve_part.elements + mesh_counted(meshes, hs.take(j as int)).elements,
            vertices == points + curve_part.vertices + mesh_counted(meshes, hs.take(j as int)).vertices,
            triangles == mesh_counted(meshes, hs.take(j as int)).triangles,
            instanced == mesh_counted(meshes, hs.take(j as int)).instanced,
            shared == any_shared(meshes, hs.take(j as int)),
            single == any_single(meshes, hs.take(j as int)),
        decreases order@.len() - j,
    {
        let h = &order[j];
        let places = collect_group(d.meshes.as_slice(), h);
        let ghost group = group_of(meshes, h@);
        proof {
            assert(hs.take(j + 1).drop_last() =~= hs.take(j as int));
            assert(hs.take(j + 1).last() == h@);
            lemma_mesh_counted_prefix(meshes, hs, j + 1);
            assert(hs.take(hs.len() as int) =~= hs);
            assert(places@.map_values(|i: usize| meshes[i as int]).len() == places@.len());
            assert(hs.take(j + 1)[j as int] == h@);
            assert forall|i: int| 0 <= i < j implies #[trigger] hs.take(j + 1)[i] == hs.take(j as int)[i] by {}
        }
        if places.len() >= 1 {
            let first = &d.meshes[places[0]];
            assert(*first == group[0]);
            let n = places.len();
            vertices = vertices + first.positions.len() / 3;
            if n == 1 {
                elements = elements + 1;
                triangles = triangles + first.indices.len() / 3;
                single = true;
            } else {
                elements = elements + n;
                proof {
                    assert((first.indices@.len() / 3) * n <= mesh_counted(meshes, hs.take(j + 1)).triangles);
                }
                triangles = triangles + (first.indices.len() / 3) * n;
                instanced = instanced + n;
                shared = true;
            }
        }
        proof {
            assert(shared == any_shared(meshes, hs.take(j + 1))) by {
                if any_shared(meshes, hs.take(j + 1)) && group.len() <= 1 {
                    let i = choose|i: int| 0 <= i < j + 1 && group_of(meshes, #[trigger] hs.take(j + 1)[i]).len() > 1;
                    assert(hs.take(j as int)[i] == hs.take(j + 1)[i]);
                }
                if any_shared(meshes, hs.take(j as int)) {
                    let i = choose|i: int| 0 <= i < j && group_of(meshes, #[trigger] hs.take(j as int)[i]).len() > 1;
                    assert(hs.take(j + 1)[i] == hs.take(j as int)[i]);
                }
            }
            assert(single == any_single(meshes, hs.take(j + 1))) by {
                if any_single(meshes, hs.take(j + 1)) && group.len() != 1 {
                    let i = choose|i: int| 0 <= i < j + 1 && group_of(meshes, #[trigger] hs.take(j + 1)[i]).len() == 1;
                    assert(hs.take(j as int)[i] == hs.take(j + 1)[i]);
                }
                if any_single(meshes, hs.take(j as int)) {
                    let i = choose|i: int| 0 <= i < j && group_of(meshes, #[trigger] hs.take(j as int)[i]).len() == 1;
                    assert(hs.take(j + 1)[i] == hs.take(j as int)[i]);
                }
            }
        }
        j += 1;
    }
    assert(hs.take(order@.len() as int) =~= hs);
    let mut kinds: Vec<DrawnKind> = Vec::new();
    if points > 0 {
        kinds.push(DrawnKind::Point);
    }
    if drew_segments {
        kinds.push(DrawnKind::Curve);
    }
    if shared {
        kinds.push(DrawnKind::Instances);
    }
    if single {
        kinds.push(DrawnKind::Mesh);
    }
    if kinds.len() == 0 {
        kinds.push(DrawnKind::Clear);
    }
    proof {
        let expected = drawn_kinds(*d);
        let parts = (if d.points@.len() > 0 {
            seq![DrawnKind::Point]
        } else {
            Seq::empty()
        }) + (if any_segments(curves) {
            seq![DrawnKind::Curve]
        } else {
            Seq::empty()
        }) + (if any_shared(meshes, hs) {
            seq![DrawnKind::Instances]
        } else {
            Seq::empty()
        }) + (if any_single(meshes, hs) {
            seq![DrawnKind::Mesh]
        } else {
            Seq::empty()
        });
        if parts.len() == 0 {
            assert(kinds@ =~= seq![DrawnKind::Clear]);
        } else {
            assert(kinds@ =~= parts);
        }
    }
    DrawCounts { kinds, elements, vertices, triangles, segments, points, instanced }
}

// ------------------------------------------------------ distinct solids --

/// `i` is where `hashes[i]` first occurs.
pub open spec fn first_occurrence(hashes: Seq<ValueHash>, i: int) -> bool {
    0 <= i < hashes.len() && forall|j: int| 0 <= j < i ==> hashes[j]@ != (#[trigger] hashes[i])@
}

/// Some place of `places` holds hash `h`.
pub open spec fn holds_hash(hashes: Seq<ValueHash>, places: Seq<usize>, h: Seq<u8>) -> bool {
    exists|k: int| 0 <= k < places.len() && hashes[#[trigger] places[k] as int]@ == h
}

/// The places of the distinct hashes of `hashes`, each at its first
/// occurrence, in increasing hash order — the working set a display pass
/// warms, one entry per distinct solid.
pub fn distinct_hash_places(hashes: &[ValueHash]) -> (places: Vec<usize>)
    ensures
        strictly_sorted(places@.map_values(|i: usize| hashes@[i as int]@)),
        forall|k: int| 0 <= k < places@.len() ==> first_occurrence(hashes@, #[trigger] places@[k] as int),
        forall|j: int| 0 <= j < hashes@.len() ==> holds_hash(hashes@, places@, #[trigger] hashes@[j]@),
{
    let mut places: Vec<usize> = Vec::new();
    let mut n: usize = 0;
    while n < hashes.len()
        invariant
            0 <= n <= hashes@.len(),
            forall|k: int| 0 <= k < places@.len() ==> (#[trigger] places@[k]) < n,
            strictly_sorted(places@.map_values(|i: usize| hashes@[i as int]@)),
            forall|k: int| 0 <= k < places@.len() ==> first_occurrence(hashes@, #[trigger] places@[k] as int),
            forall|j: int| 0 <= j < n ==> holds_hash(hashes@, places@, #[trigger] hashes@[j]@),
        decreases hashes@.len() - n,
    {
        let h = &hashes[n];
        let ghost views = places@.map_values(|i: usize| hashes@[i as int]@);
        let mut j: usize = 0;
        while j < places.len() && hash_before(&hashes[places[j]], h)
            invariant
                0 <= j <= places@.len(),
                views == places@.map_values(|i: usize| hashes@[i as int]@),
                forall|k: int| 0 <= k < places@.len() ==> (#[trigger] places@[k]) < n,
                n < hashes@.len(),
                *h == hashes@[n as int],
                forall|i: int| 0 <= i < j ==> bytes_less(#[trigger] views[i], h@),
            decreases places@.len() - j,
        {
            j += 1;
        }
        if j < places.len() && hashes[places[j]].same(h) {
            assert(views[j as int] == h@);
            assert(hashes@[places@[j as int] as int]@ == h@);
        } else {
            proof {
                // `h` is new: no earlier hash equals it.
                assert forall|m: int| 0 <= m < n implies hashes@[m]@ != h@ by {
                    if hashes@[m]@ == h@ {
                        assert(holds_hash(hashes@, places@, hashes@[m]@));
                        let k = choose|k: int| 0 <= k < places@.len() && hashes@[#[trigger] places@[k] as int]@ == hashes@[m]@;
                        assert(views[k] == h@);
                        if k < j {
                            assert(bytes_less(views[k], h@));
                            lemma_bytes_less_irreflexive(h@);
                        } else if k == j {
                        } else {
                            lemma_bytes_less_total(views[j as int], h@);
                            assert(bytes_less(views[j as int], views[k]));
                            lemma_bytes_less_irreflexive(h@);
                        }
                    }
                }
                if j < views.len() {
                    lemma_bytes_less_total(views[j as int], h@);
                }
            }
            let ghost old_places = places@;
            places.insert(j, n);
            assert(places@[j as int] == n);
            proof {
                let nv = places@.map_values(|i: usize| hashes@[i as int]@);
                assert(places@ =~= old_places.insert(j as int, n));
                assert(nv =~= views.insert(j as int, h@));
                assert forall|a: int, b: int| 0 <= a < b < nv.len() implies bytes_less(
                    #[trigger] nv[a],
                    #[trigger] nv[b],
                ) by {
                    if b < j {
                        assert(bytes_less(views[a], views[b]));
                    } else if b == j {
                        assert(bytes_less(views[a], h@));
                    } else if a < j {
                        assert(bytes_less(views[a], h@));
                        assert(bytes_less(h@, views[j as int]));
                        if b - 1 > j {
                            assert(bytes_less(views[j as int], views[b - 1]));
                            lemma_bytes_less_transitive(h@, views[j as int], views[b - 1]);
                        }
                        lemma_bytes_less_transitive(views[a], h@, views[b - 1]);
                    } else if a == j {
                        assert(bytes_less(h@, views[j as int]));
                        if b - 1 > j {
                            assert(bytes_less(views[j as int], views[b - 1]));
                            lemma_bytes_less_transitive(h@, views[j as int], views[b - 1]);
                        }
                    } else {
                        assert(bytes_less(views[a - 1], views[b - 1]));
                    }
                }
                assert forall|k: int| 0 <= k < places@.len() implies first_occurrence(hashes@, #[trigger] places@[k] as int) by {
                    if k > j {
                        assert(places@[k] == old_places[k - 1]);
                    } else if k < j {
                        assert(places@[k] == old_places[k]);
                    }
                }
                assert forall|m: int| 0 <= m < n implies holds_hash(hashes@, places@, #[trigger] hashes@[m]@) by {
                    assert(holds_hash(hashes@, old_places, hashes@[m]@));
                    let k = choose|k: int| 0 <= k < old_places.len() && hashes@[#[trigger] old_places[k] as int]@ == hashes@[m]@;
                    if k < j {
                        assert(places@[k] == old_places[k]);
                    } else {
                        assert(places@[k + 1] == old_places[k]);
                    }
                }
            }
        }
        proof {
            assert forall|m: int| 0 <= m < n + 1 implies holds_hash(hashes@, places@, #[trigger] hashes@[m]@) by {
                if m == n {
                    assert(hashes@[places@[j as int] as int]@ == hashes@[m]@);
                }
            }
        }
        n += 1;
    }
    places
}

// -------------------------------------------------------------- laws --

/// No curve with segments leaves the curve batch empty.
proof fn lemma_no_segments_no_curve_batch(curves: Seq<DrawnCurve>, pick: spec_fn(u32) -> u32)
    requires
        !any_segments(curves),
    ensures
        curve_batch(curves, pick).elements.len() == 0,
    decreases curves.len(),
{
    if curves.len() > 0 {
        assert(curves.last().positions@.len() == 0) by {
            if curves.last().positions@.len() > 0 {
                assert(curves[curves.len() - 1].positions@.len() > 0);
            }
        }
        assert(!any_segments(curves.drop_last())) by {
            if any_segments(curves.drop_last()) {
                let k = choose|k: int| 0 <= k < curves.drop_last().len() && (#[trigger] curves.drop_last()[k]).positions@.len() > 0;
                assert(curves[k].positions@.len() > 0);
            }
        }
        lemma_no_segments_no_curve_batch(curves.drop_last(), pick);
    }
}

/// An output that draws nothing — no point, no curve segment, no mesh —
/// is sent as exactly one clear frame.
pub proof fn lemma_nothing_drawn_is_one_clear(d: Drawing, pick: spec_fn(u32) -> u32, target: FrameTarget)
    requires
        d.points@.len() == 0,
        !any_segments(d.curves@),
        d.meshes@.len() == 0,
    ensures
        drawn_frames(d, pick, target) == seq![
            header_bytes(header_for(target, FrameKind::Clear), FrameKind::Clear),
        ],
{
    lemma_no_segments_no_curve_batch(d.curves@, pick);
    let empty = Seq::<Seq<u8>>::empty();
    assert(strictly_sorted(empty) && empty.to_set() == mesh_hashes(d.meshes@)) by {
        assert(empty.to_set() =~= mesh_hashes(d.meshes@));
    }
    let hs = sorted_hashes(d.meshes@);
    if hs.len() > 0 {
        assert(hs.to_set().contains(hs[0]));
    }
    assert(hs.len() == 0);
}

/// `hs` with `h` put in its place (kept once).
pub open spec fn insert_hash(hs: Seq<Seq<u8>>, h: Seq<u8>) -> Seq<Seq<u8>>
    decreases hs.len(),
{
    if hs.len() == 0 {
        seq![h]
    } else if hs[0] == h {
        hs
    } else if bytes_less(h, hs[0]) {
        seq![h] + hs
    } else {
        seq![hs[0]] + insert_hash(hs.drop_first(), h)
    }
}

proof fn lemma_insert_hash(hs: Seq<Seq<u8>>, h: Seq<u8>)
    requires
        strictly_sorted(hs),
    ensures
        strictly_sorted(insert_hash(hs, h)),
        insert_hash(hs, h).to_set() == hs.to_set().insert(h),
        insert_hash(hs, h).len() > 0,
        insert_hash(hs, h)[0] == h || (hs.len() > 0 && insert_hash(hs, h)[0] == hs[0]),
    decreases hs.len(),
{
    let r = insert_hash(hs, h);
    if hs.len() == 0 {
        assert(r =~= seq![h]);
        assert forall|x: Seq<u8>| r.to_set().contains(x) <==> hs.to_set().insert(h).contains(x) by {
            if x == h {
                assert(r[0] == x);
            }
        }
        assert(r.to_set() =~= hs.to_set().insert(h));
    } else if hs[0] == h {
        assert(hs.to_set().contains(h));
        assert(r.to_set() =~= hs.to_set().insert(h));
    } else if bytes_less(h, hs[0]) {
        assert forall|a: int, b: int| 0 <= a < b < r.len() implies bytes_less(#[trigger] r[a], #[trigger] r[b]) by {
            if a == 0 {
                if b > 1 {
                    assert(bytes_less(hs[0], hs[b - 1]));
                    lemma_bytes_less_transitive(h, hs[0], hs[b - 1]);
                }
            } else {
                assert(bytes_less(hs[a - 1], hs[b - 1]));
            }
        }
        assert forall|x: Seq<u8>| r.to_set().contains(x) <==> hs.to_set().insert(h).contains(x) by {
            if r.to_set().contains(x) {
                let p = choose|p: int| 0 <= p < r.len() && r[p] == x;
                if p > 0 {
                    assert(hs[p - 1] == x);
                }
            }
            if hs.to_set().contains(x) {
                let p = choose|p: int| 0 <= p < hs.len() && hs[p] == x;
                assert(r[p + 1] == x);
            }
            if x == h {
                assert(r[0] == x);
            }
        }
        assert(r.to_set() =~= hs.to_set().insert(h));
    } else {
        let rest = hs.drop_first();
        assert(strictly_sorted(rest)) by {
            assert forall|a: int, b: int| 0 <= a < b < rest.len() implies bytes_less(#[trigger] rest[a], #[trigger] rest[b]) by {
                assert(bytes_less(hs[a + 1], hs[b + 1]));
            }
        }
        lemma_insert_hash(rest, h);
        let inner = insert_hash(rest, h);
        lemma_bytes_less_total(h, hs[0]);
        assert(bytes_less(hs[0], h));
        assert forall|a: int, b: int| 0 <= a < b < r.len() implies bytes_less(#[trigger] r[a], #[trigger] r[b]) by {
            if a == 0 {
                let x = inner[b - 1];
                assert(inner.to_set().contains(x));
                assert(rest.to_set().insert(h).contains(x));
                if x != h {
                    let p = choose|p: int| 0 <= p < rest.len() && rest[p] == x;
                    assert(bytes_less(hs[0], hs[p + 1]));
                }
            } else {
                assert(bytes_less(inner[a - 1], inner[b - 1]));
            }
        }
        assert forall|x: Seq<u8>| r.to_set().contains(x) <==> hs.to_set().insert(h).contains(x) by {
            if r.to_set().contains(x) {
                let p = choose|p: int| 0 <= p < r.len() && r[p] == x;
                if p > 0 {
                    assert(inner.to_set().contains(x));
                    if x != h {
                        let q = choose|q: int| 0 <= q < rest.len() && rest[q] == x;
                        assert(hs[q + 1] == x);
                    }
                }
            }
            if hs.to_set().contains(x) {
                let p = choose|p: int| 0 <= p < hs.len() && hs[p] == x;
                if p == 0 {
                    assert(r[0] == x);
                } else {
                    assert(rest[p - 1] == x);
                    assert(inner.to_set().contains(x));
                    let q = choose|q: int| 0 <= q < inner.len() && inner[q] == x;
                    assert(r[q + 1] == x);
                }
            }
            if x == h {
                assert(inner.to_set().contains(x));
                let q = choose|q: int| 0 <= q < inner.len() && inner[q] == x;
                assert(r[q + 1] == x);
            }
        }
        assert(r.to_set() =~= hs.to_set().insert(h));
    }
}

/// Some strictly increasing sequence holds exactly the meshes' hashes.
pub proof fn lemma_sorted_hashes_exist(meshes: Seq<DrawnMesh>)
    ensures
        strictly_sorted(sorted_hashes(meshes)),
        sorted_hashes(meshes).to_set() == mesh_hashes(meshes),
    decreases meshes.len(),
{
    if meshes.len() == 0 {
        let empty = Seq::<Seq<u8>>::empty();
        assert(empty.to_set() =~= mesh_hashes(meshes));
        assert(strictly_sorted(empty));
    } else {
        let before = meshes.drop_last();
        lemma_sorted_hashes_exist(before);
        let hs = sorted_hashes(before);
        let h = meshes.last().hash@;
        lemma_insert_hash(hs, h);
        assert(mesh_hashes(meshes) =~= mesh_hashes(before).insert(h)) by {
            assert forall|x: Seq<u8>| mesh_hashes(meshes).contains(x) <==> mesh_hashes(before).insert(h).contains(x) by {
                if mesh_hashes(meshes).contains(x) {
                    let k = choose|k: int| 0 <= k < meshes.len() && #[trigger] meshes[k].hash@ == x;
                    if k < before.len() {
                        assert(before[k].hash@ == x);
                    }
                }
                if mesh_hashes(before).contains(x) {
                    let k = choose|k: int| 0 <= k < before.len() && #[trigger] before[k].hash@ == x;
                    assert(meshes[k].hash@ == x);
                }
                if x == h {
                    assert(meshes[meshes.len() - 1].hash@ == x);
                }
            }
        }
        let witness = insert_hash(hs, h);
        assert(strictly_sorted(witness) && witness.to_set() == mesh_hashes(meshes));
    }
}

/// A hash of the meshes draws some mesh.
proof fn lemma_group_of_a_hash(meshes: Seq<DrawnMesh>, k: int)
    requires
        0 <= k < meshes.len(),
    ensures
        group_of(meshes, meshes[k].hash@).len() > 0,
    decreases meshes.len(),
{
    if k < meshes.len() - 1 {
        lemma_group_of_a_hash(meshes.drop_last(), k);
    }
}

/// A pass over hashes that each draw something sends a frame or fills
/// the inline batch.
proof fn lemma_mesh_pass_draws(meshes: Seq<DrawnMesh>, hs: Seq<Seq<u8>>, pick: spec_fn(u32) -> u32, target: FrameTarget)
    requires
        hs.len() > 0,
        forall|k: int| 0 <= k < hs.len() ==> group_of(meshes, #[trigger] hs[k]).len() > 0,
    ensures
        mesh_pass(meshes, hs, pick, target).0.len() > 0 || mesh_pass(meshes, hs, pick, target).1.elements.len() > 0,
    decreases hs.len(),
{
    let g = group_of(meshes, hs.last());
    assert(group_of(meshes, hs[hs.len() - 1]).len() > 0);
    if g.len() == 1 {
    } else if hs.len() > 1 {
        lemma_mesh_pass_draws(meshes, hs.drop_last(), pick, target);
    }
}

/// The clear frame is sent exactly when nothing is drawn: an output with
/// a point, a curve segment or a mesh sends only the frames of what it
/// draws.
pub proof fn lemma_clear_only_when_nothing_drawn(d: Drawing, pick: spec_fn(u32) -> u32, target: FrameTarget)
    requires
        d.points@.len() > 0 || any_segments(d.curves@) || d.meshes@.len() > 0,
    ensures
        ({
            let curves = curve_batch(d.curves@, pick);
            let meshes = mesh_pass(d.meshes@, sorted_hashes(d.meshes@), pick, target);
            drawn_frames(d, pick, target) == frame_if(
                d.points@.len() > 0,
                batch_bytes(header_for(target, FrameKind::Point), FrameKind::Point, point_batch(d.points@, pick)),
            ) + frame_if(
                curves.elements.len() > 0,
                batch_bytes(header_for(target, FrameKind::Curve), FrameKind::Curve, curves),
            ) + meshes.0 + frame_if(
                meshes.1.elements.len() > 0,
                batch_bytes(header_for(target, FrameKind::Mesh), FrameKind::Mesh, meshes.1),
            )
        }),
{
    let curves = curve_batch(d.curves@, pick);
    if any_segments(d.curves@) {
        lemma_segments_fill_the_curve_batch(d.curves@, pick);
    }
    if d.meshes@.len() > 0 {
        lemma_sorted_hashes_exist(d.meshes@);
        let hs = sorted_hashes(d.meshes@);
        assert(mesh_hashes(d.meshes@).contains(d.meshes@[0].hash@));
        assert(hs.to_set().contains(d.meshes@[0].hash@));
        assert forall|k: int| 0 <= k < hs.len() implies group_of(d.meshes@, #[trigger] hs[k]).len() > 0 by {
            assert(hs.to_set().contains(hs[k]));
            assert(mesh_hashes(d.meshes@).contains(hs[k]));
            let j = choose|j: int| 0 <= j < d.meshes@.len() && #[trigger] d.meshes@[j].hash@ == hs[k];
            lemma_group_of_a_hash(d.meshes@, j);
        }
        lemma_mesh_pass_draws(d.meshes@, hs, pick, target);
    }
}

/// A curve with segments puts an element in the curve batch.
proof fn lemma_segments_fill_the_curve_batch(curves: Seq<DrawnCurve>, pick: spec_fn(u32) -> u32)
    requires
        any_segments(curves),
    ensures
        curve_batch(curves, pick).elements.len() > 0,
    decreases curves.len(),
{
    if curves.last().positions@.len() == 0 {
        let k = choose|k: int| 0 <= k < curves.len() && (#[trigger] curves[k]).positions@.len() > 0;
        assert(k < curves.len() - 1);
        assert(curves.drop_last()[k].positions@.len() > 0);
        lemma_segments_fill_the_curve_batch(curves.drop_last(), pick);
    }
}


// ---------------------------------------------------------- the value --

/// A value as the display walk reads it: each drawable leaf carries what
/// drawing it needs (positions as `f32` bit patterns, a curve's display
/// segments, a mesh's or solid's interning hash and display mesh — `None`
/// for a solid that could not be meshed); a list holds its slots, absent
/// ones `None`; anything else draws nothing.
#[derive(Debug)]
pub enum ValueShape {
    Point { position: [u32; 3] },
    Curve { positions: Vec<u32>, indices: Vec<u32> },
    Mesh { hash: ValueHash, positions: Vec<u32>, indices: Vec<u32> },
    Solid { hash: ValueHash, mesh: Option<(Vec<u32>, Vec<u32>)> },
    List { slots: Vec<Option<ValueShape>> },
    Other,
}

/// What a walk collects, in walk order: points, curves, mesh values,
/// solids' display meshes, and the elements of solids that were refused.
pub type Walked = (Seq<DrawnPoint>, Seq<DrawnCurve>, Seq<DrawnMesh>, Seq<DrawnMesh>, Seq<u32>);

/// Nothing collected.
pub open spec fn walked_nothing() -> Walked {
    (Seq::empty(), Seq::empty(), Seq::empty(), Seq::empty(), Seq::empty())
}

/// One walk's findings followed by another's.
pub open spec fn walked_then(a: Walked, b: Walked) -> Walked {
    (a.0 + b.0, a.1 + b.1, a.2 + b.2, a.3 + b.3, a.4 + b.4)
}

/// The element a top-level list slot gives its drawables: its index,
/// saturating at `u32::MAX`.
pub open spec fn slot_element(slot: int) -> u32 {
    if slot <= u32::MAX {
        slot as u32
    } else {
        u32::MAX
    }
}

/// What walking `v` collects when its drawables belong to `element`
/// (`None` at the top, where a lone drawable is element 0): a leaf is
/// collected under that element; a list's present slots are walked in
/// order, each under the element already given or, at the top, under its
/// own slot index — so a nested list's items take their outer slot.
pub open spec fn walk_of(v: ValueShape, element: Option<u32>) -> Walked
    decreases v, 0int,
{
    let e = match element {
        Some(e) => e,
        None => 0,
    };
    match v {
        ValueShape::Point { position } => (
            seq![DrawnPoint { element: e, position }],
            Seq::empty(),
            Seq::empty(),
            Seq::empty(),
            Seq::empty(),
        ),
        ValueShape::Curve { positions, indices } => (
            Seq::empty(),
            seq![DrawnCurve { element: e, positions, indices }],
            Seq::empty(),
            Seq::empty(),
            Seq::empty(),
        ),
        ValueShape::Mesh { hash, positions, indices } => (
            Seq::empty(),
            Seq::empty(),
            seq![DrawnMesh { element: e, hash, positions, indices }],
            Seq::empty(),
            Seq::empty(),
        ),
        ValueShape::Solid { hash, mesh } => match mesh {
            Some((positions, indices)) => (
                Seq::empty(),
                Seq::empty(),
                Seq::empty(),
                seq![DrawnMesh { element: e, hash, positions, indices }],
                Seq::empty(),
            ),
            None => (Seq::empty(), Seq::empty(), Seq::empty(), Seq::empty(), seq![e]),
        },
        ValueShape::List { slots } => walk_slots(slots@, element, slots@.len() as int),
        ValueShape::Other => walked_nothing(),
    }
}

/// What walking the first `n` slots collects (see [`walk_of`]).
pub open spec fn walk_slots(slots: Seq<Option<ValueShape>>, element: Option<u32>, n: int) -> Walked
    decreases slots, n,
{
    if n <= 0 || n > slots.len() {
        walked_nothing()
    } else {
        let own = match element {
            Some(e) => e,
            None => slot_element(n - 1),
        };
        walked_then(
            walk_slots(slots, element, n - 1),
            match slots[n - 1] {
                Some(item) => walk_of(item, Some(own)),
                None => walked_nothing(),
            },
        )
    }
}


/// What a walk has collected so far.
struct Collected {
    points: Vec<DrawnPoint>,
    curves: Vec<DrawnCurve>,
    meshes: Vec<DrawnMesh>,
    solids: Vec<DrawnMesh>,
    refused: Vec<u32>,
}

spec fn collected_view(c: Collected) -> Walked {
    (c.points@, c.curves@, c.meshes@, c.solids@, c.refused@)
}

/// Walk `v` under `element`, appending what it draws to `out`.
fn walk_into(v: ValueShape, element: Option<u32>, out: &mut Collected)
    ensures
        collected_view(*final(out)) == walked_then(collected_view(*old(out)), walk_of(v, element)),
    decreases v,
{
    let e = match element {
        Some(e) => e,
        None => 0,
    };
    let ghost start = collected_view(*out);
    match v {
        ValueShape::Point { position } => {
            out.points.push(DrawnPoint { element: e, position });
        },
        ValueShape::Curve { positions, indices } => {
            out.curves.push(DrawnCurve { element: e, positions, indices });
        },
        ValueShape::Mesh { hash, positions, indices } => {
            out.meshes.push(DrawnMesh { element: e, hash, positions, indices });
        },
        ValueShape::Solid { hash, mesh } => match mesh {
            Some((positions, indices)) => {
                out.solids.push(DrawnMesh { element: e, hash, positions, indices });
            },
            None => {
                out.refused.push(e);
            },
        },
        ValueShape::List { slots } => {
            let ghost s = slots@;
            let ghost whole = v;
            let count = slots.len();
            let mut i: usize = 0;
            for item in it: slots.into_iter()
                invariant
                    i == it.index(),
                    i <= count,
                    count == s.len(),
                    it.seq() == s,
                    whole == v,
                    whole matches ValueShape::List { slots: all } && all@ == s,
                    collected_view(*out) == walked_then(start, walk_slots(s, element, i as int)),
            {
                assert(item == s[i as int]);
                let own = match element {
                    Some(e) => e,
                    None => if i <= u32::MAX as usize {
                        i as u32
                    } else {
                        u32::MAX
                    },
                };
                let ghost before = collected_view(*out);
                match item {
                    Some(inner) => {
                        walk_into(inner, Some(own), out);
                    },
                    None => {},
                }
                proof {
                    let w = walk_slots(s, element, i as int);
                    assert(walk_slots(s, element, i + 1) == walked_then(
                        w,
                        match s[i as int] {
                            Some(x) => walk_of(x, Some(own)),
                            None => walked_nothing(),
                        },
                    ));
                }
                i += 1;
            }
        },
        ValueShape::Other => {},
    }
    proof {
        let w = walk_of(v, element);
        assert(collected_view(*out) =~~= walked_then(start, w));
    }
}


/// Every element a walk collected.
pub open spec fn walked_elements(w: Walked) -> Set<u32> {
    Set::new(
        |e: u32|
            (exists|k: int| 0 <= k < w.0.len() && #[trigger] w.0[k].element == e) || (exists|k: int|
                0 <= k < w.1.len() && #[trigger] w.1[k].element == e) || (exists|k: int|
                0 <= k < w.2.len() && #[trigger] w.2[k].element == e) || (exists|k: int|
                0 <= k < w.3.len() && #[trigger] w.3[k].element == e) || w.4.contains(e),
    )
}

/// Everything a walk collected belongs to element `e`.
pub open spec fn all_under(w: Walked, e: u32) -> bool {
    &&& forall|k: int| 0 <= k < w.0.len() ==> (#[trigger] w.0[k]).element == e
    &&& forall|k: int| 0 <= k < w.1.len() ==> (#[trigger] w.1[k]).element == e
    &&& forall|k: int| 0 <= k < w.2.len() ==> (#[trigger] w.2[k]).element == e
    &&& forall|k: int| 0 <= k < w.3.len() ==> (#[trigger] w.3[k]).element == e
    &&& forall|k: int| 0 <= k < w.4.len() ==> (#[trigger] w.4[k]) == e
}

/// The walk found something to draw (or a refused solid).
pub open spec fn found_any(w: Walked) -> bool {
    w.0.len() > 0 || w.1.len() > 0 || w.2.len() > 0 || w.3.len() > 0 || w.4.len() > 0
}

proof fn lemma_then_under(a: Walked, b: Walked, e: u32)
    requires
        all_under(a, e),
        all_under(b, e),
    ensures
        all_under(walked_then(a, b), e),
{
    let w = walked_then(a, b);
    assert forall|k: int| 0 <= k < w.0.len() implies (#[trigger] w.0[k]).element == e by {
        if k >= a.0.len() {
            assert(w.0[k] == b.0[k - a.0.len()]);
        }
    }
    assert forall|k: int| 0 <= k < w.1.len() implies (#[trigger] w.1[k]).element == e by {
        if k >= a.1.len() {
            assert(w.1[k] == b.1[k - a.1.len()]);
        }
    }
    assert forall|k: int| 0 <= k < w.2.len() implies (#[trigger] w.2[k]).element == e by {
        if k >= a.2.len() {
            assert(w.2[k] == b.2[k - a.2.len()]);
        }
    }
    assert forall|k: int| 0 <= k < w.3.len() implies (#[trigger] w.3[k]).element == e by {
        if k >= a.3.len() {
            assert(w.3[k] == b.3[k - a.3.len()]);
        }
    }
    assert forall|k: int| 0 <= k < w.4.len() implies (#[trigger] w.4[k]) == e by {
        if k >= a.4.len() {
            assert(w.4[k] == b.4[k - a.4.len()]);
        }
    }
}

/// Under a given element, everything a walk collects is that element, and
/// whether it collects anything does not depend on which element it is.
proof fn lemma_walk_under(v: ValueShape, e: u32, f: u32)
    ensures
        all_under(walk_of(v, Some(e)), e),
        found_any(walk_of(v, Some(e))) == found_any(walk_of(v, Some(f))),
    decreases v, 0int,
{
    if let ValueShape::List { slots } = v {
        lemma_slots_under(slots@, e, f, slots@.len() as int);
    }
}

proof fn lemma_slots_under(slots: Seq<Option<ValueShape>>, e: u32, f: u32, n: int)
    ensures
        all_under(walk_slots(slots, Some(e), n), e),
        found_any(walk_slots(slots, Some(e), n)) == found_any(walk_slots(slots, Some(f), n)),
    decreases slots, n,
{
    if n > 0 && n <= slots.len() {
        lemma_slots_under(slots, e, f, n - 1);
        match slots[n - 1] {
            Some(item) => {
                lemma_walk_under(item, e, f);
                lemma_then_under(walk_slots(slots, Some(e), n - 1), walk_of(item, Some(e)), e);
            },
            None => {
                lemma_then_under(walk_slots(slots, Some(e), n - 1), walked_nothing(), e);
            },
        }
    }
}

proof fn lemma_then_elements(a: Walked, b: Walked)
    ensures
        walked_elements(walked_then(a, b)) == walked_elements(a).union(walked_elements(b)),
{
    let w = walked_then(a, b);
    assert forall|x: u32| #[trigger] walked_elements(w).contains(x) implies walked_elements(a).union(
        walked_elements(b),
    ).contains(x) by {
        if exists|k: int| 0 <= k < w.0.len() && #[trigger] w.0[k].element == x {
            let k = choose|k: int| 0 <= k < w.0.len() && #[trigger] w.0[k].element == x;
            if k >= a.0.len() {
                assert(b.0[k - a.0.len()] == w.0[k]);
            } else {
                assert(a.0[k] == w.0[k]);
            }
        } else if exists|k: int| 0 <= k < w.1.len() && #[trigger] w.1[k].element == x {
            let k = choose|k: int| 0 <= k < w.1.len() && #[trigger] w.1[k].element == x;
            if k >= a.1.len() {
                assert(b.1[k - a.1.len()] == w.1[k]);
            } else {
                assert(a.1[k] == w.1[k]);
            }
        } else if exists|k: int| 0 <= k < w.2.len() && #[trigger] w.2[k].element == x {
            let k = choose|k: int| 0 <= k < w.2.len() && #[trigger] w.2[k].element == x;
            if k >= a.2.len() {
                assert(b.2[k - a.2.len()] == w.2[k]);
            } else {
                assert(a.2[k] == w.2[k]);
            }
        } else if exists|k: int| 0 <= k < w.3.len() && #[trigger] w.3[k].element == x {
            let k = choose|k: int| 0 <= k < w.3.len() && #[trigger] w.3[k].element == x;
            if k >= a.3.len() {
                assert(b.3[k - a.3.len()] == w.3[k]);
            } else {
                assert(a.3[k] == w.3[k]);
            }
        } else {
            let k = choose|k: int| 0 <= k < w.4.len() && w.4[k] == x;
            if k >= a.4.len() {
                assert(b.4[k - a.4.len()] == w.4[k]);
            } else {
                assert(a.4[k] == w.4[k]);
            }
        }
    }
    assert forall|x: u32| #[trigger] walked_elements(a).union(walked_elements(b)).contains(x) implies walked_elements(
        w,
    ).contains(x) by {
        if walked_elements(a).contains(x) {
            if exists|k: int| 0 <= k < a.0.len() && #[trigger] a.0[k].element == x {
                let k = choose|k: int| 0 <= k < a.0.len() && #[trigger] a.0[k].element == x;
                assert(w.0[k] == a.0[k]);
            } else if exists|k: int| 0 <= k < a.1.len() && #[trigger] a.1[k].element == x {
                let k = choose|k: int| 0 <= k < a.1.len() && #[trigger] a.1[k].element == x;
                assert(w.1[k] == a.1[k]);
            } else if exists|k: int| 0 <= k < a.2.len() && #[trigger] a.2[k].element == x {
                let k = choose|k: int| 0 <= k < a.2.len() && #[trigger] a.2[k].element == x;
                assert(w.2[k] == a.2[k]);
            } else if exists|k: int| 0 <= k < a.3.len() && #[trigger] a.3[k].element == x {
                let k = choose|k: int| 0 <= k < a.3.len() && #[trigger] a.3[k].element == x;
                assert(w.3[k] == a.3[k]);
            } else {
                let k = choose|k: int| 0 <= k < a.4.len() && a.4[k] == x;
                assert(w.4[k] == a.4[k]);
            }
        } else {
            if exists|k: int| 0 <= k < b.0.len() && #[trigger] b.0[k].element == x {
                let k = choose|k: int| 0 <= k < b.0.len() && #[trigger] b.0[k].element == x;
                assert(w.0[k + a.0.len()] == b.0[k]);
            } else if exists|k: int| 0 <= k < b.1.len() && #[trigger] b.1[k].element == x {
                let k = choose|k: int| 0 <= k < b.1.len() && #[trigger] b.1[k].element == x;
                assert(w.1[k + a.1.len()] == b.1[k]);
            } else if exists|k: int| 0 <= k < b.2.len() && #[trigger] b.2[k].element == x {
                let k = choose|k: int| 0 <= k < b.2.len() && #[trigger] b.2[k].element == x;
                assert(w.2[k + a.2.len()] == b.2[k]);
            } else if exists|k: int| 0 <= k < b.3.len() && #[trigger] b.3[k].element == x {
                let k = choose|k: int| 0 <= k < b.3.len() && #[trigger] b.3[k].element == x;
                assert(w.3[k + a.3.len()] == b.3[k]);
            } else {
                let k = choose|k: int| 0 <= k < b.4.len() && b.4[k] == x;
                assert(w.4[k + a.4.len()] == b.4[k]);
            }
        }
    }
    assert(walked_elements(w) =~= walked_elements(a).union(walked_elements(b)));
}

/// A walk that found something under `e` collected exactly `{e}`; one that
/// found nothing collected no element.
proof fn lemma_under_elements(w: Walked, e: u32)
    requires
        all_under(w, e),
    ensures
        walked_elements(w) == (if found_any(w) {
            set![e]
        } else {
            Set::<u32>::empty()
        }),
{
    if found_any(w) {
        if w.0.len() > 0 {
            assert(w.0[0].element == e);
        } else if w.1.len() > 0 {
            assert(w.1[0].element == e);
        } else if w.2.len() > 0 {
            assert(w.2[0].element == e);
        } else if w.3.len() > 0 {
            assert(w.3[0].element == e);
        } else {
            assert(w.4[0] == e);
        }
        assert(walked_elements(w) =~= set![e]);
    } else {
        assert(walked_elements(w) =~= Set::<u32>::empty());
    }
}

/// The top-level slots of a list whose item draws something.
pub open spec fn drawing_slots(slots: Seq<Option<ValueShape>>, n: int) -> Set<u32> {
    Set::new(
        |e: u32|
            exists|i: int|
                0 <= i < n && i < slots.len() && #[trigger] slot_element(i) == e && (slots[i] matches Some(
                    item,
                ) && found_any(walk_of(item, Some(0)))),
    )
}

proof fn lemma_slot_elements(slots: Seq<Option<ValueShape>>, n: int)
    requires
        0 <= n <= slots.len(),
    ensures
        walked_elements(walk_slots(slots, None, n)) == drawing_slots(slots, n),
    decreases n,
{
    if n == 0 {
        assert(walked_elements(walked_nothing()) =~= Set::<u32>::empty());
        assert(drawing_slots(slots, 0) =~= Set::<u32>::empty());
    } else {
        lemma_slot_elements(slots, n - 1);
        let own = slot_element(n - 1);
        let before = walk_slots(slots, None, n - 1);
        let last = match slots[n - 1] {
            Some(item) => walk_of(item, Some(own)),
            None => walked_nothing(),
        };
        lemma_then_elements(before, last);
        match slots[n - 1] {
            Some(item) => {
                lemma_walk_under(item, own, 0);
                lemma_under_elements(last, own);
            },
            None => {
                assert(walked_elements(last) =~= Set::<u32>::empty());
            },
        }
        assert forall|e: u32| #[trigger] drawing_slots(slots, n).contains(e) == walked_elements(
            before,
        ).union(walked_elements(last)).contains(e) by {
            if drawing_slots(slots, n).contains(e) {
                let i = choose|i: int|
                    0 <= i < n && i < slots.len() && #[trigger] slot_element(i) == e && (
                    slots[i] matches Some(item) && found_any(walk_of(item, Some(0))));
                if i < n - 1 {
                    assert(drawing_slots(slots, n - 1).contains(e));
                }
            }
            if drawing_slots(slots, n - 1).contains(e) {
                let i = choose|i: int|
                    0 <= i < n - 1 && i < slots.len() && #[trigger] slot_element(i) == e && (
                    slots[i] matches Some(item) && found_any(walk_of(item, Some(0))));
                assert(drawing_slots(slots, n).contains(e));
            }
            if walked_elements(last).contains(e) {
                assert(slot_element(n - 1) == e);
                assert(drawing_slots(slots, n).contains(e));
            }
        }
        assert(drawing_slots(slots, n) =~= walked_elements(before).union(walked_elements(last)));
    }
}

/// Which elements a value draws: a lone drawable is element 0; a list's
/// drawables take the index of their top-level slot (a nested list's
/// items take their outer slot), absent slots and slots that draw
/// nothing give none.
pub proof fn lemma_value_elements_are_top_level_slots(v: ValueShape)
    ensures
        v matches ValueShape::List { slots } ==> walked_elements(walk_of(v, None)) == drawing_slots(
            slots@,
            slots@.len() as int,
        ),
        !(v is List) ==> walked_elements(walk_of(v, None)) == (if found_any(walk_of(v, None)) {
            set![0u32]
        } else {
            Set::<u32>::empty()
        }),
{
    match v {
        ValueShape::List { slots } => {
            lemma_slot_elements(slots@, slots@.len() as int);
        },
        _ => {
            assert(walk_of(v, None) == walk_of(v, Some(0)));
            lemma_walk_under(v, 0, 0);
            lemma_under_elements(walk_of(v, None), 0);
        },
    }
}


/// `d` draws what walk `w` collected: its points and curves, the mesh
/// values then the solids' display meshes, and the refused solids.
pub open spec fn holds_walk(d: Drawing, w: Walked) -> bool {
    &&& d.points@ == w.0
    &&& d.curves@ == w.1
    &&& d.meshes@ == w.2 + w.3
    &&& d.refused@ == w.4
}

proof fn lemma_drawing_elements_of_walk(d: Drawing, w: Walked)
    requires
        holds_walk(d, w),
    ensures
        drawing_elements(d) == walked_elements(w),
{
    assert forall|x: u32| #[trigger] drawing_elements(d).contains(x) == walked_elements(w).contains(x) by {
        if exists|k: int| 0 <= k < d.meshes@.len() && #[trigger] d.meshes@[k].element == x {
            let k = choose|k: int| 0 <= k < d.meshes@.len() && #[trigger] d.meshes@[k].element == x;
            if k < w.2.len() {
                assert(w.2[k] == d.meshes@[k]);
            } else {
                assert(w.3[k - w.2.len()] == d.meshes@[k]);
            }
        }
        if exists|k: int| 0 <= k < w.2.len() && #[trigger] w.2[k].element == x {
            let k = choose|k: int| 0 <= k < w.2.len() && #[trigger] w.2[k].element == x;
            assert(d.meshes@[k] == w.2[k]);
        }
        if exists|k: int| 0 <= k < w.3.len() && #[trigger] w.3[k].element == x {
            let k = choose|k: int| 0 <= k < w.3.len() && #[trigger] w.3[k].element == x;
            assert(d.meshes@[k + w.2.len()] == w.3[k]);
        }
    }
    assert(drawing_elements(d) =~= walked_elements(w));
}

/// Walk a value into the drawing of everything it draws (see
/// [`walk_of`]): the walk the display makes before asking pick ids.
pub fn value_drawing(v: ValueShape) -> (d: Drawing)
    ensures
        holds_walk(d, walk_of(v, None)),
        drawing_elements(d) == walked_elements(walk_of(v, None)),
{
    let mut out = Collected {
        points: Vec::new(),
        curves: Vec::new(),
        meshes: Vec::new(),
        solids: Vec::new(),
        refused: Vec::new(),
    };
    proof {
        assert(collected_view(out) =~~= walked_nothing());
    }
    walk_into(v, None, &mut out);
    let ghost w = walk_of(v, None);
    proof {
        assert(collected_view(out) =~~= w);
    }
    let Collected { points, curves, mut meshes, mut solids, refused } = out;
    meshes.append(&mut solids);
    let d = Drawing { points, curves, meshes, refused };
    proof {
        lemma_drawing_elements_of_walk(d, w);
    }
    d
}

/// The elements a value draws, in increasing order, each once — the one
/// list its pick ids are asked for.
pub open spec fn value_elements(v: ValueShape) -> Seq<u32> {
    choose|es: Seq<u32>| increasing(es) && es.to_set() == walked_elements(walk_of(v, None))
}

/// The display frames of one output's value: walk it (see [`walk_of`]),
/// ask `table` once, up front, for the pick ids of the elements it draws
/// in increasing order, and send the frames of that drawing (see
/// [`drawn_frames`]), each element under its id; every frame decodes.
pub fn frames_for_value(v: ValueShape, target: FrameTarget, table: &mut PickTable) -> (frames: Vec<Vec<u8>>)
    requires
        forall|d: Drawing| #[trigger] holds_walk(d, walk_of(v, None)) ==> drawing_fits(d),
        old(table).wf(),
        old(table).triples().len() + fresh_triples(
            old(table).triples(),
            target.node,
            target.output,
            value_elements(v),
        ) <= u32::MAX,
    ensures
        increasing(value_elements(v)),
        value_elements(v).to_set() == walked_elements(walk_of(v, None)),
        final(table).wf(),
        final(table).encoded() == old(table).encoded().wrapping_add(1),
        final(table).triples() == allocated_after(
            old(table).triples(),
            target.node,
            target.output,
            value_elements(v),
        ),
        exists|d: Drawing|
            #[trigger] holds_walk(d, walk_of(v, None)) && frames@.map_values(|f: Vec<u8>| f@)
                == drawn_frames(d, table_picks(final(table).triples(), target.node, target.output), target),
        forall|k: int| 0 <= k < frames@.len() ==> decode_spec(#[trigger] frames@[k]@) is Ok,
{
    let ghost w = walk_of(v, None);
    let d = value_drawing(v);
    // The increasing enumeration of the drawn elements, which the table is
    // asked for.
    let elements = drawn_elements(&d);
    proof {
        lemma_increasing_unique(sorted_elements(d), value_elements(v));
    }
    let frames = frames_for_drawing(&d, target, table);
    proof {
        assert(holds_walk(d, w));
    }
    frames
}

} // verus!
