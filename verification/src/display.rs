//! Values → display: the pick table that backward picking resolves
//! through, the clear frame of an output that no longer draws, and the
//! byte-bounded, least-recently-used cache of solid tessellations.
use vstd::prelude::*;
use crate::frames::{encode_clear, header_bytes, FrameKind, Header, ValueHash};
use vstd::utf8::encode_utf8;
use std::collections::HashMap;
use std::sync::Arc;

verus! {

/// Segments per full circle for display tessellation of analytic circles.
pub const CIRCLE_SEGMENTS: i64 = 64;

// ---------------------------------------------------------------------
// Pick ids
// ---------------------------------------------------------------------

/// The table's key for a `(node, output, element)` triple.
pub open spec fn pick_key(t: (u32, u32, u32)) -> u128 {
    (t.0 as int * 0x1_0000_0000_0000_0000 + t.1 as int * 0x1_0000_0000 + t.2 as int) as u128
}

proof fn lemma_pick_key_injective(a: (u32, u32, u32), b: (u32, u32, u32))
    ensures
        pick_key(a) == pick_key(b) <==> a == b,
{
    assert(a.0 as int * 0x1_0000_0000_0000_0000 + a.1 as int * 0x1_0000_0000 + a.2 as int
        <= u128::MAX);
    assert(b.0 as int * 0x1_0000_0000_0000_0000 + b.1 as int * 0x1_0000_0000 + b.2 as int
        <= u128::MAX);
}

fn key_of(node: u32, output: u32, element: u32) -> (key: u128)
    ensures
        key == pick_key((node, output, element)),
{
    node as u128 * 0x1_0000_0000_0000_0000 + output as u128 * 0x1_0000_0000 + element as u128
}

/// How many new triples `elements` of `(node, output)` bring to a table
/// that already knows `known` (repeats counted once).
pub open spec fn fresh_triples(known: Seq<(u32, u32, u32)>, node: u32, output: u32, elements: Seq<u32>) -> nat
    decreases elements.len(),
{
    if elements.len() == 0 {
        0
    } else {
        let t = (node, output, elements[0]);
        if known.contains(t) {
            fresh_triples(known, node, output, elements.drop_first())
        } else {
            1 + fresh_triples(known.push(t), node, output, elements.drop_first())
        }
    }
}

/// The triples after `elements` of `(node, output)` were asked for, in
/// allocation order.
pub open spec fn allocated_after(known: Seq<(u32, u32, u32)>, node: u32, output: u32, elements: Seq<u32>) -> Seq<(u32, u32, u32)>
    decreases elements.len(),
{
    if elements.len() == 0 {
        known
    } else {
        let t = (node, output, elements[0]);
        let next = if known.contains(t) {
            known
        } else {
            known.push(t)
        };
        allocated_after(next, node, output, elements.drop_first())
    }
}

/// What id `id` names in a table that allocated `triples`.
pub open spec fn resolved(triples: Seq<(u32, u32, u32)>, id: u32) -> Option<(u32, u32, u32)> {
    if 1 <= id <= triples.len() {
        Some(triples[id - 1])
    } else {
        None
    }
}

/// The id of `t` in a table that allocated `triples` (ids start at 1).
pub open spec fn id_in(triples: Seq<(u32, u32, u32)>, t: (u32, u32, u32)) -> u32 {
    (triples.index_of(t) + 1) as u32
}

/// Stable pick ids for `(node ref, output, element)` triples. Ids never
/// repeat within a session, so a pick made against an older frame still
/// resolves to the right element.
#[derive(Debug)]
pub struct PickTable {
    next: u32,
    ids: HashMap<u128, u32>,
    back: Vec<(u32, u32, u32)>,
    encodes: u64,
}

impl PickTable {
    /// The triples in the order their ids were allocated: id `i` is
    /// `triples()[i - 1]`.
    pub closed spec fn triples(&self) -> Seq<(u32, u32, u32)> {
        self.back@
    }

    /// Outputs encoded so far.
    pub closed spec fn encoded(&self) -> u64 {
        self.encodes
    }

    /// The table's internal agreement.
    pub closed spec fn wf(&self) -> bool {
        &&& self.back@.len() == self.next
        &&& self.back@.no_duplicates()
        &&& forall|k: u128| #[trigger]
            self.ids@.contains_key(k) ==> exists|i: int|
                0 <= i < self.back@.len() && pick_key(self.back@[i]) == k
        &&& forall|i: int|
            0 <= i < self.back@.len() ==> #[trigger] self.ids@.contains_key(pick_key(self.back@[i]))
                && self.ids@[pick_key(self.back@[i])] == i + 1
    }

    /// An empty table.
    pub fn new() -> (table: PickTable)
        ensures
            table.wf(),
            table.triples() == Seq::<(u32, u32, u32)>::empty(),
            table.encoded() == 0,
    {
        PickTable { next: 0, ids: HashMap::new(), back: Vec::new(), encodes: 0 }
    }

    /// The pick id for a triple, allocated on first sight (ids start at 1;
    /// 0 = nothing).
    pub fn id_for(&mut self, node: u32, output: u32, element: u32) -> (id: u32)
        requires
            old(self).wf(),
            old(self).triples().contains((node, output, element)) || old(self).triples().len()
                < u32::MAX,
        ensures
            final(self).wf(),
            final(self).encoded() == old(self).encoded(),
            final(self).triples() == (if old(self).triples().contains((node, output, element)) {
                old(self).triples()
            } else {
                old(self).triples().push((node, output, element))
            }),
            id == id_in(final(self).triples(), (node, output, element)),
            1 <= id <= final(self).triples().len(),
            final(self).triples()[id - 1] == (node, output, element),
    {
        let t = (node, output, element);
        let key = key_of(node, output, element);
        proof {
            broadcast use vstd::std_specs::hash::group_hash_axioms;
        }
        match self.ids.get(&key) {
            Some(found) => {
                let id = *found;
                proof {
                    let i = choose|i: int| 0 <= i < self.back@.len() && pick_key(self.back@[i]) == key;
                    lemma_pick_key_injective(self.back@[i], t);
                    lemma_index_of_unique(self.back@, t, i);
                }
                id
            },
            None => {
                proof {
                    if self.back@.contains(t) {
                        let i = choose|i: int| 0 <= i < self.back@.len() && self.back@[i] == t;
                        assert(self.ids@.contains_key(pick_key(self.back@[i])));
                        assert(false);
                    }
                }
                let ghost old_back = self.back@;
                let ghost old_ids = self.ids@;
                self.next = self.next + 1;
                self.ids.insert(key, self.next);
                self.back.push(t);
                proof {
                    assert(self.back@ == old_back.push(t));
                    assert forall|j: int, k: int|
                        0 <= j < self.back@.len() && 0 <= k < self.back@.len() && j != k implies self.back@[j]
                        != self.back@[k] by {
                        if j < old_back.len() && k < old_back.len() {
                            assert(old_back[j] != old_back[k]);
                        } else if j < old_back.len() {
                            assert(old_back.contains(old_back[j]));
                        } else {
                            assert(old_back.contains(old_back[k]));
                        }
                    }
                    assert forall|k2: u128| #[trigger] self.ids@.contains_key(k2) implies exists|i: int|
                        0 <= i < self.back@.len() && pick_key(self.back@[i]) == k2 by {
                        if k2 == key {
                            assert(pick_key(self.back@[old_back.len() as int]) == k2);
                        } else {
                            assert(old_ids.contains_key(k2));
                            let i = choose|i: int| 0 <= i < old_back.len() && pick_key(old_back[i]) == k2;
                            assert(pick_key(self.back@[i]) == k2);
                        }
                    }
                    assert forall|i: int| 0 <= i < self.back@.len() implies #[trigger] self.ids@.contains_key(
                        pick_key(self.back@[i]),
                    ) && self.ids@[pick_key(self.back@[i])] == i + 1 by {
                        if i < old_back.len() {
                            lemma_pick_key_injective(old_back[i], t);
                            assert(old_back[i] != t) by {
                                assert(old_back.contains(old_back[i]));
                            }
                        }
                    }
                    lemma_index_of_unique(self.back@, t, old_back.len() as int);
                }
                self.next
            },
        }
    }

    /// The ids of one output's elements, in one call (counted: see
    /// [`Self::encodes`]).
    pub fn ids_for(&mut self, node: u32, output: u32, elements: &[u32]) -> (ids: Vec<u32>)
        requires
            old(self).wf(),
            old(self).triples().len() + fresh_triples(old(self).triples(), node, output, elements@)
                <= u32::MAX,
        ensures
            final(self).wf(),
            final(self).encoded() == old(self).encoded().wrapping_add(1),
            final(self).triples() == allocated_after(old(self).triples(), node, output, elements@),
            ids@.len() == elements@.len(),
            forall|k: int|
                0 <= k < elements@.len() ==> #[trigger] ids@[k] == id_in(
                    final(self).triples(),
                    (node, output, elements@[k]),
                ) && final(self).triples().contains((node, output, elements@[k])),
    {
        self.encodes = self.encodes.wrapping_add(1);
        let mut ids: Vec<u32> = Vec::new();
        let mut k: usize = 0;
        let ghost start = self.triples();
        assert(elements@.subrange(0, elements@.len() as int) =~= elements@);
        while k < elements.len()
            invariant
                0 <= k <= elements@.len(),
                self.wf(),
                self.encoded() == old(self).encoded().wrapping_add(1),
                start == old(self).triples(),
                ids@.len() == k,
                allocated_after(self.triples(), node, output, elements@.subrange(k as int, elements@.len() as int))
                    == allocated_after(start, node, output, elements@),
                self.triples().len() + fresh_triples(
                    self.triples(),
                    node,
                    output,
                    elements@.subrange(k as int, elements@.len() as int),
                ) <= u32::MAX,
                forall|j: int| 0 <= j < k ==> self.triples().contains((node, output, #[trigger] elements@[j])),
                forall|j: int| 0 <= j < k ==> #[trigger] ids@[j] == id_in(self.triples(), (node, output, elements@[j])),
                self.triples().no_duplicates(),
            decreases elements@.len() - k,
        {
            let ghost before = self.triples();
            let ghost rest = elements@.subrange(k as int, elements@.len() as int);
            assert(rest.drop_first() =~= elements@.subrange(k + 1, elements@.len() as int));
            assert(rest[0] == elements@[k as int]);
            let id = self.id_for(node, output, elements[k]);
            proof {
                // Earlier ids keep their positions: the table only grows at
                // its end.
                assert forall|j: int| 0 <= j < k implies #[trigger] ids@[j] == id_in(
                    self.triples(),
                    (node, output, elements@[j]),
                ) && self.triples().contains((node, output, elements@[j])) by {
                    let t = (node, output, elements@[j]);
                    assert(before.contains(t));
                    assert(before =~= self.triples().subrange(0, before.len() as int));
                    lemma_index_of_prefix(before, self.triples(), t);
                }
                assert(self.triples()[id - 1] == (node, output, elements@[k as int]));
                assert(self.triples().contains((node, output, elements@[k as int])));
                assert forall|j: int| 0 <= j <= k implies self.triples().contains(
                    (node, output, #[trigger] elements@[j]),
                ) by {
                    if j < k {
                        assert(before.contains((node, output, elements@[j])));
                        assert(before =~= self.triples().subrange(0, before.len() as int));
                        lemma_index_of_prefix(before, self.triples(), (node, output, elements@[j]));
                    }
                }
            }
            ids.push(id);
            k += 1;
        }
        assert(elements@.subrange(k as int, elements@.len() as int) =~= Seq::<u32>::empty());
        ids
    }

    /// How many outputs have been encoded against this table (calls of
    /// [`Self::ids_for`]).
    pub fn encodes(&self) -> (n: u64)
        ensures
            n == self.encoded(),
    {
        self.encodes
    }

    /// Distinct pick ids allocated so far.
    pub fn len(&self) -> (n: usize)
        requires
            self.wf(),
        ensures
            n == self.triples().len(),
    {
        self.back.len()
    }

    /// No id allocated yet.
    pub fn is_empty(&self) -> (empty: bool)
        requires
            self.wf(),
        ensures
            empty == (self.triples().len() == 0),
    {
        self.back.len() == 0
    }

    /// Resolve a pick id back to `(node ref, output, element)`.
    pub fn resolve(&self, id: u32) -> (found: Option<(u32, u32, u32)>)
        requires
            self.wf(),
        ensures
            found == resolved(self.triples(), id),
    {
        if id >= 1 && (id as usize) <= self.back.len() {
            Some(self.back[(id - 1) as usize])
        } else {
            None
        }
    }
}

impl PickTable {
    /// A table's triples are distinct and number at most `u32::MAX`.
    pub proof fn lemma_triples_distinct(&self)
        requires
            self.wf(),
        ensures
            self.triples().no_duplicates(),
            self.triples().len() <= u32::MAX,
    {
    }
}

/// Resolving the id a triple was given gives the triple back, and that id
/// is never 0 (0 = nothing).
pub proof fn lemma_resolve_inverts_id_for(triples: Seq<(u32, u32, u32)>, t: (u32, u32, u32))
    requires
        triples.no_duplicates(),
        triples.len() <= u32::MAX,
        triples.contains(t),
    ensures
        id_in(triples, t) >= 1,
        resolved(triples, id_in(triples, t)) == Some(t),
{
    let i = triples.index_of(t);
    assert(0 <= i < triples.len() && triples[i] == t);
}

/// Ids never move: a triple keeps its id however the table grows, and two
/// distinct triples never share one.
pub proof fn lemma_ids_are_stable_and_distinct(
    before: Seq<(u32, u32, u32)>,
    after: Seq<(u32, u32, u32)>,
    a: (u32, u32, u32),
    b: (u32, u32, u32),
)
    requires
        after.no_duplicates(),
        after.len() <= u32::MAX,
        before.len() <= after.len(),
        before == after.subrange(0, before.len() as int),
        before.contains(a),
        after.contains(b),
        a != b,
    ensures
        id_in(after, a) == id_in(before, a),
        id_in(after, a) != id_in(after, b),
{
    lemma_index_of_prefix(before, after, a);
    let i = after.index_of(a);
    let j = after.index_of(b);
    assert(0 <= i < after.len() && after[i] == a);
    assert(0 <= j < after.len() && after[j] == b);
}

impl Default for PickTable {
    fn default() -> (table: PickTable)
        ensures
            table.wf(),
            table.triples() == Seq::<(u32, u32, u32)>::empty(),
            table.encoded() == 0,
    {
        PickTable::new()
    }
}

/// In a sequence without repeats, an element's index is its only place.
proof fn lemma_index_of_unique(s: Seq<(u32, u32, u32)>, t: (u32, u32, u32), i: int)
    requires
        s.no_duplicates(),
        0 <= i < s.len(),
        s[i] == t,
    ensures
        s.contains(t),
        s.index_of(t) == i,
{
    assert(s.contains(t));
    let j = s.index_of(t);
    assert(0 <= j < s.len() && s[j] == t);
}

/// A triple's place does not move when the table grows at its end.
proof fn lemma_index_of_prefix(before: Seq<(u32, u32, u32)>, after: Seq<(u32, u32, u32)>, t: (u32, u32, u32))
    requires
        before.contains(t),
        before.len() <= after.len(),
        before == after.subrange(0, before.len() as int),
        after.no_duplicates(),
    ensures
        after.contains(t),
        after.index_of(t) == before.index_of(t),
{
    let i = before.index_of(t);
    assert(0 <= i < before.len() && before[i] == t);
    assert(after[i] == t);
    lemma_index_of_unique(after, t, i);
}

// ---------------------------------------------------------------------
// Frames
// ---------------------------------------------------------------------

/// The header of an output's clear frame.
pub open spec fn clear_header(generation: u64, node: u32, output: u32) -> Header {
    Header {
        kind: FrameKind::Clear,
        generation,
        node,
        output,
        element_start: 0,
        element_count: 0,
    }
}

/// A clear frame for an output that no longer draws (red, gone, scalar).
pub fn clear_frame(generation: u64, node: u32, output: u32) -> (bytes: Vec<u8>)
    ensures
        bytes@ == header_bytes(clear_header(generation, node, output), FrameKind::Clear),
{
    encode_clear(
        &Header {
            kind: FrameKind::Clear,
            generation,
            node,
            output,
            element_start: 0,
            element_count: 0,
        },
    )
}

/// Is a count zero (the stats leave zero counts out)?
pub fn is_zero(n: &usize) -> (zero: bool)
    ensures
        zero == (*n == 0),
{
    *n == 0
}

// ---------------------------------------------------------------------
// The solid tessellation cache
// ---------------------------------------------------------------------

/// Default byte budget of a [`SolidCache`] (1 GiB).
pub const SOLID_CACHE_BUDGET: usize = 1073741824;

/// The smallest display cache a client may ask for (MiB).
pub const SOLID_CACHE_MIN_MIB: u64 = 64;

/// The largest display cache a client may ask for (MiB).
pub const SOLID_CACHE_MAX_MIB: u64 = 65536;

/// The triangle budget of one displayed output per generation.
pub const DISPLAY_TRIANGLE_BUDGET: u64 = 1000000;

/// Which deflection a display pass tessellates solids at: coarse for a
/// slider drag's generations, fine for the rest. Ordered: a fine drawing
/// satisfies a preview request, never the reverse.
#[derive(Debug, Clone, Copy, PartialEq, Eq, PartialOrd, Ord, Hash, Structural)]
pub enum DisplayTier {
    /// The coarse tier.
    Preview,
    /// The fine tier.
    Fine,
}

/// A key as plain values: the solid's hash and the deflection's bit
/// patterns.
pub type KeyView = (Seq<u8>, u64, u64);

/// The key of a cached tessellation: the solid's value hash plus the tier
/// deflection it was meshed at (bit patterns).
#[derive(Debug, Clone, Copy, PartialEq, Eq, Hash)]
pub struct TessellationKey {
    hash: ValueHash,
    linear_bits: u64,
    angular_bits: u64,
}

impl TessellationKey {
    /// The key as plain values.
    pub closed spec fn key_view(&self) -> KeyView {
        (self.hash@, self.linear_bits, self.angular_bits)
    }

    /// The key of `hash` meshed at the deflection whose linear and
    /// angular terms have these bit patterns.
    pub fn new(hash: ValueHash, linear_bits: u64, angular_bits: u64) -> (key: TessellationKey)
        ensures
            key.key_view() == (hash@, linear_bits, angular_bits),
    {
        TessellationKey { hash, linear_bits, angular_bits }
    }

    /// Do two keys name the same tessellation?
    pub fn same(&self, other: &TessellationKey) -> (same: bool)
        ensures
            same == (self.key_view() == other.key_view()),
    {
        self.hash.same(&other.hash) && self.linear_bits == other.linear_bits && self.angular_bits
            == other.angular_bits
    }
}

/// One solid's display mesh, as the cache holds it and the frames draw it:
/// the welded mesh (positions as `f64` bit patterns, `xyz` triples, and
/// triangle indices) under its content hash.
#[derive(Debug)]
pub struct DisplayMesh {
    hash: ValueHash,
    positions: Vec<u64>,
    indices: Vec<u32>,
    bytes: usize,
    faces: usize,
    watertight: bool,
    linear_bits: u64,
    angular_bits: u64,
}

impl DisplayMesh {
    /// The mesh's footprint as the cache counts it: 8 bytes per position
    /// coordinate, 4 per index.
    pub closed spec fn footprint(&self) -> nat {
        self.bytes as nat
    }

    /// The mesh's content hash, as plain bytes.
    pub closed spec fn hash_view(&self) -> Seq<u8> {
        self.hash@
    }

    /// Its positions (bit patterns).
    pub closed spec fn positions_view(&self) -> Seq<u64> {
        self.positions@
    }

    /// Its indices.
    pub closed spec fn indices_view(&self) -> Seq<u32> {
        self.indices@
    }

    /// B-rep faces in the solid, whether the mesh closed, and the
    /// deflection the mesher ran at (bit patterns).
    pub closed spec fn facts(&self) -> (usize, bool, u64, u64) {
        (self.faces, self.watertight, self.linear_bits, self.angular_bits)
    }

    /// A display mesh.
    pub fn new(
        hash: ValueHash,
        positions: Vec<u64>,
        indices: Vec<u32>,
        faces: usize,
        watertight: bool,
        linear_bits: u64,
        angular_bits: u64,
    ) -> (mesh: DisplayMesh)
        requires
            8 * positions@.len() + 4 * indices@.len() <= usize::MAX,
        ensures
            mesh.footprint() == 8 * positions@.len() + 4 * indices@.len(),
            mesh.hash_view() == hash@,
            mesh.positions_view() == positions@,
            mesh.indices_view() == indices@,
            mesh.facts() == (faces, watertight, linear_bits, angular_bits),
    {
        let bytes = 8 * positions.len() + 4 * indices.len();
        DisplayMesh { hash, positions, indices, bytes, faces, watertight, linear_bits, angular_bits }
    }

    /// The content hash of the mesh: the frames' blob key.
    pub fn hash(&self) -> (hash: ValueHash)
        ensures
            hash@ == self.hash_view(),
    {
        self.hash
    }

    /// The positions (`f64` bit patterns, `xyz` triples).
    pub fn positions(&self) -> (positions: &[u64])
        ensures
            positions@ == self.positions_view(),
    {
        self.positions.as_slice()
    }

    /// The triangle indices.
    pub fn indices(&self) -> (indices: &[u32])
        ensures
            indices@ == self.indices_view(),
    {
        self.indices.as_slice()
    }

    /// B-rep faces in the solid.
    pub fn faces(&self) -> (faces: usize)
        ensures
            faces == self.facts().0,
    {
        self.faces
    }

    /// Did the kernel's mesh close? An open one draws all the same and is
    /// reported.
    pub fn watertight(&self) -> (watertight: bool)
        ensures
            watertight == self.facts().1,
    {
        self.watertight
    }

    /// The deflection the mesher ran at, as the bit patterns of its linear
    /// and angular terms.
    pub fn deflection_bits(&self) -> (bits: (u64, u64))
        ensures
            bits == (self.facts().2, self.facts().3),
    {
        (self.linear_bits, self.angular_bits)
    }
}

/// A mesh's footprint as the cache and the frames see it.
pub fn mesh_bytes(mesh: &DisplayMesh) -> (bytes: usize)
    ensures
        bytes == mesh.footprint(),
{
    mesh.bytes
}

/// A cache entry: the display mesh, or the kernel's refusal of these
/// bytes at this deflection.
#[derive(Debug)]
pub enum Cached {
    /// The display mesh.
    Mesh(Arc<DisplayMesh>),
    /// The kernel's reason.
    Refused(String),
}

/// Another handle on the same mesh.
#[verifier::external_body]
fn share(mesh: &Arc<DisplayMesh>) -> (shared: Arc<DisplayMesh>)
    ensures
        shared == *mesh,
{
    Arc::clone(mesh)
}

/// The same entry, handed out.
fn copy_cached(cached: &Cached) -> (copy: Cached)
    ensures
        copy == *cached,
{
    match cached {
        Cached::Mesh(mesh) => Cached::Mesh(share(mesh)),
        Cached::Refused(reason) => Cached::Refused(reason.clone()),
    }
}

/// An entry's footprint against the budget: the mesh's bytes, or the
/// refusal's text (UTF-8 bytes).
pub open spec fn cached_size(cached: Cached) -> nat {
    match cached {
        Cached::Mesh(mesh) => mesh.footprint(),
        Cached::Refused(reason) => encode_utf8(reason@).len(),
    }
}

fn size_of_cached(cached: &Cached) -> (size: usize)
    ensures
        size == cached_size(*cached),
{
    match cached {
        Cached::Mesh(mesh) => mesh_bytes(mesh),
        Cached::Refused(reason) => reason.as_str().as_bytes().len(),
    }
}

/// One held entry, as plain values.
pub struct CacheItem {
    pub key: KeyView,
    pub cached: Cached,
    pub size: nat,
}

/// The bytes `items` hold.
pub open spec fn held_bytes(items: Seq<CacheItem>) -> nat
    decreases items.len(),
{
    if items.len() == 0 {
        0
    } else {
        items[0].size + held_bytes(items.drop_first())
    }
}

/// The refusals among `items`.
pub open spec fn refusals_held(items: Seq<CacheItem>) -> nat
    decreases items.len(),
{
    if items.len() == 0 {
        0
    } else {
        (if items[0].cached is Refused {
            1nat
        } else {
            0nat
        }) + refusals_held(items.drop_first())
    }
}

/// How many of `items` carry a key in `watched`.
pub open spec fn watched_in(items: Seq<CacheItem>, watched: Seq<KeyView>) -> nat
    decreases items.len(),
{
    if items.len() == 0 {
        0
    } else {
        watched_in(items.drop_last(), watched) + (if watched.contains(items.last().key) {
            1nat
        } else {
            0nat
        })
    }
}

/// Is `key` among `items`?
pub open spec fn holds(items: Seq<CacheItem>, key: KeyView) -> bool {
    exists|i: int| 0 <= i < items.len() && items[i].key == key
}

/// Where `key` sits among `items`.
pub open spec fn place_of(items: Seq<CacheItem>, key: KeyView) -> int {
    choose|i: int| 0 <= i < items.len() && items[i].key == key
}

/// No key is held twice.
pub open spec fn keys_distinct(items: Seq<CacheItem>) -> bool {
    forall|i: int, j: int| 0 <= i < j < items.len() ==> items[i].key != items[j].key
}

/// How many least-recently-used entries must go before `incoming` more
/// bytes fit the budget (all of them, if even that is not enough).
pub open spec fn evicted_for(items: Seq<CacheItem>, incoming: nat, budget: nat) -> nat
    decreases items.len(),
{
    if items.len() == 0 || held_bytes(items) + incoming <= budget {
        0
    } else {
        1 + evicted_for(items.drop_first(), incoming, budget)
    }
}

/// `key` made the most recently used, if it is held.
pub open spec fn touched(items: Seq<CacheItem>, key: KeyView) -> Seq<CacheItem> {
    if holds(items, key) {
        let i = place_of(items, key);
        items.remove(i).push(items[i])
    } else {
        items
    }
}

/// Each of `keys` touched in turn.
pub open spec fn touched_all(items: Seq<CacheItem>, keys: Seq<KeyView>) -> Seq<CacheItem>
    decreases keys.len(),
{
    if keys.len() == 0 {
        items
    } else {
        touched(touched_all(items, keys.drop_last()), keys.last())
    }
}

/// `keys` without repeats, first occurrences in order.
pub open spec fn first_occurrences(keys: Seq<KeyView>) -> Seq<KeyView>
    decreases keys.len(),
{
    if keys.len() == 0 {
        keys
    } else {
        let earlier = first_occurrences(keys.drop_last());
        if earlier.contains(keys.last()) {
            earlier
        } else {
            earlier.push(keys.last())
        }
    }
}

/// A counter moved on by `n`, wrapping as the hardware counter does.
pub open spec fn bumped(x: u64, n: nat) -> u64
    decreases n,
{
    if n == 0 {
        x
    } else {
        let y = bumped(x, (n - 1) as nat);
        if y == u64::MAX {
            0
        } else {
            (y + 1) as u64
        }
    }
}

/// The cache as plain values.
pub struct CacheView {
    /// The held entries, least recently used first.
    pub items: Seq<CacheItem>,
    /// The byte budget.
    pub budget: nat,
    /// The watched keys.
    pub watched: Seq<KeyView>,
    /// Evictions of watched entries since the watch was set.
    pub watched_evictions: u64,
    /// Lookups served from the cache.
    pub hits: u64,
    /// Lookups that called the kernel.
    pub misses: u64,
    /// Entries evicted to stay within budget.
    pub evictions: u64,
    /// Tessellations larger than the whole budget.
    pub oversized: u64,
}

impl CacheView {
    /// The bytes held.
    pub open spec fn bytes(self) -> nat {
        held_bytes(self.items)
    }

    /// Least-recently-used entries evicted until `incoming` more bytes fit.
    pub open spec fn after_make_room(self, incoming: nat) -> CacheView {
        let n = evicted_for(self.items, incoming, self.budget);
        CacheView {
            items: self.items.skip(n as int),
            evictions: bumped(self.evictions, n),
            watched_evictions: bumped(
                self.watched_evictions,
                watched_in(self.items.take(n as int), self.watched),
            ),
            ..self
        }
    }

    /// The cache after `cached` was offered under `key`: larger than the
    /// budget, it is counted and not kept; already held, nothing changes;
    /// else room is made and it becomes the most recently used entry.
    pub open spec fn after_insert(self, key: KeyView, cached: Cached) -> CacheView {
        let size = cached_size(cached);
        if size > self.budget {
            CacheView { oversized: bumped(self.oversized, 1), ..self }
        } else if holds(self.items, key) {
            self
        } else {
            let roomy = self.after_make_room(size);
            CacheView { items: roomy.items.push(CacheItem { key, cached, size }), ..roomy }
        }
    }

    /// What a lookup of `key` finds.
    pub open spec fn found(self, key: KeyView) -> Option<Cached> {
        if holds(self.items, key) {
            Some(self.items[place_of(self.items, key)].cached)
        } else {
            None
        }
    }

    /// The cache after a lookup of `key`: a held entry becomes the most
    /// recently used.
    pub open spec fn after_lookup(self, key: KeyView) -> CacheView {
        CacheView { items: touched(self.items, key), ..self }
    }

    /// The cache resized: least-recently-used entries evicted at once
    /// until the held bytes fit.
    pub open spec fn after_set_budget(self, budget: nat) -> CacheView {
        CacheView { budget, ..self }.after_make_room(0)
    }

    /// The cache after `keys` were watched: each held one touched, the
    /// count reset.
    pub open spec fn after_watch(self, keys: Seq<KeyView>) -> CacheView {
        CacheView {
            items: touched_all(self.items, first_occurrences(keys)),
            watched: first_occurrences(keys),
            watched_evictions: 0,
            ..self
        }
    }
}

/// A cached entry as the tessellation answer it stands for.
pub open spec fn as_result(cached: Cached) -> Result<Arc<DisplayMesh>, String> {
    match cached {
        Cached::Mesh(mesh) => Ok(mesh),
        Cached::Refused(reason) => Err(reason),
    }
}

/// A tessellation answer as the entry that caches it.
pub open spec fn cached_of(result: Result<Arc<DisplayMesh>, String>) -> Cached {
    match result {
        Ok(mesh) => Cached::Mesh(mesh),
        Err(reason) => Cached::Refused(reason),
    }
}

/// Never more refusals than entries.
proof fn lemma_refusals_bounded(items: Seq<CacheItem>)
    ensures
        refusals_held(items) <= items.len(),
    decreases items.len(),
{
    if items.len() > 0 {
        lemma_refusals_bounded(items.drop_first());
    }
}

/// One cached entry and its footprint.
struct Entry {
    key: TessellationKey,
    cached: Cached,
    size: usize,
}

spec fn item_of(e: Entry) -> CacheItem {
    CacheItem { key: e.key.key_view(), cached: e.cached, size: e.size as nat }
}

/// A key's plain values (as a function, for sequences of keys).
pub open spec fn key_view_of(k: TessellationKey) -> KeyView {
    k.key_view()
}

/// The hash-keyed solid tessellation cache: bounded by bytes, evicted
/// least-recently-used; refusals are cached too, as entries under the same
/// key and the same eviction; a tessellation larger than the whole budget
/// is served but never kept. Resizable ([`Self::set_budget`]) and
/// watchable ([`Self::watch`]).
pub struct SolidCache {
    /// Least recently used first.
    entries: Vec<Entry>,
    bytes: usize,
    refusals: usize,
    budget: usize,
    watched: Vec<TessellationKey>,
    watched_evictions: u64,
    hits: u64,
    misses: u64,
    evictions: u64,
    oversized: u64,
}

/// The cache's counters.
#[derive(Debug, Clone, PartialEq, Eq, Structural)]
pub struct SolidCacheStats {
    /// Entries held (meshes and refusals).
    pub entries: usize,
    /// Bytes held; never above `budget`.
    pub bytes: usize,
    /// The byte budget.
    pub budget: usize,
    /// Lookups served from the cache.
    pub hits: u64,
    /// Lookups that called the kernel.
    pub misses: u64,
    /// Entries evicted to stay within budget.
    pub evictions: u64,
    /// Tessellations larger than the whole budget.
    pub oversized: u64,
    /// Refusals held.
    pub refusals: usize,
}

/// How a tessellation was answered: from the cache, or by the kernel.
#[derive(Debug, Clone, Copy, PartialEq, Eq, Structural)]
pub enum Served {
    /// A cache hit (a cached refusal is a hit too).
    Hit,
    /// A kernel call.
    Miss,
}

impl SolidCache {
    /// The cache as plain values.
    pub closed spec fn model(&self) -> CacheView {
        CacheView {
            items: self.entries@.map_values(|e: Entry| item_of(e)),
            budget: self.budget as nat,
            watched: self.watched@.map_values(|k: TessellationKey| key_view_of(k)),
            watched_evictions: self.watched_evictions,
            hits: self.hits,
            misses: self.misses,
            evictions: self.evictions,
            oversized: self.oversized,
        }
    }

    /// Everything but the budget bound.
    closed spec fn consistent(&self) -> bool {
        &&& keys_distinct(self.model().items)
        &&& forall|i: int|
            0 <= i < self.entries@.len() ==> #[trigger] self.entries@[i].size == cached_size(
                self.entries@[i].cached,
            )
        &&& self.bytes == held_bytes(self.model().items)
        &&& self.refusals == refusals_held(self.model().items)
    }

    /// The cache's internal agreement: the counts match the entries, no key
    /// is held twice, every entry's size is its footprint, and the held
    /// bytes fit the budget.
    pub closed spec fn wf(&self) -> bool {
        &&& self.consistent()
        &&& self.bytes <= self.budget
    }
}

proof fn lemma_held_bytes_push(items: Seq<CacheItem>, x: CacheItem)
    ensures
        held_bytes(items.push(x)) == held_bytes(items) + x.size,
        refusals_held(items.push(x)) == refusals_held(items) + (if x.cached is Refused {
            1nat
        } else {
            0nat
        }),
    decreases items.len(),
{
    if items.len() > 0 {
        assert(items.push(x).drop_first() =~= items.drop_first().push(x));
        assert(items.push(x)[0] == items[0]);
        lemma_held_bytes_push(items.drop_first(), x);
    } else {
        assert(items.push(x).drop_first() =~= Seq::<CacheItem>::empty());
        assert(items.push(x)[0] == x);
        assert(held_bytes(Seq::<CacheItem>::empty()) == 0);
        assert(refusals_held(Seq::<CacheItem>::empty()) == 0);
    }
}

proof fn lemma_held_bytes_remove(items: Seq<CacheItem>, i: int)
    requires
        0 <= i < items.len(),
    ensures
        held_bytes(items.remove(i)) + items[i].size == held_bytes(items),
        refusals_held(items.remove(i)) + (if items[i].cached is Refused {
            1nat
        } else {
            0nat
        }) == refusals_held(items),
    decreases items.len(),
{
    if i == 0 {
        assert(items.remove(0) =~= items.drop_first());
    } else {
        assert(items.remove(i).drop_first() =~= items.drop_first().remove(i - 1));
        assert(items.remove(i)[0] == items[0]);
        lemma_held_bytes_remove(items.drop_first(), i - 1);
    }
}

/// Moving an entry to the most recent end changes neither the bytes, the
/// refusals nor the keys' distinctness.
proof fn lemma_touch_keeps_counts(items: Seq<CacheItem>, key: KeyView)
    requires
        keys_distinct(items),
    ensures
        held_bytes(touched(items, key)) == held_bytes(items),
        refusals_held(touched(items, key)) == refusals_held(items),
        keys_distinct(touched(items, key)),
        touched(items, key).len() == items.len(),
        forall|k: KeyView| holds(touched(items, key), k) <==> holds(items, k),
{
    if holds(items, key) {
        let i = place_of(items, key);
        let rest = items.remove(i);
        lemma_held_bytes_remove(items, i);
        lemma_held_bytes_push(rest, items[i]);
        let after = rest.push(items[i]);
        assert forall|a: int, b: int| 0 <= a < b < after.len() implies after[a].key != after[b].key by {
            let a0 = if a < i { a } else { a + 1 };
            let b0 = if b == after.len() - 1 { i } else if b < i { b } else { b + 1 };
            assert(after[a] == items[a0]);
            assert(after[b] == items[b0]);
            assert(a0 != b0);
        }
        assert forall|k: KeyView| holds(after, k) <==> holds(items, k) by {
            if holds(items, k) {
                let j = choose|j: int| 0 <= j < items.len() && items[j].key == k;
                if j == i {
                    assert(after[after.len() - 1].key == k);
                } else if j < i {
                    assert(after[j].key == k);
                } else {
                    assert(after[j - 1].key == k);
                }
            }
            if holds(after, k) {
                let j = choose|j: int| 0 <= j < after.len() && after[j].key == k;
                if j == after.len() - 1 {
                    assert(items[i].key == k);
                } else if j < i {
                    assert(items[j].key == k);
                } else {
                    assert(items[j + 1].key == k);
                }
            }
        }
    }
}

/// Evictions leave a suffix that fits, or nothing.
proof fn lemma_evicted_fits(items: Seq<CacheItem>, incoming: nat, budget: nat)
    ensures
        evicted_for(items, incoming, budget) <= items.len(),
        items.skip(evicted_for(items, incoming, budget) as int).len() == 0 || held_bytes(
            items.skip(evicted_for(items, incoming, budget) as int),
        ) + incoming <= budget,
    decreases items.len(),
{
    if items.len() == 0 || held_bytes(items) + incoming <= budget {
        assert(items.skip(0) =~= items);
    } else {
        lemma_evicted_fits(items.drop_first(), incoming, budget);
        let n = evicted_for(items.drop_first(), incoming, budget);
        assert(items.skip(n + 1int) =~= items.drop_first().skip(n as int));
    }
}

/// No fewer evictions would do: with one entry fewer evicted, the bytes
/// would not fit.
proof fn lemma_evicted_minimal(items: Seq<CacheItem>, incoming: nat, budget: nat)
    ensures
        evicted_for(items, incoming, budget) > 0 ==> held_bytes(
            items.skip(evicted_for(items, incoming, budget) - 1),
        ) + incoming > budget,
    decreases items.len(),
{
    if items.len() > 0 && held_bytes(items) + incoming > budget {
        let rest = items.drop_first();
        lemma_evicted_minimal(rest, incoming, budget);
        lemma_evicted_fits(rest, incoming, budget);
        let m = evicted_for(rest, incoming, budget);
        if m == 0 {
            assert(items.skip(0) =~= items);
        } else {
            assert(items.skip(m as int) =~= rest.skip(m - 1));
        }
    }
}

/// A prefix count grows by the next element.
proof fn lemma_watched_in_take(items: Seq<CacheItem>, k: int, watched: Seq<KeyView>)
    requires
        0 <= k < items.len(),
    ensures
        watched_in(items.take(k + 1), watched) == watched_in(items.take(k), watched) + (if watched.contains(
            items[k].key,
        ) {
            1nat
        } else {
            0nat
        }),
{
    assert(items.take(k + 1).drop_last() =~= items.take(k));
}

proof fn lemma_bumped_step(x: u64, n: nat)
    ensures
        bumped(x, n + 1) == (if bumped(x, n) == u64::MAX {
            0
        } else {
            (bumped(x, n) + 1) as u64
        }),
{
    assert((n + 1 - 1) as nat == n);
}

impl SolidCache {
    /// An empty cache with a byte budget.
    pub fn new(budget: usize) -> (cache: SolidCache)
        ensures
            cache.wf(),
            cache.model() == (CacheView {
                items: Seq::empty(),
                budget: budget as nat,
                watched: Seq::empty(),
                watched_evictions: 0,
                hits: 0,
                misses: 0,
                evictions: 0,
                oversized: 0,
            }),
    {
        let cache = SolidCache {
            entries: Vec::new(),
            bytes: 0,
            refusals: 0,
            budget,
            watched: Vec::new(),
            watched_evictions: 0,
            hits: 0,
            misses: 0,
            evictions: 0,
            oversized: 0,
        };
        assert(cache.model().items =~= Seq::<CacheItem>::empty());
        assert(cache.model().watched =~= Seq::<KeyView>::empty());
        cache
    }

    /// The byte budget.
    pub fn budget(&self) -> (budget: usize)
        ensures
            budget == self.model().budget,
    {
        self.budget
    }

    /// Where `key` is held, if it is.
    fn find(&self, key: &TessellationKey) -> (found: Option<usize>)
        requires
            keys_distinct(self.model().items),
        ensures
            found matches Some(i) ==> i < self.entries@.len() && holds(self.model().items, key.key_view())
                && place_of(self.model().items, key.key_view()) == i,
            found is None ==> !holds(self.model().items, key.key_view()),
    {
        let ghost items = self.model().items;
        let mut i: usize = 0;
        while i < self.entries.len()
            invariant
                0 <= i <= self.entries@.len(),
                items == self.model().items,
                items.len() == self.entries@.len(),
                keys_distinct(items),
                forall|j: int| 0 <= j < i ==> items[j].key != key.key_view(),
            decreases self.entries@.len() - i,
        {
            assert(items[i as int] == item_of(self.entries@[i as int]));
            if self.entries[i].key.same(key) {
                proof {
                    assert(items[i as int].key == key.key_view());
                    let p = place_of(items, key.key_view());
                    assert(0 <= p < items.len() && items[p].key == key.key_view());
                    if p != i {
                        if p < i {
                            assert(false);
                        } else {
                            assert(items[i as int].key != items[p].key);
                        }
                    }
                }
                return Some(i);
            }
            i += 1;
        }
        None
    }

    /// Is `key` among the watched keys?
    fn is_watched(&self, key: &TessellationKey) -> (watched: bool)
        ensures
            watched == self.model().watched.contains(key.key_view()),
    {
        let ghost w = self.model().watched;
        let mut i: usize = 0;
        while i < self.watched.len()
            invariant
                0 <= i <= self.watched@.len(),
                w == self.model().watched,
                w.len() == self.watched@.len(),
                forall|j: int| 0 <= j < i ==> w[j] != key.key_view(),
            decreases self.watched@.len() - i,
        {
            assert(w[i as int] == key_view_of(self.watched@[i as int]));
            if self.watched[i].same(key) {
                assert(w[i as int] == key.key_view());
                return true;
            }
            i += 1;
        }
        assert forall|j: int| 0 <= j < w.len() implies w[j] != key.key_view() by {}
        false
    }

    /// Evict least-recently-used entries until `incoming` more bytes fit
    /// the budget; counts evictions (and those of watched entries).
    fn make_room(&mut self, incoming: usize) -> (n: usize)
        requires
            old(self).consistent(),
        ensures
            final(self).consistent(),
            final(self).model() == old(self).model().after_make_room(incoming as nat),
            n == evicted_for(old(self).model().items, incoming as nat, old(self).model().budget),
            final(self).model().items.len() == 0 || final(self).model().bytes() + incoming
                <= final(self).model().budget,
    {
        let ghost start = self.model();
        let held = self.entries.len();
        assert(start.items.len() == held);
        let mut n: usize = 0;
        proof {
            lemma_evicted_fits(start.items, incoming as nat, start.budget);
            assert(start.items.skip(0) =~= start.items);
            assert(start.items.take(0) =~= Seq::<CacheItem>::empty());
        }
        while self.entries.len() > 0 && (self.bytes > self.budget || incoming > self.budget
            - self.bytes)
            invariant
                self.consistent(),
                0 <= n <= start.items.len(),
                start.items.len() <= usize::MAX,
                self.model().items == start.items.skip(n as int),
                self.model().budget == start.budget,
                self.model().watched == start.watched,
                self.model().hits == start.hits,
                self.model().misses == start.misses,
                self.model().oversized == start.oversized,
                self.model().evictions == bumped(start.evictions, n as nat),
                self.model().watched_evictions == bumped(
                    start.watched_evictions,
                    watched_in(start.items.take(n as int), start.watched),
                ),
                evicted_for(start.items, incoming as nat, start.budget) == n + evicted_for(
                    self.model().items,
                    incoming as nat,
                    start.budget,
                ),
            decreases self.entries@.len(),
        {
            let ghost items = self.model().items;
            assert(items.len() == start.items.len() - n);
            assert(items[0] == start.items[n as int]);
            let evicted = self.entries.remove(0);
            proof {
                assert(self.model().items =~= items.drop_first());
                assert(items.drop_first() =~= start.items.skip(n + 1));
                lemma_watched_in_take(start.items, n as int, start.watched);
                lemma_bumped_step(start.evictions, n as nat);
                assert(item_of(evicted) == items[0]);
            }
            self.bytes = self.bytes - evicted.size;
            if let Cached::Refused(_) = evicted.cached {
                self.refusals = self.refusals - 1;
            }
            if self.is_watched(&evicted.key) {
                proof {
                    lemma_bumped_step(
                        start.watched_evictions,
                        watched_in(start.items.take(n as int), start.watched),
                    );
                }
                self.watched_evictions = self.watched_evictions.wrapping_add(1);
            }
            self.evictions = self.evictions.wrapping_add(1);
            proof {
                assert forall|a: int, b: int|
                    0 <= a < b < self.model().items.len() implies self.model().items[a].key
                    != self.model().items[b].key by {
                    assert(self.model().items[a] == items[a + 1]);
                    assert(self.model().items[b] == items[b + 1]);
                }
            }
            n = n + 1;
        }
        proof {
            lemma_evicted_fits(start.items, incoming as nat, start.budget);
        }
        n
    }

    /// Make `key` the most recently used entry, if it is held.
    fn touch(&mut self, key: &TessellationKey)
        requires
            old(self).consistent(),
        ensures
            final(self).consistent(),
            final(self).model() == (CacheView {
                items: touched(old(self).model().items, key.key_view()),
                ..old(self).model()
            }),
    {
        let ghost before = self.model();
        proof {
            lemma_touch_keeps_counts(before.items, key.key_view());
        }
        if let Some(i) = self.find(key) {
            let e = self.entries.remove(i);
            self.entries.push(e);
            proof {
                assert(item_of(e) == before.items[i as int]);
                assert(self.model().items =~= before.items.remove(i as int).push(before.items[i as int]));
                assert forall|j: int| 0 <= j < self.entries@.len() implies #[trigger] self.entries@[j].size
                    == cached_size(self.entries@[j].cached) by {
                    assert(self.model().items[j] == item_of(self.entries@[j]));
                }
            }
        }
        assert(self.model() == (CacheView { items: touched(before.items, key.key_view()), ..before }));
    }

    /// The entry under `key`, made the most recently used; `None` when it
    /// is not held. Counts nothing.
    pub fn lookup(&mut self, key: TessellationKey) -> (found: Option<Cached>)
        requires
            old(self).wf(),
        ensures
            final(self).wf(),
            found == old(self).model().found(key.key_view()),
            final(self).model() == old(self).model().after_lookup(key.key_view()),
    {
        let ghost before = self.model();
        match self.find(&key) {
            None => {
                assert(self.model() == before.after_lookup(key.key_view()));
                None
            },
            Some(i) => {
                let found = copy_cached(&self.entries[i].cached);
                assert(item_of(self.entries@[i as int]) == before.items[i as int]);
                self.touch(&key);
                proof {
                    lemma_touch_keeps_counts(before.items, key.key_view());
                }
                Some(found)
            },
        }
    }

    /// Offer `cached` under `key`. An entry larger than the whole budget is
    /// counted (`oversized`) and not kept; a key already held keeps the
    /// entry it has; otherwise least-recently-used entries are evicted
    /// until it fits, and it becomes the most recently used.
    pub fn insert(&mut self, key: TessellationKey, cached: Cached)
        requires
            old(self).wf(),
            old(self).model().items.len() < usize::MAX,
        ensures
            final(self).wf(),
            final(self).model() == old(self).model().after_insert(key.key_view(), cached),
    {
        let ghost before = self.model();
        let size = size_of_cached(&cached);
        if size > self.budget {
            self.oversized = self.oversized.wrapping_add(1);
            proof {
                lemma_bumped_step(before.oversized, 0);
            }
            return;
        }
        if self.find(&key).is_some() {
            return;
        }
        let _evicted = self.make_room(size);
        let ghost roomy = self.model();
        proof {
            lemma_refusals_bounded(roomy.items);
            let n = evicted_for(before.items, size as nat, before.budget);
            lemma_evicted_fits(before.items, size as nat, before.budget);
            assert forall|j: int| 0 <= j < roomy.items.len() implies roomy.items[j].key != key.key_view() by {
                assert(roomy.items[j] == before.items[j + n]);
            }
        }
        let refused = match &cached {
            Cached::Refused(_) => true,
            Cached::Mesh(_) => false,
        };
        if refused {
            self.refusals = self.refusals + 1;
        }
        let ghost entry = Entry { key, cached, size };
        self.entries.push(Entry { key, cached, size });
        self.bytes = self.bytes + size;
        proof {
            let item = CacheItem { key: key.key_view(), cached, size: size as nat };
            assert(item_of(entry) == item);
            assert(self.model().items =~= roomy.items.push(item));
            lemma_held_bytes_push(roomy.items, item);
            assert forall|j: int| 0 <= j < self.entries@.len() implies #[trigger] self.entries@[j].size
                == cached_size(self.entries@[j].cached) by {
                if j < roomy.items.len() {
                    assert(self.model().items[j] == roomy.items[j]);
                    assert(self.model().items[j] == item_of(self.entries@[j]));
                }
            }
            assert forall|a: int, b: int|
                0 <= a < b < self.model().items.len() implies self.model().items[a].key
                != self.model().items[b].key by {
                if b == roomy.items.len() {
                    assert(self.model().items[a] == roomy.items[a]);
                } else {
                    assert(self.model().items[a] == roomy.items[a]);
                    assert(self.model().items[b] == roomy.items[b]);
                }
            }
        }
    }

    /// Resize the budget: shrinking evicts least-recently-used entries at
    /// once until the held bytes fit (counted like any eviction); growing
    /// evicts nothing. Returns how many entries the resize evicted.
    pub fn set_budget(&mut self, budget: usize) -> (evicted: u64)
        requires
            old(self).wf(),
        ensures
            final(self).wf(),
            final(self).model() == old(self).model().after_set_budget(budget as nat),
            evicted == evicted_for(old(self).model().items, 0, budget as nat),
    {
        self.budget = budget;
        let n = self.make_room(0);
        n as u64
    }

    /// Is `key` among `list`?
    fn listed(list: &Vec<TessellationKey>, key: &TessellationKey) -> (listed: bool)
        ensures
            listed == list@.map_values(|k: TessellationKey| key_view_of(k)).contains(key.key_view()),
    {
        let ghost views = list@.map_values(|k: TessellationKey| key_view_of(k));
        let mut i: usize = 0;
        while i < list.len()
            invariant
                0 <= i <= list@.len(),
                views == list@.map_values(|k: TessellationKey| key_view_of(k)),
                forall|j: int| 0 <= j < i ==> views[j] != key.key_view(),
            decreases list@.len() - i,
        {
            if list[i].same(key) {
                assert(views[i as int] == key.key_view());
                return true;
            }
            i += 1;
        }
        false
    }

    /// Watch `keys`, the picture on screen: from now on an eviction of any
    /// of them counts in [`Self::watched_evictions`] (the previous count is
    /// reset), and each of them held is touched, so the picture is the
    /// newest thing in the cache.
    pub fn watch(&mut self, keys: &[TessellationKey])
        requires
            old(self).wf(),
        ensures
            final(self).wf(),
            final(self).model() == old(self).model().after_watch(
                keys@.map_values(|k: TessellationKey| key_view_of(k)),
            ),
    {
        let ghost before = self.model();
        let ghost views = keys@.map_values(|k: TessellationKey| key_view_of(k));
        let mut watched: Vec<TessellationKey> = Vec::new();
        let mut k: usize = 0;
        assert(views.take(0) =~= Seq::<KeyView>::empty());
        assert(watched@.map_values(|k: TessellationKey| key_view_of(k)) =~= Seq::<KeyView>::empty());
        while k < keys.len()
            invariant
                0 <= k <= keys@.len(),
                self.wf(),
                views == keys@.map_values(|k: TessellationKey| key_view_of(k)),
                watched@.map_values(|k: TessellationKey| key_view_of(k)) == first_occurrences(
                    views.take(k as int),
                ),
                self.model() == (CacheView {
                    items: touched_all(before.items, first_occurrences(views.take(k as int))),
                    ..before
                }),
            decreases keys@.len() - k,
        {
            let key = keys[k];
            let ghost earlier = first_occurrences(views.take(k as int));
            proof {
                assert(views.take(k + 1).drop_last() =~= views.take(k as int));
                assert(views.take(k + 1).last() == key.key_view());
            }
            if !Self::listed(&watched, &key) {
                let ghost old_watched = watched@;
                watched.push(key);
                self.touch(&key);
                proof {
                    assert(watched@.map_values(|k: TessellationKey| key_view_of(k)) =~= earlier.push(
                        key.key_view(),
                    ));
                    assert(earlier.push(key.key_view()).drop_last() =~= earlier);
                    lemma_touch_keeps_counts(
                        touched_all(before.items, earlier),
                        key.key_view(),
                    );
                }
            }
            k += 1;
        }
        assert(views.take(keys@.len() as int) =~= views);
        self.watched = watched;
        self.watched_evictions = 0;
    }

    /// Evictions of watched entries since the watch was set.
    pub fn watched_evictions(&self) -> (n: u64)
        ensures
            n == self.model().watched_evictions,
    {
        self.watched_evictions
    }

    /// Is `key` held right now? A read that touches no recency.
    pub fn contains(&self, key: TessellationKey) -> (held: bool)
        requires
            self.wf(),
        ensures
            held == holds(self.model().items, key.key_view()),
    {
        self.find(&key).is_some()
    }

    /// The cache's answer for `key`, when it has one: the hit path of a
    /// tessellation. A hit is counted and makes the entry the most
    /// recently used; a cached refusal is a hit too.
    pub fn tessellation_cached(&mut self, key: TessellationKey) -> (found: Option<
        Result<Arc<DisplayMesh>, String>,
    >)
        requires
            old(self).wf(),
        ensures
            final(self).wf(),
            found == (match old(self).model().found(key.key_view()) {
                Some(c) => Some(as_result(c)),
                None => None,
            }),
            final(self).model() == (if old(self).model().found(key.key_view()) is Some {
                CacheView {
                    hits: bumped(old(self).model().hits, 1),
                    ..old(self).model().after_lookup(key.key_view())
                }
            } else {
                old(self).model()
            }),
    {
        let ghost before = self.model();
        match self.lookup(key) {
            None => {
                assert(touched(before.items, key.key_view()) == before.items);
                assert(self.model() == before);
                None
            },
            Some(cached) => {
                proof {
                    lemma_bumped_step(before.hits, 0);
                }
                self.hits = self.hits.wrapping_add(1);
                Some(
                    match cached {
                        Cached::Mesh(mesh) => Ok(mesh),
                        Cached::Refused(reason) => Err(reason),
                    },
                )
            },
        }
    }

    /// The miss path of a tessellation: the kernel's answer for `key`
    /// (computed by the caller) is counted as a miss, cached (a refusal
    /// too) and handed back.
    pub fn tessellation_computed(&mut self, key: TessellationKey, computed: Result<DisplayMesh, String>) -> (result:
        Result<Arc<DisplayMesh>, String>)
        requires
            old(self).wf(),
            old(self).model().items.len() < usize::MAX,
        ensures
            final(self).wf(),
            match computed {
                Ok(mesh) => result matches Ok(shared) && *shared == mesh,
                Err(reason) => result == Err::<Arc<DisplayMesh>, String>(reason),
            },
            final(self).model() == (CacheView {
                misses: bumped(old(self).model().misses, 1),
                ..old(self).model()
            }).after_insert(key.key_view(), cached_of(result)),
    {
        proof {
            lemma_bumped_step(self.model().misses, 0);
        }
        self.misses = self.misses.wrapping_add(1);
        match computed {
            Ok(mesh) => {
                let mesh = Arc::new(mesh);
                self.insert(key, Cached::Mesh(share(&mesh)));
                Ok(mesh)
            },
            Err(reason) => {
                self.insert(key, Cached::Refused(reason.clone()));
                Err(reason)
            },
        }
    }

    /// The display mesh a summary reads: whatever is cached for the solid
    /// at either tier (the fine one preferred), a read and never a kernel
    /// call; `None` when no display pass has meshed it.
    pub fn tessellation_for_summary(&mut self, fine: TessellationKey, preview: TessellationKey) -> (found:
        Option<Result<Arc<DisplayMesh>, String>>)
        requires
            old(self).wf(),
        ensures
            final(self).wf(),
            found == (match old(self).model().found(fine.key_view()) {
                Some(c) => Some(as_result(c)),
                None => match old(self).model().found(preview.key_view()) {
                    Some(c) => Some(as_result(c)),
                    None => None,
                },
            }),
            final(self).model() == (if old(self).model().found(fine.key_view()) is Some {
                CacheView {
                    hits: bumped(old(self).model().hits, 1),
                    ..old(self).model().after_lookup(fine.key_view())
                }
            } else if old(self).model().found(preview.key_view()) is Some {
                CacheView {
                    hits: bumped(old(self).model().hits, 1),
                    ..old(self).model().after_lookup(preview.key_view())
                }
            } else {
                old(self).model()
            }),
    {
        match self.tessellation_cached(fine) {
            Some(found) => Some(found),
            None => self.tessellation_cached(preview),
        }
    }

    /// The counters.
    pub fn stats(&self) -> (stats: SolidCacheStats)
        requires
            self.wf(),
        ensures
            stats.entries == self.model().items.len(),
            stats.bytes == self.model().bytes(),
            stats.budget == self.model().budget,
            stats.hits == self.model().hits,
            stats.misses == self.model().misses,
            stats.evictions == self.model().evictions,
            stats.oversized == self.model().oversized,
            stats.refusals == refusals_held(self.model().items),
    {
        SolidCacheStats {
            entries: self.entries.len(),
            bytes: self.bytes,
            budget: self.budget,
            hits: self.hits,
            misses: self.misses,
            evictions: self.evictions,
            oversized: self.oversized,
            refusals: self.refusals,
        }
    }
}


impl Default for SolidCache {
    fn default() -> (cache: SolidCache)
        ensures
            cache.wf(),
            cache.model().items.len() == 0,
            cache.model().budget == SOLID_CACHE_BUDGET,
    {
        SolidCache::new(SOLID_CACHE_BUDGET)
    }
}

// ---------------------------------------------------------------------
// What the cache promises
// ---------------------------------------------------------------------

impl SolidCache {
    /// A cache never holds more bytes than its budget, never holds a key
    /// twice, and holds no more refusals than entries.
    pub proof fn lemma_within_budget(&self)
        requires
            self.wf(),
        ensures
            self.model().bytes() <= self.model().budget,
            keys_distinct(self.model().items),
            refusals_held(self.model().items) <= self.model().items.len(),
    {
        lemma_refusals_bounded(self.model().items);
    }
}

/// What an insert keeps is what a lookup then finds: an entry that fits
/// the budget, offered under a key not held, is held afterwards as the
/// most recently used entry, and a lookup finds exactly it.
pub proof fn lemma_insert_then_lookup(v: CacheView, key: KeyView, cached: Cached)
    requires
        keys_distinct(v.items),
        cached_size(cached) <= v.budget,
        !holds(v.items, key),
    ensures
        holds(v.after_insert(key, cached).items, key),
        v.after_insert(key, cached).items.last().key == key,
        v.after_insert(key, cached).found(key) == Some(cached),
{
    let after = v.after_insert(key, cached).items;
    let n = evicted_for(v.items, cached_size(cached), v.budget);
    lemma_evicted_fits(v.items, cached_size(cached), v.budget);
    let last = after.len() - 1;
    assert(after[last].key == key);
    let p = place_of(after, key);
    assert(0 <= p < after.len() && after[p].key == key);
    if p != last {
        assert(after[p] == v.items[p + n]);
        assert(false);
    }
}

/// An entry larger than the whole budget is served but never kept: the
/// insert evicts nothing, keeps nothing and counts it.
pub proof fn lemma_oversized_is_never_kept(v: CacheView, key: KeyView, cached: Cached)
    requires
        cached_size(cached) > v.budget,
    ensures
        v.after_insert(key, cached).items == v.items,
        v.after_insert(key, cached).evictions == v.evictions,
        v.after_insert(key, cached).oversized == bumped(v.oversized, 1),
{
}

/// Evictions go least recently used first: whenever an insert evicts an
/// entry, every entry used less recently than it was evicted too, and the
/// survivors keep their order.
pub proof fn lemma_insert_evicts_least_recently_used_first(
    v: CacheView,
    key: KeyView,
    cached: Cached,
    i: int,
    j: int,
)
    requires
        keys_distinct(v.items),
        0 <= i < j < v.items.len(),
        !holds(v.after_insert(key, cached).items, v.items[j].key),
    ensures
        !holds(v.after_insert(key, cached).items, v.items[i].key),
{
    let size = cached_size(cached);
    if size > v.budget || holds(v.items, key) {
        assert(holds(v.items, v.items[j].key));
    } else {
        let n = evicted_for(v.items, size, v.budget);
        lemma_evicted_fits(v.items, size, v.budget);
        let after = v.after_insert(key, cached).items;
        if j >= n {
            assert(after[j - n] == v.items[j]);
            assert(false);
        }
        if holds(after, v.items[i].key) {
            let p = choose|p: int| 0 <= p < after.len() && after[p].key == v.items[i].key;
            if p < after.len() - 1 {
                assert(after[p] == v.items[p + n]);
                assert(p + n != i);
            } else {
                assert(after[p].key == key);
                assert(holds(v.items, key));
            }
        }
    }
}

/// Growing the budget, or any budget the held bytes already fit, evicts
/// nothing; shrinking evicts the `n` least-recently-used entries, the
/// fewest that make the held bytes fit, counts them as evictions, counts
/// the watched ones among them, and keeps the rest in order.
pub proof fn lemma_resize_evicts_only_what_does_not_fit(v: CacheView, budget: nat)
    ensures
        v.bytes() <= budget ==> v.after_set_budget(budget).items == v.items
            && v.after_set_budget(budget).evictions == v.evictions,
        v.after_set_budget(budget).bytes() <= budget,
        v.after_set_budget(budget).budget == budget,
        ({
            let n = evicted_for(v.items, 0, budget);
            &&& n <= v.items.len()
            &&& v.after_set_budget(budget).items == v.items.skip(n as int)
            &&& v.after_set_budget(budget).evictions == bumped(v.evictions, n)
            &&& v.after_set_budget(budget).watched_evictions == bumped(
                v.watched_evictions,
                watched_in(v.items.take(n as int), v.watched),
            )
            &&& n > 0 ==> held_bytes(v.items.skip(n - 1)) > budget
        }),
{
    let w = CacheView { budget, ..v };
    lemma_evicted_fits(v.items, 0, budget);
    lemma_evicted_minimal(v.items, 0, budget);
    if v.bytes() <= budget {
        assert(v.items.skip(0) =~= v.items);
        assert(v.items.take(0) =~= Seq::<CacheItem>::empty());
    }
    let n = evicted_for(v.items, 0, budget);
    if v.items.skip(n as int).len() == 0 {
        assert(held_bytes(v.items.skip(n as int)) == 0);
    }
}

/// A lookup that finds its entry makes it the most recently used and
/// changes nothing else that is held.
pub proof fn lemma_lookup_makes_most_recent(v: CacheView, key: KeyView)
    requires
        keys_distinct(v.items),
        holds(v.items, key),
    ensures
        v.after_lookup(key).items.last().key == key,
        v.after_lookup(key).bytes() == v.bytes(),
        forall|k: KeyView| holds(v.after_lookup(key).items, k) <==> holds(v.items, k),
{
    lemma_touch_keeps_counts(v.items, key);
}

/// `keys` without repeats holds what `keys` holds, once each.
proof fn lemma_first_occurrences(keys: Seq<KeyView>)
    ensures
        forall|k: KeyView| first_occurrences(keys).contains(k) <==> keys.contains(k),
        first_occurrences(keys).no_duplicates(),
    decreases keys.len(),
{
    if keys.len() > 0 {
        let earlier = first_occurrences(keys.drop_last());
        lemma_first_occurrences(keys.drop_last());
        assert forall|k: KeyView| first_occurrences(keys).contains(k) <==> keys.contains(k) by {
            if keys.contains(k) {
                let i = choose|i: int| 0 <= i < keys.len() && keys[i] == k;
                if i < keys.len() - 1 {
                    assert(keys.drop_last()[i] == k);
                }
            }
            if keys.drop_last().contains(k) {
                let i = choose|i: int| 0 <= i < keys.drop_last().len() && keys.drop_last()[i] == k;
                assert(keys[i] == k);
            }
            if !earlier.contains(keys.last()) {
                if earlier.push(keys.last()).contains(k) {
                    let i = choose|i: int| 0 <= i < earlier.push(keys.last()).len() && earlier.push(keys.last())[i] == k;
                    if i < earlier.len() {
                        assert(earlier[i] == k);
                    }
                }
                if earlier.contains(k) {
                    let i = choose|i: int| 0 <= i < earlier.len() && earlier[i] == k;
                    assert(earlier.push(keys.last())[i] == k);
                }
                assert(earlier.push(keys.last())[earlier.len() as int] == keys.last());
            }
        }
    }
}

/// The keys in `watched` sit behind every other key.
pub open spec fn newest_are(items: Seq<CacheItem>, watched: Seq<KeyView>) -> bool {
    forall|p: int, q: int|
        0 <= p < q < items.len() && watched.contains(items[p].key) ==> watched.contains(
            items[q].key,
        )
}

proof fn lemma_touched_all(items: Seq<CacheItem>, keys: Seq<KeyView>)
    requires
        keys_distinct(items),
    ensures
        keys_distinct(touched_all(items, keys)),
        held_bytes(touched_all(items, keys)) == held_bytes(items),
        forall|k: KeyView| holds(touched_all(items, keys), k) <==> holds(items, k),
        newest_are(touched_all(items, keys), keys),
    decreases keys.len(),
{
    if keys.len() == 0 {
    } else {
        let ks = keys.drop_last();
        let x = keys.last();
        lemma_touched_all(items, ks);
        let before = touched_all(items, ks);
        lemma_touch_keeps_counts(before, x);
        let after = touched(before, x);
        assert forall|k: KeyView| keys.contains(k) <==> (ks.contains(k) || k == x) by {
            if keys.contains(k) {
                let i = choose|i: int| 0 <= i < keys.len() && keys[i] == k;
                if i < keys.len() - 1 {
                    assert(ks[i] == k);
                }
            }
            if ks.contains(k) {
                let i = choose|i: int| 0 <= i < ks.len() && ks[i] == k;
                assert(keys[i] == k);
            }
            assert(keys[keys.len() - 1] == x);
        }
        if holds(before, x) {
            let i = place_of(before, x);
            assert forall|p: int, q: int|
                0 <= p < q < after.len() && keys.contains(after[p].key) implies keys.contains(
                after[q].key,
            ) by {
                if q == after.len() - 1 {
                    assert(after[q] == before[i]);
                } else {
                    let p0 = if p < i { p } else { p + 1 };
                    let q0 = if q < i { q } else { q + 1 };
                    assert(after[p] == before[p0]);
                    assert(after[q] == before[q0]);
                    if after[p].key == x {
                        assert(before[p0].key == before[i].key);
                        assert(p0 != i);
                    }
                }
            }
        } else {
            assert forall|p: int, q: int|
                0 <= p < q < after.len() && keys.contains(after[p].key) implies keys.contains(
                after[q].key,
            ) by {
                if after[p].key == x {
                    assert(holds(before, x));
                }
            }
        }
    }
}

/// Watching makes the picture the newest thing in the cache: every held
/// watched entry is more recent than every unwatched one, nothing is
/// evicted or added, and the watched-eviction count starts again at 0.
pub proof fn lemma_watch_puts_the_picture_last(v: CacheView, keys: Seq<KeyView>)
    requires
        keys_distinct(v.items),
    ensures
        newest_are(v.after_watch(keys).items, keys),
        forall|k: KeyView| holds(v.after_watch(keys).items, k) <==> holds(v.items, k),
        v.after_watch(keys).bytes() == v.bytes(),
        v.after_watch(keys).watched_evictions == 0,
{
    let d = first_occurrences(keys);
    lemma_first_occurrences(keys);
    lemma_touched_all(v.items, d);
}

} // verus!
