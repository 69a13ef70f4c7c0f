//! Binary geometry frames — typed arrays ready for GPU upload, zero
//! parsing on the client beyond the header. This module IS the byte-exact
//! format; the decoder keeps the encoders honest (every encoding decodes
//! back to what was encoded — the round-trip lemmas below).
//!
//! All integers are **little-endian**; positions and transforms travel as
//! the IEEE-754 bit patterns of `f32`s (here: their `u32` bits). Every
//! array starts at a 4-byte-aligned offset.
//!
//! ```text
//! Header (32 bytes, every frame)
//!   0  u32  magic          = 0x4643_4943  (the bytes "CICF")
//!   4  u16  version        = 1
//!   6  u16  kind           1 mesh · 2 curve · 3 point · 4 clear · 5 mesh_blob · 6 instances
//!   8  u64  generation
//!  16  u32  node
//!  20  u32  output
//!  24  u32  element_start
//!  28  u32  element_count
//!
//! Batch body (kinds 1–3)
//!  32  u32  E   element-table entries
//!  36  u32  V   vertices
//!  40  u32  I   indices
//!  44  E × { u32 element_index, u32 pick_id, u32 vertex_start, u32 vertex_count,
//!            u32 index_start, u32 index_count }                          (24 bytes each)
//!      f32  positions[3·V] · u32 indices[I] · u32 pick_ids[V]
//!
//! Clear (kind 4): no body.
//!
//! Mesh blob (kind 5)
//!  32  [32] hash · 64 u32 V · 68 u32 I · 72 f32 positions[3·V] · u32 indices[I]
//!
//! Instances (kind 6)
//!  32  [32] hash · 64 u32 N
//!  68  N × { u32 element_index, u32 pick_id, f32 transform[12] }   (56 bytes each)
//! ```
use vstd::prelude::*;

use crate::bytes::{
    group_byte_lengths, lemma_holds_self, lemma_holds_bounds, read_u16, read_u32, read_u64, holds_at, lemma_cat, lemma_holds_inner, le16, le32, le32s, le64, lemma_le32s_len, lemma_le32_bytes, lemma_prefix_reads, lemma_read_u16, lemma_read_u32, lemma_read_u32s,
    lemma_read_u64, push_u16, push_u32, push_u32s, push_u64, u16_at, u32_at, u32s_at, u64_at,
};

verus! {

broadcast use group_byte_lengths;

/// The header magic, `b"CICF"` read as a little-endian `u32`.
pub const MAGIC: u32 = 0x4643_4943;

/// Frame format version.
pub const VERSION: u16 = 1;

/// Header size in bytes.
pub const HEADER_LEN: usize = 32;

/// Frame kinds.
#[derive(Debug, Clone, Copy, PartialEq, Eq, Structural)]
pub enum FrameKind {
    /// Triangle meshes.
    Mesh,
    /// Polylines as line segments.
    Curve,
    /// Points.
    Point,
    /// Nothing to draw for this output.
    Clear,
    /// Content-addressed mesh referenced by instances.
    MeshBlob,
    /// Instances of a mesh blob.
    Instances,
}

/// A kind's number on the wire.
pub open spec fn kind_code(kind: FrameKind) -> u16 {
    match kind {
        FrameKind::Mesh => 1,
        FrameKind::Curve => 2,
        FrameKind::Point => 3,
        FrameKind::Clear => 4,
        FrameKind::MeshBlob => 5,
        FrameKind::Instances => 6,
    }
}

/// The kind a wire number names, if any.
pub open spec fn kind_of_code(code: u16) -> Option<FrameKind> {
    if code == 1 {
        Some(FrameKind::Mesh)
    } else if code == 2 {
        Some(FrameKind::Curve)
    } else if code == 3 {
        Some(FrameKind::Point)
    } else if code == 4 {
        Some(FrameKind::Clear)
    } else if code == 5 {
        Some(FrameKind::MeshBlob)
    } else if code == 6 {
        Some(FrameKind::Instances)
    } else {
        None
    }
}

/// Mesh, curve and point frames carry a batch body.
pub open spec fn is_batch_kind(kind: FrameKind) -> bool {
    kind == FrameKind::Mesh || kind == FrameKind::Curve || kind == FrameKind::Point
}

impl FrameKind {
    /// The kind's number on the wire.
    pub fn code(self) -> (code: u16)
        ensures
            code == kind_code(self),
    {
        match self {
            FrameKind::Mesh => 1,
            FrameKind::Curve => 2,
            FrameKind::Point => 3,
            FrameKind::Clear => 4,
            FrameKind::MeshBlob => 5,
            FrameKind::Instances => 6,
        }
    }

    /// The kind a wire number names; `None` for any other number.
    pub fn from_u16(value: u16) -> (kind: Option<FrameKind>)
        ensures
            kind == kind_of_code(value),
    {
        match value {
            1 => Some(FrameKind::Mesh),
            2 => Some(FrameKind::Curve),
            3 => Some(FrameKind::Point),
            4 => Some(FrameKind::Clear),
            5 => Some(FrameKind::MeshBlob),
            6 => Some(FrameKind::Instances),
            _ => None,
        }
    }
}

/// The header of every frame.
#[derive(Debug, Clone, Copy, PartialEq, Eq, Structural)]
pub struct Header {
    /// Frame kind.
    pub kind: FrameKind,
    /// Solve generation.
    pub generation: u64,
    /// View-model node ref.
    pub node: u32,
    /// Output port index.
    pub output: u32,
    /// First element covered.
    pub element_start: u32,
    /// Elements covered.
    pub element_count: u32,
}

/// One element-table entry of a batch frame.
#[derive(Debug, Clone, Copy, PartialEq, Eq, Structural)]
pub struct ElementEntry {
    /// The element's index within the output value (top-level slot).
    pub element_index: u32,
    /// Pick id (0 = unpickable).
    pub pick_id: u32,
    /// First vertex.
    pub vertex_start: u32,
    /// Vertex count.
    pub vertex_count: u32,
    /// First index.
    pub index_start: u32,
    /// Index count.
    pub index_count: u32,
}

/// A 32-byte content hash (blake3), as the blob and instance frames carry it.
#[derive(Debug, Clone, Copy, PartialEq, Eq, PartialOrd, Ord, Hash)]
pub struct ValueHash {
    bytes: [u8; 32],
}

impl View for ValueHash {
    type V = Seq<u8>;

    closed spec fn view(&self) -> Seq<u8> {
        self.bytes@
    }
}

impl ValueHash {
    /// A hash is 32 bytes.
    pub proof fn lemma_len(&self)
        ensures
            self@.len() == 32,
    {
    }

    /// The hash with these bytes.
    pub fn from_bytes(bytes: [u8; 32]) -> (hash: ValueHash)
        ensures
            hash@ == bytes@,
    {
        ValueHash { bytes }
    }

    /// The hash's bytes.
    pub fn as_bytes(&self) -> (bytes: &[u8; 32])
        ensures
            bytes@ == self@,
    {
        &self.bytes
    }

    /// Byte-for-byte equality.
    pub fn same(&self, other: &ValueHash) -> (same: bool)
        ensures
            same == (self@ == other@),
    {
        let mut k: usize = 0;
        while k < 32
            invariant
                0 <= k <= 32,
                self@.len() == 32,
                other@.len() == 32,
                forall|j: int| 0 <= j < k ==> self@[j] == other@[j],
            decreases 32 - k,
        {
            if self.bytes[k] != other.bytes[k] {
                return false;
            }
            k = k + 1;
        }
        assert(self@ =~= other@);
        true
    }
}

/// A batch frame's body (mesh / curve / point).
#[derive(Debug, Clone, PartialEq)]
pub struct Batch {
    /// Element table.
    pub elements: Vec<ElementEntry>,
    /// Positions, `xyz` interleaved, as `f32` bit patterns.
    pub positions: Vec<u32>,
    /// Indices (frame-global).
    pub indices: Vec<u32>,
    /// Per-vertex pick ids.
    pub pick_ids: Vec<u32>,
}

/// What a batch holds, as sequences.
pub struct BatchView {
    pub elements: Seq<ElementEntry>,
    pub positions: Seq<u32>,
    pub indices: Seq<u32>,
    pub pick_ids: Seq<u32>,
}

impl BatchView {
    /// The table entry `push_element` appends for an element of
    /// `vertex_count` vertices and `index_count` indices.
    pub open spec fn next_entry(
        self,
        element_index: u32,
        pick_id: u32,
        vertex_count: nat,
        index_count: nat,
    ) -> ElementEntry {
        ElementEntry {
            element_index,
            pick_id,
            vertex_start: (self.positions.len() / 3) as u32,
            vertex_count: vertex_count as u32,
            index_start: self.indices.len() as u32,
            index_count: index_count as u32,
        }
    }
}

impl View for Batch {
    type V = BatchView;

    open spec fn view(&self) -> BatchView {
        BatchView {
            elements: self.elements@,
            positions: self.positions@,
            indices: self.indices@,
            pick_ids: self.pick_ids@,
        }
    }
}

/// Whether a batch's arrays agree with each other, as the decoder reads
/// them back: three positions and one pick id per vertex.
pub open spec fn batch_is_aligned(b: BatchView) -> bool {
    b.positions.len() == 3 * b.pick_ids.len()
}

/// The counts a batch writes fit the frame's `u32` fields.
pub open spec fn batch_fits(b: BatchView) -> bool {
    b.elements.len() <= u32::MAX && b.positions.len() / 3 <= u32::MAX && b.indices.len()
        <= u32::MAX
}

impl Batch {
    /// An empty batch.
    pub fn new() -> (batch: Batch)
        ensures
            batch@.elements.len() == 0,
            batch@.positions.len() == 0,
            batch@.indices.len() == 0,
            batch@.pick_ids.len() == 0,
            batch_is_aligned(batch@),
    {
        Batch { elements: Vec::new(), positions: Vec::new(), indices: Vec::new(), pick_ids: Vec::new() }
    }

    /// Append one element's geometry: `positions` (xyz triples, as `f32`
    /// bit patterns), local `indices` (shifted to frame-global, saturating),
    /// and one pick id for every vertex.
    pub fn push_element(&mut self, element_index: u32, pick_id: u32, positions: &[u32], indices: &[u32])
        requires
            positions@.len() % 3 == 0,
            old(self)@.positions.len() / 3 <= u32::MAX,
            old(self)@.indices.len() <= u32::MAX,
            positions@.len() / 3 <= u32::MAX,
            indices@.len() <= u32::MAX,
        ensures
            final(self)@.elements == old(self)@.elements.push(
                old(self)@.next_entry(element_index, pick_id, positions@.len() / 3, indices@.len()),
            ),
            final(self)@.positions == old(self)@.positions + positions@,
            final(self)@.indices == old(self)@.indices + indices@.map_values(
                |i: u32| i.saturating_add((old(self)@.positions.len() / 3) as u32),
            ),
            final(self)@.pick_ids == old(self)@.pick_ids + Seq::new(
                positions@.len() / 3,
                |k: int| pick_id,
            ),
            batch_is_aligned(old(self)@) ==> batch_is_aligned(final(self)@),
    {
        let vertex_start = (self.positions.len() / 3) as u32;
        let index_start = self.indices.len() as u32;
        let vertex_count = (positions.len() / 3) as u32;
        let index_count = indices.len() as u32;
        let ghost old_positions = self.positions@;
        let ghost old_indices = self.indices@;
        let ghost old_picks = self.pick_ids@;
        let mut k: usize = 0;
        while k < positions.len()
            invariant
                0 <= k <= positions@.len(),
                self.positions@ == old_positions + positions@.subrange(0, k as int),
                self.indices@ == old_indices,
                self.pick_ids@ == old_picks,
                self.elements@ == old(self).elements@,
            decreases positions@.len() - k,
        {
            self.positions.push(positions[k]);
            assert(self.positions@ =~= old_positions + positions@.subrange(0, k + 1));
            k = k + 1;
        }
        assert(positions@.subrange(0, positions@.len() as int) =~= positions@);
        let ghost shifted = indices@.map_values(|i: u32| i.saturating_add(vertex_start));
        let mut k: usize = 0;
        while k < indices.len()
            invariant
                0 <= k <= indices@.len(),
                shifted == indices@.map_values(|i: u32| i.saturating_add(vertex_start)),
                self.indices@ == old_indices + shifted.subrange(0, k as int),
                self.positions@ == old_positions + positions@,
                self.pick_ids@ == old_picks,
                self.elements@ == old(self).elements@,
            decreases indices@.len() - k,
        {
            self.indices.push(indices[k].saturating_add(vertex_start));
            assert(self.indices@ =~= old_indices + shifted.subrange(0, k + 1));
            k = k + 1;
        }
        assert(shifted.subrange(0, shifted.len() as int) =~= shifted);
        let ghost picks = Seq::new(positions@.len() / 3, |j: int| pick_id);
        let mut k: u32 = 0;
        while k < vertex_count
            invariant
                0 <= k <= vertex_count,
                vertex_count == positions@.len() / 3,
                picks == Seq::new(positions@.len() / 3, |j: int| pick_id),
                self.pick_ids@ == old_picks + picks.subrange(0, k as int),
                self.positions@ == old_positions + positions@,
                self.indices@ == old_indices + shifted,
                self.elements@ == old(self).elements@,
            decreases vertex_count - k,
        {
            self.pick_ids.push(pick_id);
            assert(self.pick_ids@ =~= old_picks + picks.subrange(0, k + 1));
            k = k + 1;
        }
        assert(picks.subrange(0, picks.len() as int) =~= picks);
        self.elements.push(
            ElementEntry {
                element_index,
                pick_id,
                vertex_start,
                vertex_count,
                index_start,
                index_count,
            },
        );
    }

    /// True when nothing was pushed.
    pub fn is_empty(&self) -> (empty: bool)
        ensures
            empty == (self@.elements.len() == 0),
    {
        self.elements.len() == 0
    }
}

impl Default for Batch {
    fn default() -> (batch: Batch)
        ensures
            batch@.elements.len() == 0,
            batch@.positions.len() == 0,
            batch@.indices.len() == 0,
            batch@.pick_ids.len() == 0,
    {
        Batch::new()
    }
}

/// One instance of a mesh blob.
#[derive(Debug, Clone, Copy, PartialEq)]
pub struct Instance {
    /// The element's index within the output value.
    pub element_index: u32,
    /// Pick id.
    pub pick_id: u32,
    /// 3×4 row-major affine transform, as `f32` bit patterns.
    pub transform: [u32; 12],
}

/// What an instance holds, as values.
pub struct InstanceView {
    pub element_index: u32,
    pub pick_id: u32,
    pub transform: Seq<u32>,
}

impl View for Instance {
    type V = InstanceView;

    open spec fn view(&self) -> InstanceView {
        InstanceView {
            element_index: self.element_index,
            pick_id: self.pick_id,
            transform: self.transform@,
        }
    }
}

/// The identity transform's `f32` bit patterns (1.0 is `0x3f80_0000`).
pub open spec fn identity_bits() -> Seq<u32> {
    seq![0x3f80_0000, 0, 0, 0, 0, 0x3f80_0000, 0, 0, 0, 0, 0x3f80_0000, 0]
}

/// The identity instance transform, as `f32` bit patterns.
pub fn identity() -> (transform: [u32; 12])
    ensures
        transform@ == identity_bits(),
{
    let transform: [u32; 12] = [0x3f80_0000, 0, 0, 0, 0, 0x3f80_0000, 0, 0, 0, 0, 0x3f80_0000, 0];
    assert(transform@ =~= identity_bits());
    transform
}

/// A decoded frame.
#[derive(Debug, Clone, PartialEq)]
pub enum Frame {
    /// Kinds 1–3.
    Batch {
        /// Header.
        header: Header,
        /// Body.
        batch: Batch,
    },
    /// Kind 4.
    Clear {
        /// Header.
        header: Header,
    },
    /// Kind 5.
    MeshBlob {
        /// Header.
        header: Header,
        /// Content hash.
        hash: ValueHash,
        /// Positions (`f32` bit patterns).
        positions: Vec<u32>,
        /// Triangle indices.
        indices: Vec<u32>,
    },
    /// Kind 6.
    Instances {
        /// Header.
        header: Header,
        /// The blob's hash.
        hash: ValueHash,
        /// The instances.
        instances: Vec<Instance>,
    },
}

/// What a frame holds, as values.
pub enum FrameView {
    Batch { header: Header, batch: BatchView },
    Clear { header: Header },
    MeshBlob { header: Header, hash: Seq<u8>, positions: Seq<u32>, indices: Seq<u32> },
    Instances { header: Header, hash: Seq<u8>, instances: Seq<InstanceView> },
}

impl View for Frame {
    type V = FrameView;

    open spec fn view(&self) -> FrameView {
        match self {
            Frame::Batch { header, batch } => FrameView::Batch { header: *header, batch: batch@ },
            Frame::Clear { header } => FrameView::Clear { header: *header },
            Frame::MeshBlob { header, hash, positions, indices } => FrameView::MeshBlob {
                header: *header,
                hash: hash@,
                positions: positions@,
                indices: indices@,
            },
            Frame::Instances { header, hash, instances } => FrameView::Instances {
                header: *header,
                hash: hash@,
                instances: instances@.map_values(|i: Instance| i@),
            },
        }
    }
}

impl Frame {
    /// The header.
    pub fn header(&self) -> (header: &Header)
        ensures
            *header == match self {
                Frame::Batch { header, .. } => *header,
                Frame::Clear { header } => *header,
                Frame::MeshBlob { header, .. } => *header,
                Frame::Instances { header, .. } => *header,
            },
    {
        match self {
            Frame::Batch { header, .. } => header,
            Frame::Clear { header } => header,
            Frame::MeshBlob { header, .. } => header,
            Frame::Instances { header, .. } => header,
        }
    }
}

/// Decoding failures.
#[derive(Debug, Clone, PartialEq, Eq, Structural)]
pub enum FrameError {
    /// Fewer bytes than the header.
    Short(usize),
    /// Wrong magic.
    Magic(u32),
    /// Unknown version.
    Version(u16),
    /// Unknown kind.
    Kind(u16),
    /// The body does not match its counts.
    Truncated {
        /// Bytes needed.
        needed: usize,
        /// Bytes available.
        had: usize,
    },
}


// ------------------------------------------------------------- encoding --

/// The 32 header bytes of a frame of `kind` (the kind is the encoder's,
/// the rest the header's).
pub open spec fn header_bytes(h: Header, kind: FrameKind) -> Seq<u8> {
    le32(MAGIC) + le16(VERSION) + le16(kind_code(kind)) + le64(h.generation) + le32(h.node) + le32(
        h.output,
    ) + le32(h.element_start) + le32(h.element_count)
}

/// One element-table entry's 24 bytes.
pub open spec fn entry_bytes(e: ElementEntry) -> Seq<u8> {
    le32(e.element_index) + le32(e.pick_id) + le32(e.vertex_start) + le32(e.vertex_count) + le32(
        e.index_start,
    ) + le32(e.index_count)
}

/// An element table, entry after entry.
pub open spec fn entries_bytes(es: Seq<ElementEntry>) -> Seq<u8>
    decreases es.len(),
{
    if es.len() == 0 {
        Seq::empty()
    } else {
        entries_bytes(es.drop_last()) + entry_bytes(es.last())
    }
}

/// The bytes of a batch frame: header, counts, table, positions, indices,
/// pick ids.
pub open spec fn batch_bytes(h: Header, kind: FrameKind, b: BatchView) -> Seq<u8> {
    header_bytes(h, kind) + le32(b.elements.len() as u32) + le32((b.positions.len() / 3) as u32)
        + le32(b.indices.len() as u32) + entries_bytes(b.elements) + le32s(b.positions) + le32s(
        b.indices,
    ) + le32s(b.pick_ids)
}

/// The bytes of a mesh blob frame.
pub open spec fn mesh_blob_bytes(h: Header, hash: Seq<u8>, positions: Seq<u32>, indices: Seq<u32>) -> Seq<u8> {
    header_bytes(h, FrameKind::MeshBlob) + hash + le32((positions.len() / 3) as u32) + le32(
        indices.len() as u32,
    ) + le32s(positions) + le32s(indices)
}

/// One instance's 56 bytes.
pub open spec fn instance_bytes(i: InstanceView) -> Seq<u8> {
    le32(i.element_index) + le32(i.pick_id) + le32s(i.transform)
}

/// Instances, one after another.
pub open spec fn instances_bytes(is: Seq<InstanceView>) -> Seq<u8>
    decreases is.len(),
{
    if is.len() == 0 {
        Seq::empty()
    } else {
        instances_bytes(is.drop_last()) + instance_bytes(is.last())
    }
}

/// The bytes of an instances frame.
pub open spec fn instances_frame_bytes(h: Header, hash: Seq<u8>, is: Seq<InstanceView>) -> Seq<u8> {
    header_bytes(h, FrameKind::Instances) + hash + le32(is.len() as u32) + instances_bytes(is)
}

struct Writer(Vec<u8>);

impl Writer {
    fn with_header(header: &Header, kind: FrameKind, capacity: usize) -> (w: Writer)
        ensures
            w.0@ == header_bytes(*header, kind),
    {
        let room = if capacity <= usize::MAX - HEADER_LEN {
            HEADER_LEN + capacity
        } else {
            usize::MAX
        };
        let mut buf: Vec<u8> = Vec::with_capacity(room);
        push_u32(&mut buf, MAGIC);
        push_u16(&mut buf, VERSION);
        push_u16(&mut buf, kind.code());
        push_u64(&mut buf, header.generation);
        push_u32(&mut buf, header.node);
        push_u32(&mut buf, header.output);
        push_u32(&mut buf, header.element_start);
        push_u32(&mut buf, header.element_count);
        Writer(buf)
    }

    fn u32(&mut self, x: u32)
        ensures
            final(self).0@ == old(self).0@ + le32(x),
    {
        push_u32(&mut self.0, x);
    }

    fn u32s(&mut self, xs: &[u32])
        ensures
            final(self).0@ == old(self).0@ + le32s(xs@),
    {
        push_u32s(&mut self.0, xs);
    }
}

/// Byte length of a batch body for `(E, V, I)`.
fn batch_body_len(e: usize, v: usize, i: usize) -> (n: u64)
    requires
        e <= u32::MAX,
        v <= u32::MAX,
        i <= u32::MAX,
    ensures
        n == 12 + 24 * e + 12 * v + 4 * i + 4 * v,
{
    12 + 24 * (e as u64) + 12 * (v as u64) + 4 * (i as u64) + 4 * (v as u64)
}

/// A byte count as an allocation hint: the count itself when it fits.
fn capacity_hint(n: u64) -> (hint: usize)
    ensures
        hint == if n <= usize::MAX { n as usize } else { 0 },
{
    if n <= usize::MAX as u64 {
        n as usize
    } else {
        0
    }
}

/// Encode a batch frame of a batch `kind` (mesh, curve or point).
pub fn encode_batch(header: &Header, kind: FrameKind, batch: &Batch) -> (bytes: Vec<u8>)
    requires
        is_batch_kind(kind),
        batch_fits(batch@),
    ensures
        bytes@ == batch_bytes(*header, kind, batch@),
{
    let vertex_count = batch.positions.len() / 3;
    let mut w = Writer::with_header(
        header,
        kind,
        capacity_hint(batch_body_len(batch.elements.len(), vertex_count, batch.indices.len())),
    );
    w.u32(batch.elements.len() as u32);
    w.u32(vertex_count as u32);
    w.u32(batch.indices.len() as u32);
    let ghost table_start = w.0@;
    let mut k: usize = 0;
    while k < batch.elements.len()
        invariant
            0 <= k <= batch.elements@.len(),
            w.0@ == table_start + entries_bytes(batch.elements@.subrange(0, k as int)),
        decreases batch.elements@.len() - k,
    {
        let entry = batch.elements[k];
        w.u32(entry.element_index);
        w.u32(entry.pick_id);
        w.u32(entry.vertex_start);
        w.u32(entry.vertex_count);
        w.u32(entry.index_start);
        w.u32(entry.index_count);
        proof {
            let next = batch.elements@.subrange(0, k + 1);
            assert(next.drop_last() =~= batch.elements@.subrange(0, k as int));
            assert(next.last() == entry);
            assert(w.0@ =~= table_start + entries_bytes(next));
        }
        k = k + 1;
    }
    assert(batch.elements@.subrange(0, batch.elements@.len() as int) =~= batch.elements@);
    w.u32s(batch.positions.as_slice());
    w.u32s(batch.indices.as_slice());
    w.u32s(batch.pick_ids.as_slice());
    w.0
}

/// Encode a clear frame (kind 4, whatever the header's kind says).
pub fn encode_clear(header: &Header) -> (bytes: Vec<u8>)
    ensures
        bytes@ == header_bytes(*header, FrameKind::Clear),
{
    Writer::with_header(header, FrameKind::Clear, 0).0
}

/// Encode a mesh blob.
pub fn encode_mesh_blob(header: &Header, hash: &ValueHash, positions: &[u32], indices: &[u32]) -> (bytes: Vec<u8>)
    requires
        positions@.len() / 3 <= u32::MAX,
        indices@.len() <= u32::MAX,
    ensures
        bytes@ == mesh_blob_bytes(*header, hash@, positions@, indices@),
{
    let body = 40 + 4 * (positions.len() as u64) + 4 * (indices.len() as u64);
    let mut w = Writer::with_header(header, FrameKind::MeshBlob, capacity_hint(body));
    let hash_bytes = hash.as_bytes();
    let ghost before = w.0@;
    let mut k: usize = 0;
    while k < 32
        invariant
            0 <= k <= 32,
            hash_bytes@ == hash@,
            hash@.len() == 32,
            w.0@ == before + hash@.subrange(0, k as int),
        decreases 32 - k,
    {
        w.0.push(hash_bytes[k]);
        assert(w.0@ =~= before + hash@.subrange(0, k + 1));
        k = k + 1;
    }
    assert(hash@.subrange(0, 32) =~= hash@);
    w.u32((positions.len() / 3) as u32);
    w.u32(indices.len() as u32);
    w.u32s(positions);
    w.u32s(indices);
    w.0
}

/// Encode an instances frame.
pub fn encode_instances(header: &Header, hash: &ValueHash, instances: &[Instance]) -> (bytes: Vec<u8>)
    requires
        instances@.len() <= u32::MAX,
    ensures
        bytes@ == instances_frame_bytes(*header, hash@, instances@.map_values(|i: Instance| i@)),
{
    let body = 36 + 56 * (instances.len() as u64);
    let mut w = Writer::with_header(header, FrameKind::Instances, capacity_hint(body));
    let hash_bytes = hash.as_bytes();
    let ghost before = w.0@;
    let mut k: usize = 0;
    while k < 32
        invariant
            0 <= k <= 32,
            hash_bytes@ == hash@,
            hash@.len() == 32,
            w.0@ == before + hash@.subrange(0, k as int),
        decreases 32 - k,
    {
        w.0.push(hash_bytes[k]);
        assert(w.0@ =~= before + hash@.subrange(0, k + 1));
        k = k + 1;
    }
    assert(hash@.subrange(0, 32) =~= hash@);
    w.u32(instances.len() as u32);
    let ghost views = instances@.map_values(|i: Instance| i@);
    let ghost table_start = w.0@;
    let mut k: usize = 0;
    while k < instances.len()
        invariant
            0 <= k <= instances@.len(),
            views == instances@.map_values(|i: Instance| i@),
            w.0@ == table_start + instances_bytes(views.subrange(0, k as int)),
        decreases instances@.len() - k,
    {
        let instance = instances[k];
        w.u32(instance.element_index);
        w.u32(instance.pick_id);
        w.u32s(instance.transform.as_slice());
        proof {
            let next = views.subrange(0, k + 1);
            assert(next.drop_last() =~= views.subrange(0, k as int));
            assert(next.last() == instance@);
            assert(w.0@ =~= table_start + instances_bytes(next));
        }
        k = k + 1;
    }
    assert(views.subrange(0, views.len() as int) =~= views);
    w.0
}


// ------------------------------------------------------------- decoding --

/// The `Truncated` refusal for a read that needed `needed` bytes of `had`
/// (`needed` saturates at `usize::MAX`, past which no buffer reaches).
pub open spec fn truncated(needed: int, had: int) -> FrameError {
    FrameError::Truncated {
        needed: if needed <= usize::MAX {
            needed as usize
        } else {
            usize::MAX
        },
        had: had as usize,
    }
}

/// The header at the front of `b`, with its kind already read.
pub open spec fn header_at(b: Seq<u8>, kind: FrameKind) -> Header {
    Header {
        kind,
        generation: u64_at(b, 8),
        node: u32_at(b, 16),
        output: u32_at(b, 20),
        element_start: u32_at(b, 24),
        element_count: u32_at(b, 28),
    }
}

/// The element-table entry at byte `i` of `b`.
pub open spec fn entry_at(b: Seq<u8>, i: int) -> ElementEntry {
    ElementEntry {
        element_index: u32_at(b, i),
        pick_id: u32_at(b, i + 4),
        vertex_start: u32_at(b, i + 8),
        vertex_count: u32_at(b, i + 12),
        index_start: u32_at(b, i + 16),
        index_count: u32_at(b, i + 20),
    }
}

/// `n` table entries from byte `i` of `b`.
pub open spec fn entries_at(b: Seq<u8>, i: int, n: int) -> Seq<ElementEntry> {
    Seq::new(n as nat, |k: int| entry_at(b, i + 24 * k))
}

/// The instance at byte `i` of `b`.
pub open spec fn instance_at(b: Seq<u8>, i: int) -> InstanceView {
    InstanceView {
        element_index: u32_at(b, i),
        pick_id: u32_at(b, i + 4),
        transform: u32s_at(b, i + 8, 12),
    }
}

/// `n` instances from byte `i` of `b`.
pub open spec fn instances_at(b: Seq<u8>, i: int, n: int) -> Seq<InstanceView> {
    Seq::new(n as nat, |k: int| instance_at(b, i + 56 * k))
}

/// A batch body after a header: the three counts (each refused when the
/// bytes end before it), then the whole body's length, then its arrays.
pub open spec fn decode_batch_spec(b: Seq<u8>, header: Header) -> Result<FrameView, FrameError> {
    let len = b.len() as int;
    if len < 36 {
        Err(truncated(36, len))
    } else if len < 40 {
        Err(truncated(40, len))
    } else if len < 44 {
        Err(truncated(44, len))
    } else {
        let e = u32_at(b, 32) as int;
        let v = u32_at(b, 36) as int;
        let i = u32_at(b, 40) as int;
        let end = 44 + 24 * e + 16 * v + 4 * i;
        if len < end {
            Err(truncated(end, len))
        } else {
            Ok(
                FrameView::Batch {
                    header,
                    batch: BatchView {
                        elements: entries_at(b, 44, e),
                        positions: u32s_at(b, 44 + 24 * e, 3 * v),
                        indices: u32s_at(b, 44 + 24 * e + 12 * v, i),
                        pick_ids: u32s_at(b, 44 + 24 * e + 12 * v + 4 * i, v),
                    },
                },
            )
        }
    }
}

/// A mesh blob body after a header: hash, the two counts, the arrays.
pub open spec fn decode_blob_spec(b: Seq<u8>, header: Header) -> Result<FrameView, FrameError> {
    let len = b.len() as int;
    if len < 64 {
        Err(truncated(64, len))
    } else if len < 68 {
        Err(truncated(68, len))
    } else if len < 72 {
        Err(truncated(72, len))
    } else {
        let v = u32_at(b, 64) as int;
        let i = u32_at(b, 68) as int;
        if len < 72 + 12 * v {
            Err(truncated(72 + 12 * v, len))
        } else if len < 72 + 12 * v + 4 * i {
            Err(truncated(72 + 12 * v + 4 * i, len))
        } else {
            Ok(
                FrameView::MeshBlob {
                    header,
                    hash: b.subrange(32, 64),
                    positions: u32s_at(b, 72, 3 * v),
                    indices: u32s_at(b, 72 + 12 * v, i),
                },
            )
        }
    }
}

/// An instances body after a header: hash, count, the instances.
pub open spec fn decode_instances_spec(b: Seq<u8>, header: Header) -> Result<FrameView, FrameError> {
    let len = b.len() as int;
    if len < 64 {
        Err(truncated(64, len))
    } else if len < 68 {
        Err(truncated(68, len))
    } else {
        let n = u32_at(b, 64) as int;
        if len < 68 + 56 * n {
            Err(truncated(68 + 56 * n, len))
        } else {
            Ok(FrameView::Instances { header, hash: b.subrange(32, 64), instances: instances_at(b, 68, n) })
        }
    }
}

/// What `bytes` decode to: the header's checks in order (length, magic,
/// version, kind), then the kind's body. Bytes past the body are ignored.
pub open spec fn decode_spec(b: Seq<u8>) -> Result<FrameView, FrameError> {
    if b.len() < 32 {
        Err(FrameError::Short(b.len() as usize))
    } else if u32_at(b, 0) != MAGIC {
        Err(FrameError::Magic(u32_at(b, 0)))
    } else if u16_at(b, 4) != VERSION {
        Err(FrameError::Version(u16_at(b, 4)))
    } else {
        match kind_of_code(u16_at(b, 6)) {
            None => Err(FrameError::Kind(u16_at(b, 6))),
            Some(kind) => {
                let header = header_at(b, kind);
                if is_batch_kind(kind) {
                    decode_batch_spec(b, header)
                } else if kind == FrameKind::Clear {
                    Ok(FrameView::Clear { header })
                } else if kind == FrameKind::MeshBlob {
                    decode_blob_spec(b, header)
                } else {
                    decode_instances_spec(b, header)
                }
            },
        }
    }
}

struct Reader<'a> {
    bytes: &'a [u8],
    at: usize,
}

impl<'a> Reader<'a> {
    fn need(&self, n: u64) -> (r: Result<(), FrameError>)
        requires
            self.at <= self.bytes@.len(),
        ensures
            r is Ok <==> self.at + n <= self.bytes@.len(),
            r matches Err(e) ==> e == truncated(self.at + n, self.bytes@.len() as int),
    {
        let end = self.at as u128 + n as u128;
        if end > self.bytes.len() as u128 {
            let needed = if end <= usize::MAX as u128 {
                end as usize
            } else {
                usize::MAX
            };
            return Err(FrameError::Truncated { needed, had: self.bytes.len() });
        }
        Ok(())
    }

    fn u16(&mut self) -> (x: u16)
        requires
            old(self).at + 2 <= old(self).bytes@.len(),
        ensures
            x == u16_at(old(self).bytes@, old(self).at as int),
            final(self).at == old(self).at + 2,
            final(self).bytes == old(self).bytes,
    {
        let total = self.bytes.len();
        let x = read_u16(self.bytes, self.at);
        self.at = self.at + 2;
        x
    }

    fn u32(&mut self) -> (x: u32)
        requires
            old(self).at + 4 <= old(self).bytes@.len(),
        ensures
            x == u32_at(old(self).bytes@, old(self).at as int),
            final(self).at == old(self).at + 4,
            final(self).bytes == old(self).bytes,
    {
        let total = self.bytes.len();
        let x = read_u32(self.bytes, self.at);
        self.at = self.at + 4;
        x
    }

    fn u64(&mut self) -> (x: u64)
        requires
            old(self).at + 8 <= old(self).bytes@.len(),
        ensures
            x == u64_at(old(self).bytes@, old(self).at as int),
            final(self).at == old(self).at + 8,
            final(self).bytes == old(self).bytes,
    {
        let total = self.bytes.len();
        let x = read_u64(self.bytes, self.at);
        self.at = self.at + 8;
        x
    }

    fn hash(&mut self) -> (h: ValueHash)
        requires
            old(self).at + 32 <= old(self).bytes@.len(),
        ensures
            h@ == old(self).bytes@.subrange(old(self).at as int, old(self).at + 32),
            final(self).at == old(self).at + 32,
            final(self).bytes == old(self).bytes,
    {
        let mut b = [0u8; 32];
        let start = self.at;
        let total = self.bytes.len();
        let mut k: usize = 0;
        while k < 32
            invariant
                0 <= k <= 32,
                total == self.bytes@.len(),
                start + 32 <= total,
                b@.len() == 32,
                forall|j: int| 0 <= j < k ==> b@[j] == self.bytes@[start + j],
            decreases 32 - k,
        {
            b[k] = self.bytes[start + k];
            k = k + 1;
        }
        self.at = start + 32;
        let h = ValueHash::from_bytes(b);
        assert(b@ =~= self.bytes@.subrange(start as int, start + 32));
        h
    }

    fn u32s(&mut self, n: usize) -> (xs: Vec<u32>)
        requires
            old(self).at + 4 * n <= old(self).bytes@.len(),
        ensures
            xs@ == u32s_at(old(self).bytes@, old(self).at as int, n as int),
            final(self).at == old(self).at + 4 * n,
            final(self).bytes == old(self).bytes,
    {
        let ghost start = self.at;
        let mut xs: Vec<u32> = Vec::new();
        let mut k: usize = 0;
        while k < n
            invariant
                0 <= k <= n,
                start + 4 * n <= self.bytes@.len(),
                self.at == start + 4 * k,
                self.bytes == old(self).bytes,
                start == old(self).at,
                xs@ == u32s_at(self.bytes@, start as int, k as int),
            decreases n - k,
        {
            let x = self.u32();
            xs.push(x);
            assert(xs@ =~= u32s_at(self.bytes@, start as int, k + 1));
            k = k + 1;
        }
        xs
    }
}

/// Decode a frame.
pub fn decode(bytes: &[u8]) -> (frame: Result<Frame, FrameError>)
    ensures
        match frame {
            Ok(f) => decode_spec(bytes@) == Ok::<FrameView, FrameError>(f@),
            Err(e) => decode_spec(bytes@) == Err::<FrameView, FrameError>(e),
        },
{
    let len = bytes.len();
    if len < HEADER_LEN {
        return Err(FrameError::Short(len));
    }
    let mut r = Reader { bytes, at: 0 };
    let magic = r.u32();
    if magic != MAGIC {
        return Err(FrameError::Magic(magic));
    }
    let version = r.u16();
    if version != VERSION {
        return Err(FrameError::Version(version));
    }
    let kind_raw = r.u16();
    let kind = match FrameKind::from_u16(kind_raw) {
        Some(kind) => kind,
        None => return Err(FrameError::Kind(kind_raw)),
    };
    let generation = r.u64();
    let node = r.u32();
    let output = r.u32();
    let element_start = r.u32();
    let element_count = r.u32();
    let header = Header { kind, generation, node, output, element_start, element_count };
    assert(header == header_at(bytes@, kind));
    match kind {
        FrameKind::Mesh | FrameKind::Curve | FrameKind::Point => {
            r.need(4)?;
            let e = r.u32() as usize;
            r.need(4)?;
            let v = r.u32() as usize;
            r.need(4)?;
            let i = r.u32() as usize;
            r.need(24 * (e as u64) + 16 * (v as u64) + 4 * (i as u64))?;
            let ghost table = r.at;
            let mut elements: Vec<ElementEntry> = Vec::new();
            let mut k: usize = 0;
            while k < e
                invariant
                    0 <= k <= e,
                    table == 44,
                    r.bytes@ == bytes@,
                    r.at == 44 + 24 * k,
                    44 + 24 * e + 16 * v + 4 * i <= bytes@.len(),
                    elements@ == entries_at(bytes@, 44, k as int),
                decreases e - k,
            {
                let element_index = r.u32();
                let pick_id = r.u32();
                let vertex_start = r.u32();
                let vertex_count = r.u32();
                let index_start = r.u32();
                let index_count = r.u32();
                elements.push(
                    ElementEntry {
                        element_index,
                        pick_id,
                        vertex_start,
                        vertex_count,
                        index_start,
                        index_count,
                    },
                );
                assert(elements@ =~= entries_at(bytes@, 44, k + 1));
                k = k + 1;
            }
            let positions = r.u32s(3 * v);
            let indices = r.u32s(i);
            let pick_ids = r.u32s(v);
            let frame = Frame::Batch { header, batch: Batch { elements, positions, indices, pick_ids } };
            proof {
                let expected = decode_spec(bytes@);
                assert(expected == Ok::<FrameView, FrameError>(frame@));
            }
            Ok(frame)
        },
        FrameKind::Clear => Ok(Frame::Clear { header }),
        FrameKind::MeshBlob => {
            r.need(32)?;
            let hash = r.hash();
            r.need(4)?;
            let v = r.u32() as usize;
            r.need(4)?;
            let i = r.u32() as usize;
            r.need(12 * (v as u64))?;
            let positions = r.u32s(3 * v);
            r.need(4 * (i as u64))?;
            let indices = r.u32s(i);
            Ok(Frame::MeshBlob { header, hash, positions, indices })
        },
        FrameKind::Instances => {
            r.need(32)?;
            let hash = r.hash();
            r.need(4)?;
            let n = r.u32() as usize;
            r.need(56 * (n as u64))?;
            let mut instances: Vec<Instance> = Vec::new();
            let mut k: usize = 0;
            while k < n
                invariant
                    0 <= k <= n,
                    r.bytes@ == bytes@,
                    r.at == 68 + 56 * k,
                    68 + 56 * n <= bytes@.len(),
                    instances@.map_values(|x: Instance| x@) == instances_at(bytes@, 68, k as int),
                decreases n - k,
            {
                let element_index = r.u32();
                let pick_id = r.u32();
                let mut transform = [0u32; 12];
                let ghost at = r.at;
                let mut t: usize = 0;
                while t < 12
                    invariant
                        0 <= t <= 12,
                        r.bytes@ == bytes@,
                        r.at == at + 4 * t,
                        at + 48 <= bytes@.len(),
                        transform@.len() == 12,
                        forall|j: int| 0 <= j < t ==> transform@[j] == u32_at(bytes@, at + 4 * j),
                    decreases 12 - t,
                {
                    transform[t] = r.u32();
                    t = t + 1;
                }
                assert(transform@ =~= u32s_at(bytes@, at as int, 12));
                let instance = Instance { element_index, pick_id, transform };
                let ghost before = instances@;
                assert(instance@ == instance_at(bytes@, 68 + 56 * k));
                instances.push(instance);
                assert(instances@ == before.push(instance));
                assert(instances@.map_values(|x: Instance| x@) =~= before.map_values(|x: Instance| x@).push(instance@));
                assert(instances@.map_values(|x: Instance| x@) =~= instances_at(bytes@, 68, k + 1));
                k = k + 1;
            }
            Ok(Frame::Instances { header, hash, instances })
        },
    }
}


// ---------------------------------------------------------- round trips --

/// The header with `kind` in place of its own.
pub open spec fn with_kind(h: Header, kind: FrameKind) -> Header {
    Header {
        kind,
        generation: h.generation,
        node: h.node,
        output: h.output,
        element_start: h.element_start,
        element_count: h.element_count,
    }
}

/// A frame's 32 header bytes read back: magic, version, kind, and the
/// header's fields.
proof fn lemma_read_header(b: Seq<u8>, h: Header, kind: FrameKind)
    requires
        holds_at(b, 0, header_bytes(h, kind)),
    ensures
        b.len() >= 32,
        u32_at(b, 0) == MAGIC,
        u16_at(b, 4) == VERSION,
        u16_at(b, 6) == kind_code(kind),
        header_at(b, kind) == with_kind(h, kind),
{
    let p1 = le32(MAGIC);
    let p2 = p1 + le16(VERSION);
    let p3 = p2 + le16(kind_code(kind));
    let p4 = p3 + le64(h.generation);
    let p5 = p4 + le32(h.node);
    let p6 = p5 + le32(h.output);
    let p7 = p6 + le32(h.element_start);
    let p8 = p7 + le32(h.element_count);
    assert(p8 == header_bytes(h, kind));
    lemma_holds_bounds(b, 0, p8);
    lemma_cat(p7, le32(h.element_count));
    lemma_cat(p6, le32(h.element_start));
    lemma_cat(p5, le32(h.output));
    lemma_cat(p4, le32(h.node));
    lemma_cat(p3, le64(h.generation));
    lemma_cat(p2, le16(kind_code(kind)));
    lemma_cat(p1, le16(VERSION));
    lemma_holds_inner(b, 0, p8, 0, p7);
    lemma_holds_inner(b, 0, p7, 0, p6);
    lemma_holds_inner(b, 0, p6, 0, p5);
    lemma_holds_inner(b, 0, p5, 0, p4);
    lemma_holds_inner(b, 0, p4, 0, p3);
    lemma_holds_inner(b, 0, p3, 0, p2);
    lemma_holds_inner(b, 0, p2, 0, p1);
    lemma_holds_inner(b, 0, p8, 28, le32(h.element_count));
    lemma_holds_inner(b, 0, p7, 24, le32(h.element_start));
    lemma_holds_inner(b, 0, p6, 20, le32(h.output));
    lemma_holds_inner(b, 0, p5, 16, le32(h.node));
    lemma_holds_inner(b, 0, p4, 8, le64(h.generation));
    lemma_holds_inner(b, 0, p3, 6, le16(kind_code(kind)));
    lemma_holds_inner(b, 0, p2, 4, le16(VERSION));
    lemma_read_u32(b, 0, MAGIC);
    lemma_read_u16(b, 4, VERSION);
    lemma_read_u16(b, 6, kind_code(kind));
    lemma_read_u64(b, 8, h.generation);
    lemma_read_u32(b, 16, h.node);
    lemma_read_u32(b, 20, h.output);
    lemma_read_u32(b, 24, h.element_start);
    lemma_read_u32(b, 28, h.element_count);
}

proof fn lemma_entries_len(es: Seq<ElementEntry>)
    ensures
        entries_bytes(es).len() == 24 * es.len(),
    decreases es.len(),
{
    if es.len() > 0 {
        lemma_entries_len(es.drop_last());
    }
}

/// An entry's six words read back.
proof fn lemma_read_entry(b: Seq<u8>, i: int, e: ElementEntry)
    requires
        holds_at(b, i, entry_bytes(e)),
    ensures
        entry_at(b, i) == e,
{
    let p1 = le32(e.element_index);
    let p2 = p1 + le32(e.pick_id);
    let p3 = p2 + le32(e.vertex_start);
    let p4 = p3 + le32(e.vertex_count);
    let p5 = p4 + le32(e.index_start);
    let p6 = p5 + le32(e.index_count);
    assert(p6 == entry_bytes(e));
    lemma_cat(p5, le32(e.index_count));
    lemma_cat(p4, le32(e.index_start));
    lemma_cat(p3, le32(e.vertex_count));
    lemma_cat(p2, le32(e.vertex_start));
    lemma_cat(p1, le32(e.pick_id));
    lemma_holds_inner(b, i, p6, 0, p5);
    lemma_holds_inner(b, i, p5, 0, p4);
    lemma_holds_inner(b, i, p4, 0, p3);
    lemma_holds_inner(b, i, p3, 0, p2);
    lemma_holds_inner(b, i, p2, 0, p1);
    lemma_holds_inner(b, i, p6, 20, le32(e.index_count));
    lemma_holds_inner(b, i, p5, 16, le32(e.index_start));
    lemma_holds_inner(b, i, p4, 12, le32(e.vertex_count));
    lemma_holds_inner(b, i, p3, 8, le32(e.vertex_start));
    lemma_holds_inner(b, i, p2, 4, le32(e.pick_id));
    lemma_read_u32(b, i, e.element_index);
    lemma_read_u32(b, i + 4, e.pick_id);
    lemma_read_u32(b, i + 8, e.vertex_start);
    lemma_read_u32(b, i + 12, e.vertex_count);
    lemma_read_u32(b, i + 16, e.index_start);
    lemma_read_u32(b, i + 20, e.index_count);
}

/// A table held at `i` reads back as itself.
proof fn lemma_read_entries(b: Seq<u8>, i: int, es: Seq<ElementEntry>)
    requires
        holds_at(b, i, entries_bytes(es)),
    ensures
        entries_at(b, i, es.len() as int) == es,
    decreases es.len(),
{
    if es.len() > 0 {
        let front = es.drop_last();
        lemma_entries_len(front);
        lemma_cat(entries_bytes(front), entry_bytes(es.last()));
        lemma_holds_inner(b, i, entries_bytes(es), 0, entries_bytes(front));
        lemma_holds_inner(b, i, entries_bytes(es), 24 * front.len() as int, entry_bytes(es.last()));
        lemma_read_entries(b, i, front);
        lemma_read_entry(b, i + 24 * front.len(), es.last());
        assert forall|k: int| 0 <= k < es.len() implies #[trigger] entries_at(b, i, es.len() as int)[k] == es[k] by {
            if k < front.len() {
                assert(entries_at(b, i, front.len() as int)[k] == front[k]);
            }
        }
        assert(entries_at(b, i, es.len() as int) =~= es);
    } else {
        assert(entries_at(b, i, 0) =~= es);
    }
}

proof fn lemma_instances_len(is: Seq<InstanceView>)
    requires
        forall|k: int| 0 <= k < is.len() ==> (#[trigger] is[k]).transform.len() == 12,
    ensures
        instances_bytes(is).len() == 56 * is.len(),
    decreases is.len(),
{
    if is.len() > 0 {
        lemma_instances_len(is.drop_last());
        lemma_le32s_len(is.last().transform);
    }
}

/// An instance held at `i` reads back as itself.
proof fn lemma_read_instance(b: Seq<u8>, i: int, x: InstanceView)
    requires
        x.transform.len() == 12,
        holds_at(b, i, instance_bytes(x)),
    ensures
        instance_at(b, i) == x,
{
    let p1 = le32(x.element_index);
    let p2 = p1 + le32(x.pick_id);
    let p3 = p2 + le32s(x.transform);
    assert(p3 == instance_bytes(x));
    lemma_cat(p2, le32s(x.transform));
    lemma_cat(p1, le32(x.pick_id));
    lemma_holds_inner(b, i, p3, 0, p2);
    lemma_holds_inner(b, i, p2, 0, p1);
    lemma_holds_inner(b, i, p3, 8, le32s(x.transform));
    lemma_holds_inner(b, i, p2, 4, le32(x.pick_id));
    lemma_read_u32(b, i, x.element_index);
    lemma_read_u32(b, i + 4, x.pick_id);
    lemma_read_u32s(b, i + 8, x.transform);
}

/// Instances held at `i` read back as themselves.
proof fn lemma_read_instances(b: Seq<u8>, i: int, is: Seq<InstanceView>)
    requires
        forall|k: int| 0 <= k < is.len() ==> (#[trigger] is[k]).transform.len() == 12,
        holds_at(b, i, instances_bytes(is)),
    ensures
        instances_at(b, i, is.len() as int) == is,
    decreases is.len(),
{
    if is.len() > 0 {
        let front = is.drop_last();
        assert forall|k: int| 0 <= k < front.len() implies (#[trigger] front[k]).transform.len() == 12 by {
            assert(front[k] == is[k]);
        }
        lemma_instances_len(front);
        lemma_cat(instances_bytes(front), instance_bytes(is.last()));
        lemma_holds_inner(b, i, instances_bytes(is), 0, instances_bytes(front));
        lemma_holds_inner(b, i, instances_bytes(is), 56 * front.len() as int, instance_bytes(is.last()));
        lemma_read_instances(b, i, front);
        lemma_read_instance(b, i + 56 * front.len(), is.last());
        assert forall|k: int| 0 <= k < is.len() implies #[trigger] instances_at(b, i, is.len() as int)[k] == is[k] by {
            if k < front.len() {
                assert(instances_at(b, i, front.len() as int)[k] == front[k]);
            }
        }
        assert(instances_at(b, i, is.len() as int) =~= is);
    } else {
        assert(instances_at(b, i, 0) =~= is);
    }
}

/// Every batch frame decodes to the batch that was encoded, under the
/// encoder's kind: the encoder and decoder spell the same format.
pub proof fn lemma_batch_round_trip(h: Header, kind: FrameKind, b: BatchView)
    requires
        is_batch_kind(kind),
        batch_fits(b),
        batch_is_aligned(b),
    ensures
        decode_spec(batch_bytes(h, kind, b)) == Ok::<FrameView, FrameError>(
            FrameView::Batch { header: with_kind(h, kind), batch: b },
        ),
{
    let e = b.elements.len() as int;
    let v = b.pick_ids.len() as int;
    let n = b.indices.len() as int;
    let s1 = header_bytes(h, kind);
    let s2 = s1 + le32(e as u32);
    let s3 = s2 + le32((b.positions.len() / 3) as u32);
    let s4 = s3 + le32(n as u32);
    let s5 = s4 + entries_bytes(b.elements);
    let s6 = s5 + le32s(b.positions);
    let s7 = s6 + le32s(b.indices);
    let s8 = s7 + le32s(b.pick_ids);
    assert(s8 == batch_bytes(h, kind, b));
    lemma_entries_len(b.elements);
    lemma_le32s_len(b.positions);
    lemma_le32s_len(b.indices);
    lemma_le32s_len(b.pick_ids);
    lemma_cat(s7, le32s(b.pick_ids));
    lemma_cat(s6, le32s(b.indices));
    lemma_cat(s5, le32s(b.positions));
    lemma_cat(s4, entries_bytes(b.elements));
    lemma_cat(s3, le32(n as u32));
    lemma_cat(s2, le32((b.positions.len() / 3) as u32));
    lemma_cat(s1, le32(e as u32));
    lemma_holds_self(s8);
    lemma_holds_inner(s8, 0, s8, 0, s7);
    lemma_holds_inner(s8, 0, s7, 0, s6);
    lemma_holds_inner(s8, 0, s6, 0, s5);
    lemma_holds_inner(s8, 0, s5, 0, s4);
    lemma_holds_inner(s8, 0, s4, 0, s3);
    lemma_holds_inner(s8, 0, s3, 0, s2);
    lemma_holds_inner(s8, 0, s2, 0, s1);
    lemma_holds_inner(s8, 0, s8, s7.len() as int, le32s(b.pick_ids));
    lemma_holds_inner(s8, 0, s7, s6.len() as int, le32s(b.indices));
    lemma_holds_inner(s8, 0, s6, s5.len() as int, le32s(b.positions));
    lemma_holds_inner(s8, 0, s5, s4.len() as int, entries_bytes(b.elements));
    lemma_holds_inner(s8, 0, s4, 40, le32(n as u32));
    lemma_holds_inner(s8, 0, s3, 36, le32((b.positions.len() / 3) as u32));
    lemma_holds_inner(s8, 0, s2, 32, le32(e as u32));
    lemma_read_header(s8, h, kind);
    lemma_read_u32(s8, 32, e as u32);
    lemma_read_u32(s8, 36, (b.positions.len() / 3) as u32);
    lemma_read_u32(s8, 40, n as u32);
    lemma_read_entries(s8, 44, b.elements);
    lemma_read_u32s(s8, 44 + 24 * e, b.positions);
    lemma_read_u32s(s8, 44 + 24 * e + 12 * v, b.indices);
    lemma_read_u32s(s8, 44 + 24 * e + 12 * v + 4 * n, b.pick_ids);
}

/// The frame layout: every frame opens with 32 header bytes, the first
/// four spelling `CICF`; a batch frame then holds 12 bytes of counts, 24
/// bytes per element, 12 per vertex position triple, 4 per index and 4
/// per vertex pick id, so its length is a whole number of words; a mesh
/// blob holds its 32-byte hash, 8 bytes of counts and 4 bytes per
/// position and per index; an instances frame holds the hash, a 4-byte
/// count and 56 bytes per instance.
pub proof fn lemma_frame_lengths(
    h: Header,
    kind: FrameKind,
    b: BatchView,
    hash: Seq<u8>,
    positions: Seq<u32>,
    indices: Seq<u32>,
    is: Seq<InstanceView>,
)
    ensures
        header_bytes(h, kind).len() == 32,
        header_bytes(h, kind).take(4) == seq![0x43u8, 0x49u8, 0x43u8, 0x46u8],
        batch_is_aligned(b) ==> batch_bytes(h, kind, b).len() == 32 + 12 + 24 * b.elements.len()
            + 12 * b.pick_ids.len() + 4 * b.indices.len() + 4 * b.pick_ids.len(),
        batch_bytes(h, kind, b).len() % 4 == 0,
        hash.len() == 32 ==> mesh_blob_bytes(h, hash, positions, indices).len() == 32 + 32 + 8 + 4
            * positions.len() + 4 * indices.len(),
        hash.len() == 32 && (forall|k: int| 0 <= k < is.len() ==> (#[trigger] is[k]).transform.len()
            == 12) ==> instances_frame_bytes(h, hash, is).len() == 32 + 32 + 4 + 56 * is.len(),
{
    lemma_le32_bytes(MAGIC);
    let head = header_bytes(h, kind);
    assert(head.take(4) =~= le32(MAGIC));
    lemma_entries_len(b.elements);
    lemma_le32s_len(b.positions);
    lemma_le32s_len(b.indices);
    lemma_le32s_len(b.pick_ids);
    lemma_le32s_len(positions);
    lemma_le32s_len(indices);
    if hash.len() == 32 && (forall|k: int| 0 <= k < is.len() ==> (#[trigger] is[k]).transform.len()
        == 12) {
        lemma_instances_len(is);
    }
}

/// A clear frame decodes to its header, as a clear.
pub proof fn lemma_clear_round_trip(h: Header)
    ensures
        decode_spec(header_bytes(h, FrameKind::Clear)) == Ok::<FrameView, FrameError>(
            FrameView::Clear { header: with_kind(h, FrameKind::Clear) },
        ),
{
    let s = header_bytes(h, FrameKind::Clear);
    lemma_holds_self(s);
    lemma_read_header(s, h, FrameKind::Clear);
}

/// A mesh blob decodes to its hash, positions and indices.
pub proof fn lemma_mesh_blob_round_trip(h: Header, hash: Seq<u8>, positions: Seq<u32>, indices: Seq<u32>)
    requires
        hash.len() == 32,
        positions.len() % 3 == 0,
        positions.len() / 3 <= u32::MAX,
        indices.len() <= u32::MAX,
    ensures
        decode_spec(mesh_blob_bytes(h, hash, positions, indices)) == Ok::<FrameView, FrameError>(
            FrameView::MeshBlob { header: with_kind(h, FrameKind::MeshBlob), hash, positions, indices },
        ),
{
    let v = (positions.len() / 3) as int;
    let s1 = header_bytes(h, FrameKind::MeshBlob);
    let s2 = s1 + hash;
    let s3 = s2 + le32(v as u32);
    let s4 = s3 + le32(indices.len() as u32);
    let s5 = s4 + le32s(positions);
    let s6 = s5 + le32s(indices);
    assert(s6 == mesh_blob_bytes(h, hash, positions, indices));
    lemma_le32s_len(positions);
    lemma_le32s_len(indices);
    lemma_cat(s5, le32s(indices));
    lemma_cat(s4, le32s(positions));
    lemma_cat(s3, le32(indices.len() as u32));
    lemma_cat(s2, le32(v as u32));
    lemma_cat(s1, hash);
    lemma_holds_self(s6);
    lemma_holds_inner(s6, 0, s6, 0, s5);
    lemma_holds_inner(s6, 0, s5, 0, s4);
    lemma_holds_inner(s6, 0, s4, 0, s3);
    lemma_holds_inner(s6, 0, s3, 0, s2);
    lemma_holds_inner(s6, 0, s2, 0, s1);
    lemma_holds_inner(s6, 0, s6, s5.len() as int, le32s(indices));
    lemma_holds_inner(s6, 0, s5, 72, le32s(positions));
    lemma_holds_inner(s6, 0, s4, 68, le32(indices.len() as u32));
    lemma_holds_inner(s6, 0, s3, 64, le32(v as u32));
    lemma_holds_inner(s6, 0, s2, 32, hash);
    lemma_read_header(s6, h, FrameKind::MeshBlob);
    lemma_read_u32(s6, 64, v as u32);
    lemma_read_u32(s6, 68, indices.len() as u32);
    lemma_read_u32s(s6, 72, positions);
    lemma_read_u32s(s6, 72 + 12 * v, indices);
    assert(s6.subrange(32, 64) =~= hash);
}

/// An instances frame decodes to its hash and instances.
pub proof fn lemma_instances_round_trip(h: Header, hash: Seq<u8>, is: Seq<InstanceView>)
    requires
        hash.len() == 32,
        is.len() <= u32::MAX,
        forall|k: int| 0 <= k < is.len() ==> (#[trigger] is[k]).transform.len() == 12,
    ensures
        decode_spec(instances_frame_bytes(h, hash, is)) == Ok::<FrameView, FrameError>(
            FrameView::Instances { header: with_kind(h, FrameKind::Instances), hash, instances: is },
        ),
{
    let s1 = header_bytes(h, FrameKind::Instances);
    let s2 = s1 + hash;
    let s3 = s2 + le32(is.len() as u32);
    let s4 = s3 + instances_bytes(is);
    assert(s4 == instances_frame_bytes(h, hash, is));
    lemma_instances_len(is);
    lemma_cat(s3, instances_bytes(is));
    lemma_cat(s2, le32(is.len() as u32));
    lemma_cat(s1, hash);
    lemma_holds_self(s4);
    lemma_holds_inner(s4, 0, s4, 0, s3);
    lemma_holds_inner(s4, 0, s3, 0, s2);
    lemma_holds_inner(s4, 0, s2, 0, s1);
    lemma_holds_inner(s4, 0, s4, 68, instances_bytes(is));
    lemma_holds_inner(s4, 0, s3, 64, le32(is.len() as u32));
    lemma_holds_inner(s4, 0, s2, 32, hash);
    lemma_read_header(s4, h, FrameKind::Instances);
    lemma_read_u32(s4, 64, is.len() as u32);
    lemma_read_instances(s4, 68, is);
    assert(s4.subrange(32, 64) =~= hash);
}


/// Cutting `e` to its first `n` bytes leaves bytes the decoder refuses:
/// `Short` below the header's 32 bytes, `Truncated` (having `n`) after.
pub open spec fn refused_cut(e: Seq<u8>, n: int) -> bool {
    &&& n < 32 ==> decode_spec(e.take(n)) == Err::<FrameView, FrameError>(FrameError::Short(n as usize))
    &&& n >= 32 ==> (decode_spec(e.take(n)) matches Err(FrameError::Truncated { had, .. }) && had
        == n as usize)
}

/// A decodable frame that ends exactly where its own counts say.
spec fn ends_exactly(e: Seq<u8>) -> bool {
    match kind_of_code(u16_at(e, 6)) {
        Some(kind) => if is_batch_kind(kind) {
            e.len() == 44 + 24 * u32_at(e, 32) + 16 * u32_at(e, 36) + 4 * u32_at(e, 40)
        } else if kind == FrameKind::Clear {
            e.len() == 32
        } else if kind == FrameKind::MeshBlob {
            e.len() == 72 + 12 * u32_at(e, 64) + 4 * u32_at(e, 68)
        } else {
            e.len() == 68 + 56 * u32_at(e, 64)
        },
        None => false,
    }
}

proof fn lemma_cut(e: Seq<u8>, n: int)
    requires
        decode_spec(e) is Ok,
        ends_exactly(e),
        0 <= n < e.len(),
    ensures
        refused_cut(e, n),
{
    if n >= 32 {
        let t = e.take(n);
        lemma_prefix_reads(e, n);
        assert(u32_at(t, 0) == u32_at(e, 0));
        assert(u16_at(t, 4) == u16_at(e, 4));
        assert(u16_at(t, 6) == u16_at(e, 6));
        if n >= 44 {
            assert(u32_at(t, 32) == u32_at(e, 32));
            assert(u32_at(t, 36) == u32_at(e, 36));
            assert(u32_at(t, 40) == u32_at(e, 40));
        }
        if n >= 72 {
            assert(u32_at(t, 64) == u32_at(e, 64));
            assert(u32_at(t, 68) == u32_at(e, 68));
        } else if n >= 68 {
            assert(u32_at(t, 64) == u32_at(e, 64));
        }
    }
}

/// Every frame the encoders write is refused when cut short: fewer than
/// 32 bytes are `Short`, and a cut anywhere after the header is
/// `Truncated`, never read as a smaller frame.
pub proof fn lemma_cut_frames_are_refused(
    h: Header,
    kind: FrameKind,
    b: BatchView,
    hash: Seq<u8>,
    positions: Seq<u32>,
    indices: Seq<u32>,
    is: Seq<InstanceView>,
    n: int,
)
    requires
        0 <= n,
    ensures
        n < 32 ==> refused_cut(header_bytes(h, FrameKind::Clear), n),
        is_batch_kind(kind) && batch_fits(b) && batch_is_aligned(b) && n < batch_bytes(h, kind, b).len()
            ==> refused_cut(batch_bytes(h, kind, b), n),
        hash.len() == 32 && positions.len() % 3 == 0 && positions.len() / 3 <= u32::MAX
            && indices.len() <= u32::MAX && n < mesh_blob_bytes(h, hash, positions, indices).len()
            ==> refused_cut(mesh_blob_bytes(h, hash, positions, indices), n),
        hash.len() == 32 && is.len() <= u32::MAX && (forall|k: int|
            0 <= k < is.len() ==> (#[trigger] is[k]).transform.len() == 12) && n
            < instances_frame_bytes(h, hash, is).len() ==> refused_cut(
            instances_frame_bytes(h, hash, is),
            n,
        ),
{
    lemma_frame_lengths(h, kind, b, hash, positions, indices, is);
    if n < 32 {
        let c = header_bytes(h, FrameKind::Clear);
        lemma_clear_round_trip(h);
        lemma_cut(c, n);
    }
    if is_batch_kind(kind) && batch_fits(b) && batch_is_aligned(b) && n < batch_bytes(h, kind, b).len() {
        let e = batch_bytes(h, kind, b);
        lemma_batch_round_trip(h, kind, b);
        lemma_cut(e, n);
    }
    if hash.len() == 32 && positions.len() % 3 == 0 && positions.len() / 3 <= u32::MAX
        && indices.len() <= u32::MAX && n < mesh_blob_bytes(h, hash, positions, indices).len() {
        let e = mesh_blob_bytes(h, hash, positions, indices);
        lemma_mesh_blob_round_trip(h, hash, positions, indices);
        lemma_cut(e, n);
    }
    if hash.len() == 32 && is.len() <= u32::MAX && (forall|k: int|
        0 <= k < is.len() ==> (#[trigger] is[k]).transform.len() == 12) && n
        < instances_frame_bytes(h, hash, is).len() {
        let e = instances_frame_bytes(h, hash, is);
        lemma_instances_round_trip(h, hash, is);
        lemma_cut(e, n);
    }
}

} // verus!
