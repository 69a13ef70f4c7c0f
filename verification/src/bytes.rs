//! Little-endian byte spellings of the integers the frames carry: what a
//! value is as bytes, what bytes are as a value, the facts that tie the
//! two together, and the buffer writes that produce them.
use vstd::prelude::*;

verus! {

/// `x` as two little-endian bytes.
pub closed spec fn le16(x: u16) -> Seq<u8> {
    seq![(x % 256) as u8, (x / 256) as u8]
}

/// `x` as four little-endian bytes.
pub closed spec fn le32(x: u32) -> Seq<u8> {
    seq![
        (x % 256) as u8,
        ((x / 256) % 256) as u8,
        ((x / 65536) % 256) as u8,
        (x / 16777216) as u8,
    ]
}

/// `x` as eight little-endian bytes: the low word, then the high word.
pub closed spec fn le64(x: u64) -> Seq<u8> {
    le32((x % 4294967296) as u32) + le32((x / 4294967296) as u32)
}

/// The little-endian `u16` at byte `i` of `b`.
pub closed spec fn u16_at(b: Seq<u8>, i: int) -> u16 {
    (b[i] + 256 * b[i + 1]) as u16
}

/// The little-endian `u32` at byte `i` of `b`.
pub closed spec fn u32_at(b: Seq<u8>, i: int) -> u32 {
    (b[i] + 256 * b[i + 1] + 65536 * b[i + 2] + 16777216 * b[i + 3]) as u32
}

/// The little-endian `u64` at byte `i` of `b`.
pub closed spec fn u64_at(b: Seq<u8>, i: int) -> u64 {
    (u32_at(b, i) + 4294967296 * u32_at(b, i + 4)) as u64
}

/// A sequence of `u32`s, each as four little-endian bytes, in order.
pub closed spec fn le32s(xs: Seq<u32>) -> Seq<u8>
    decreases xs.len(),
{
    if xs.len() == 0 {
        Seq::empty()
    } else {
        le32s(xs.drop_last()) + le32(xs.last())
    }
}

pub broadcast proof fn lemma_le16_len(x: u16)
    ensures
        #[trigger] le16(x).len() == 2,
{
}

pub broadcast proof fn lemma_le32_len(x: u32)
    ensures
        #[trigger] le32(x).len() == 4,
{
}

pub broadcast proof fn lemma_le64_len(x: u64)
    ensures
        #[trigger] le64(x).len() == 8,
{
}

pub broadcast group group_byte_lengths {
    lemma_le16_len,
    lemma_le32_len,
    lemma_le64_len,
}

/// The little-endian `u16` at byte `at`.
pub fn read_u16(b: &[u8], at: usize) -> (x: u16)
    requires
        at + 2 <= b@.len(),
    ensures
        x == u16_at(b@, at as int),
{
    (b[at] as u16) + 256 * (b[at + 1] as u16)
}

/// The little-endian `u32` at byte `at`.
pub fn read_u32(b: &[u8], at: usize) -> (x: u32)
    requires
        at + 4 <= b@.len(),
    ensures
        x == u32_at(b@, at as int),
{
    (b[at] as u32) + 256 * (b[at + 1] as u32) + 65536 * (b[at + 2] as u32) + 16777216 * (b[at
        + 3] as u32)
}

/// The little-endian `u64` at byte `at`.
pub fn read_u64(b: &[u8], at: usize) -> (x: u64)
    requires
        at + 8 <= b@.len(),
    ensures
        x == u64_at(b@, at as int),
{
    let total = b.len();
    let lo = read_u32(b, at) as u64;
    let hi = read_u32(b, at + 4) as u64;
    lo + 4294967296 * hi
}

/// `n` consecutive little-endian `u32`s starting at byte `i` of `b`.
pub open spec fn u32s_at(b: Seq<u8>, i: int, n: int) -> Seq<u32> {
    Seq::new(n as nat, |k: int| u32_at(b, i + 4 * k))
}

/// The bytes of `b` from `i` on carry `s` there.
#[verifier::opaque]
pub open spec fn holds_at(b: Seq<u8>, i: int, s: Seq<u8>) -> bool {
    0 <= i && i + s.len() <= b.len() && forall|j: int| 0 <= j < s.len() ==> #[trigger] b[i + j] == s[j]
}

/// What is held at `i + j` of `x` is held at `i + j` of `b` when `x` is
/// held at `i`.
pub proof fn lemma_holds_inner(b: Seq<u8>, i: int, x: Seq<u8>, j: int, y: Seq<u8>)
    requires
        holds_at(b, i, x),
        holds_at(x, j, y),
    ensures
        holds_at(b, i + j, y),
{
    reveal(holds_at);
    assert forall|k: int| 0 <= k < y.len() implies #[trigger] b[i + j + k] == y[k] by {
        assert(b[i + (j + k)] == x[j + k]);
        assert(x[j + k] == y[k]);
    }
}

/// A sequence is held in itself at `0`.
pub proof fn lemma_holds_self(b: Seq<u8>)
    ensures
        holds_at(b, 0, b),
{
    reveal(holds_at);
    assert forall|j: int| 0 <= j < b.len() implies #[trigger] b[0 + j] == b[j] by {}
}

/// What is held lies within the bytes.
pub proof fn lemma_holds_bounds(b: Seq<u8>, i: int, x: Seq<u8>)
    requires
        holds_at(b, i, x),
    ensures
        0 <= i,
        i + x.len() <= b.len(),
{
    reveal(holds_at);
}

/// Both halves of a concatenation are held in it, at `0` and at the
/// first half's length.
pub proof fn lemma_cat(a: Seq<u8>, x: Seq<u8>)
    ensures
        holds_at(a + x, 0, a),
        holds_at(a + x, a.len() as int, x),
{
    reveal(holds_at);
    assert forall|j: int| 0 <= j < a.len() implies #[trigger] (a + x)[0 + j] == a[j] by {}
    assert forall|j: int| 0 <= j < x.len() implies #[trigger] (a + x)[a.len() + j] == x[j] by {}
}

pub proof fn lemma_le16(x: u16)
    ensures
        le16(x).len() == 2,
        u16_at(le16(x), 0) == x,
{
    assert(u16_at(le16(x), 0) == x) by (nonlinear_arith);
}

pub proof fn lemma_le32(x: u32)
    ensures
        le32(x).len() == 4,
        u32_at(le32(x), 0) == x,
{
    let b = le32(x);
    assert((x % 256) + 256 * ((x / 256) % 256) + 65536 * ((x / 65536) % 256) + 16777216 * (x
        / 16777216) == x) by (nonlinear_arith);
}

/// A prefix of `b` reads the same numbers as `b` wherever it still holds
/// all of their bytes.
pub proof fn lemma_prefix_reads(b: Seq<u8>, n: int)
    requires
        0 <= n <= b.len(),
    ensures
        forall|i: int| 0 <= i && i + 2 <= n ==> #[trigger] u16_at(b.take(n), i) == u16_at(b, i),
        forall|i: int| 0 <= i && i + 4 <= n ==> #[trigger] u32_at(b.take(n), i) == u32_at(b, i),
        forall|i: int| 0 <= i && i + 8 <= n ==> #[trigger] u64_at(b.take(n), i) == u64_at(b, i),
{
    assert forall|i: int| 0 <= i && i + 4 <= n implies #[trigger] u32_at(b.take(n), i) == u32_at(b, i) by {
        assert(b.take(n)[i] == b[i] && b.take(n)[i + 1] == b[i + 1] && b.take(n)[i + 2] == b[i + 2]
            && b.take(n)[i + 3] == b[i + 3]);
    }
    assert forall|i: int| 0 <= i && i + 8 <= n implies #[trigger] u64_at(b.take(n), i) == u64_at(b, i) by {
        assert(u32_at(b.take(n), i) == u32_at(b, i));
        assert(u32_at(b.take(n), i + 4) == u32_at(b, i + 4));
    }
}

/// The four bytes of `x`, lowest first.
pub proof fn lemma_le32_bytes(x: u32)
    ensures
        le32(x) == seq![
            (x % 256) as u8,
            ((x / 256) % 256) as u8,
            ((x / 65536) % 256) as u8,
            (x / 16777216) as u8,
        ],
{
}

/// Four bytes held at `i` read back as the `u32` they spell.
pub proof fn lemma_read_u32(b: Seq<u8>, i: int, x: u32)
    requires
        holds_at(b, i, le32(x)),
    ensures
        u32_at(b, i) == x,
{
    reveal(holds_at);
    lemma_le32(x);
    assert(b[i + 0] == le32(x)[0]);
    assert(b[i + 1] == le32(x)[1]);
    assert(b[i + 2] == le32(x)[2]);
    assert(b[i + 3] == le32(x)[3]);
}

/// Two bytes held at `i` read back as the `u16` they spell.
pub proof fn lemma_read_u16(b: Seq<u8>, i: int, x: u16)
    requires
        holds_at(b, i, le16(x)),
    ensures
        u16_at(b, i) == x,
{
    reveal(holds_at);
    lemma_le16(x);
    assert(b[i + 0] == le16(x)[0]);
    assert(b[i + 1] == le16(x)[1]);
}

/// Eight bytes held at `i` read back as the `u64` they spell.
pub proof fn lemma_read_u64(b: Seq<u8>, i: int, x: u64)
    requires
        holds_at(b, i, le64(x)),
    ensures
        u64_at(b, i) == x,
{
    reveal(holds_at);
    let lo = (x % 4294967296) as u32;
    let hi = (x / 4294967296) as u32;
    lemma_le32(lo);
    lemma_le32(hi);
    assert(holds_at(b, i, le32(lo))) by {
        assert forall|j: int| 0 <= j < 4 implies #[trigger] b[i + j] == le32(lo)[j] by {
            assert(b[i + j] == le64(x)[j]);
        }
    }
    assert(holds_at(b, i + 4, le32(hi))) by {
        assert forall|j: int| 0 <= j < 4 implies #[trigger] b[i + 4 + j] == le32(hi)[j] by {
            assert(b[i + (4 + j)] == le64(x)[4 + j]);
        }
    }
    lemma_read_u32(b, i, lo);
    lemma_read_u32(b, i + 4, hi);
    assert(lo + 4294967296 * hi == x) by (nonlinear_arith)
        requires
            lo == x % 4294967296,
            hi == x / 4294967296,
    ;
}

pub proof fn lemma_le32s_len(xs: Seq<u32>)
    ensures
        le32s(xs).len() == 4 * xs.len(),
    decreases xs.len(),
{
    if xs.len() > 0 {
        lemma_le32s_len(xs.drop_last());
    }
}

/// Byte `4 k + j` of a spelled sequence is byte `j` of its `k`-th word.
pub proof fn lemma_le32s_index(xs: Seq<u32>, k: int, j: int)
    requires
        0 <= k < xs.len(),
        0 <= j < 4,
    ensures
        le32s(xs)[4 * k + j] == le32(xs[k])[j],
    decreases xs.len(),
{
    lemma_le32s_len(xs.drop_last());
    if k < xs.len() - 1 {
        lemma_le32s_index(xs.drop_last(), k, j);
    }
}

/// A spelled sequence held at `i` reads back as itself.
pub proof fn lemma_read_u32s(b: Seq<u8>, i: int, xs: Seq<u32>)
    requires
        holds_at(b, i, le32s(xs)),
    ensures
        u32s_at(b, i, xs.len() as int) == xs,
{
    reveal(holds_at);
    lemma_le32s_len(xs);
    assert forall|k: int| 0 <= k < xs.len() implies #[trigger] u32s_at(b, i, xs.len() as int)[k]
        == xs[k] by {
        assert forall|j: int| 0 <= j < 4 implies #[trigger] b[i + 4 * k + j] == le32(xs[k])[j] by {
            lemma_le32s_index(xs, k, j);
            assert(b[i + (4 * k + j)] == le32s(xs)[4 * k + j]);
        }
        lemma_read_u32(b, i + 4 * k, xs[k]);
    }
    assert(u32s_at(b, i, xs.len() as int) =~= xs);
}

/// Append `x` as two little-endian bytes.
pub fn push_u16(buf: &mut Vec<u8>, x: u16)
    ensures
        final(buf)@ == old(buf)@ + le16(x),
{
    buf.push((x % 256) as u8);
    buf.push((x / 256) as u8);
    assert(final(buf)@ =~= old(buf)@ + le16(x));
}

/// Append `x` as four little-endian bytes.
pub fn push_u32(buf: &mut Vec<u8>, x: u32)
    ensures
        final(buf)@ == old(buf)@ + le32(x),
{
    buf.push((x % 256) as u8);
    buf.push(((x / 256) % 256) as u8);
    buf.push(((x / 65536) % 256) as u8);
    buf.push((x / 16777216) as u8);
    assert(final(buf)@ =~= old(buf)@ + le32(x));
}

/// Append `x` as eight little-endian bytes.
pub fn push_u64(buf: &mut Vec<u8>, x: u64)
    ensures
        final(buf)@ == old(buf)@ + le64(x),
{
    push_u32(buf, (x % 4294967296) as u32);
    push_u32(buf, (x / 4294967296) as u32);
    assert(final(buf)@ =~= old(buf)@ + le64(x));
}

/// Append every word of `xs`, four little-endian bytes each.
pub fn push_u32s(buf: &mut Vec<u8>, xs: &[u32])
    ensures
        final(buf)@ == old(buf)@ + le32s(xs@),
{
    let ghost start = buf@;
    let mut k: usize = 0;
    while k < xs.len()
        invariant
            0 <= k <= xs@.len(),
            buf@ == start + le32s(xs@.subrange(0, k as int)),
        decreases xs@.len() - k,
    {
        push_u32(buf, xs[k]);
        proof {
            let next = xs@.subrange(0, k + 1);
            assert(next.drop_last() =~= xs@.subrange(0, k as int));
            assert(next.last() == xs@[k as int]);
        }
        k = k + 1;
    }
    assert(xs@.subrange(0, xs@.len() as int) =~= xs@);
}

} // verus!
