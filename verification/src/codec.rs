//! Little-endian encoding of the fixed-size records that LionFS stores.
use vstd::bytes::*;
use vstd::prelude::*;
use vstd::slice::slice_subrange;

verus! {

broadcast use vstd::array::group_array_axioms;

/// Appends the little-endian bytes of `x`.
pub fn put_u64(out: &mut Vec<u8>, x: u64)
    ensures
        final(out)@ == old(out)@ + spec_u64_to_le_bytes(x),
{
    let mut b = u64_to_le_bytes(x);
    out.append(&mut b);
}

/// Appends the little-endian bytes of `x`.
pub fn put_u32(out: &mut Vec<u8>, x: u32)
    ensures
        final(out)@ == old(out)@ + spec_u32_to_le_bytes(x),
{
    let mut b = u32_to_le_bytes(x);
    out.append(&mut b);
}

/// Appends the little-endian bytes of `x`.
pub fn put_u16(out: &mut Vec<u8>, x: u16)
    ensures
        final(out)@ == old(out)@ + spec_u16_to_le_bytes(x),
{
    let mut b = u16_to_le_bytes(x);
    out.append(&mut b);
}

/// Appends `n` zero bytes.
pub fn put_zeros(out: &mut Vec<u8>, n: usize)
    ensures
        final(out)@ == old(out)@ + Seq::new(n as nat, |i: int| 0u8),
{
    let ghost start = out@;
    let mut i: usize = 0;
    while i < n
        invariant
            i <= n,
            out@ =~= start + Seq::new(i as nat, |k: int| 0u8),
        decreases n - i,
    {
        out.push(0u8);
        i = i + 1;
    }
}

/// Appends one byte.
pub fn put_u8(out: &mut Vec<u8>, x: u8)
    ensures
        final(out)@ == old(out)@.push(x),
{
    out.push(x);
}

/// Appends `bytes`.
pub fn put_bytes(out: &mut Vec<u8>, bytes: &[u8])
    ensures
        final(out)@ == old(out)@ + bytes@,
{
    let ghost start = out@;
    let mut i: usize = 0;
    while i < bytes.len()
        invariant
            i <= bytes@.len(),
            out@ =~= start + bytes@.subrange(0, i as int),
        decreases bytes@.len() - i,
    {
        out.push(bytes[i]);
        i = i + 1;
    }
    assert(bytes@.subrange(0, bytes@.len() as int) =~= bytes@);
}

/// `s` with the bytes from `off` on replaced by `t`.
pub open spec fn splice(s: Seq<u8>, off: int, t: Seq<u8>) -> Seq<u8> {
    s.subrange(0, off) + t + s.subrange(off + t.len(), s.len() as int)
}

/// Overwrites the bytes of `buf` from `off` on with `src`.
pub fn set_bytes(buf: &mut Vec<u8>, off: usize, src: &[u8])
    requires
        off + src@.len() <= old(buf)@.len(),
    ensures
        final(buf)@ == splice(old(buf)@, off as int, src@),
{
    let ghost start = buf@;
    let _n = buf.len();
    let mut i: usize = 0;
    while i < src.len()
        invariant
            off + src@.len() <= start.len(),
            start.len() <= usize::MAX,
            buf@.len() == start.len(),
            i <= src@.len(),
            buf@ =~= start.subrange(0, off as int) + src@.subrange(0, i as int) + start.subrange(off + i, start.len() as int),
        decreases src@.len() - i,
    {
        buf.set(off + i, src[i]);
        i = i + 1;
    }
    assert(src@.subrange(0, src@.len() as int) =~= src@);
}

/// Overwrites the four bytes at `off` with the little-endian `x`.
pub fn set_u32(buf: &mut Vec<u8>, off: usize, x: u32)
    requires
        off + 4 <= old(buf)@.len(),
    ensures
        final(buf)@ == splice(old(buf)@, off as int, spec_u32_to_le_bytes(x)),
{
    let b = u32_to_le_bytes(x);
    proof {
        lemma_auto_spec_u32_to_from_le_bytes();
    }
    set_bytes(buf, off, b.as_slice());
}

/// Overwrites the eight bytes at `off` with the little-endian `x`.
pub fn set_u64(buf: &mut Vec<u8>, off: usize, x: u64)
    requires
        off + 8 <= old(buf)@.len(),
    ensures
        final(buf)@ == splice(old(buf)@, off as int, spec_u64_to_le_bytes(x)),
{
    let b = u64_to_le_bytes(x);
    proof {
        lemma_auto_spec_u64_to_from_le_bytes();
    }
    set_bytes(buf, off, b.as_slice());
}

/// The 32-byte array that holds `s`.
pub open spec fn array32(s: Seq<u8>) -> [u8; 32] {
    choose|a: [u8; 32]| a@ == s
}

/// The 254-byte array that holds `s`.
pub open spec fn array254(s: Seq<u8>) -> [u8; 254] {
    choose|a: [u8; 254]| a@ == s
}

pub proof fn lemma_array32(a: [u8; 32])
    ensures
        array32(a@) == a,
{
    let c = array32(a@);
    assert(c@ == a@);
    assert(c =~= a);
}

pub proof fn lemma_array254(a: [u8; 254])
    ensures
        array254(a@) == a,
{
    let c = array254(a@);
    assert(c@ == a@);
    assert(c =~= a);
}

/// Reads the 32 bytes at `off`.
pub fn get_array32(bytes: &[u8], off: usize) -> (r: [u8; 32])
    requires
        off + 32 <= bytes@.len(),
    ensures
        r == array32(bytes@.subrange(off as int, off + 32)),
{
    let len = bytes.len();
    let mut a = [0u8; 32];
    let mut i: usize = 0;
    while i < 32
        invariant
            i <= 32,
            len == bytes@.len(),
            off + 32 <= bytes@.len(),
            forall|j: int| 0 <= j < i ==> a[j] == bytes@[off + j],
        decreases 32 - i,
    {
        a[i] = bytes[off + i];
        i = i + 1;
    }
    assert(a@ =~= bytes@.subrange(off as int, off + 32));
    proof {
        lemma_array32(a);
    }
    a
}

/// Reads the 254 bytes at `off`.
pub fn get_array254(bytes: &[u8], off: usize) -> (r: [u8; 254])
    requires
        off + 254 <= bytes@.len(),
    ensures
        r == array254(bytes@.subrange(off as int, off + 254)),
{
    let len = bytes.len();
    let mut a = [0u8; 254];
    let mut i: usize = 0;
    while i < 254
        invariant
            i <= 254,
            len == bytes@.len(),
            off + 254 <= bytes@.len(),
            forall|j: int| 0 <= j < i ==> a[j] == bytes@[off + j],
        decreases 254 - i,
    {
        a[i] = bytes[off + i];
        i = i + 1;
    }
    assert(a@ =~= bytes@.subrange(off as int, off + 254));
    proof {
        lemma_array254(a);
    }
    a
}

/// Reads the little-endian `u64` at `off`.
pub fn get_u64(bytes: &[u8], off: usize) -> (r: u64)
    requires
        off + 8 <= bytes@.len(),
    ensures
        r == spec_u64_from_le_bytes(bytes@.subrange(off as int, off + 8)),
{
    u64_from_le_bytes({
        let _len = bytes.len();
        slice_subrange(bytes, off, off + 8)
    })
}

/// Reads the little-endian `u32` at `off`.
pub fn get_u32(bytes: &[u8], off: usize) -> (r: u32)
    requires
        off + 4 <= bytes@.len(),
    ensures
        r == spec_u32_from_le_bytes(bytes@.subrange(off as int, off + 4)),
{
    u32_from_le_bytes({
        let _len = bytes.len();
        slice_subrange(bytes, off, off + 4)
    })
}

/// Reads the little-endian `u16` at `off`.
pub fn get_u16(bytes: &[u8], off: usize) -> (r: u16)
    requires
        off + 2 <= bytes@.len(),
    ensures
        r == spec_u16_from_le_bytes(bytes@.subrange(off as int, off + 2)),
{
    u16_from_le_bytes({
        let _len = bytes.len();
        slice_subrange(bytes, off, off + 2)
    })
}

/// A fixed-size record that can be stored in a B+tree node.
pub trait BTreeItem: Sized + Copy {
    /// Number of bytes of the encoding.
    spec fn spec_size() -> nat;

    /// The record that `bytes` (of length `spec_size()`) encodes.
    spec fn spec_decode(bytes: Seq<u8>) -> Self;

    /// Every record is between 1 and 512 bytes long.
    proof fn lemma_size_bounds()
        ensures
            1 <= Self::spec_size() <= 512,
    ;

    fn size() -> (n: usize)
        ensures
            n == Self::spec_size(),
            1 <= n <= 512,
    ;

    /// Appends the encoding of `self`.
    fn encode_into(&self, out: &mut Vec<u8>)
        ensures
            final(out)@.len() == old(out)@.len() + Self::spec_size(),
            final(out)@.subrange(0, old(out)@.len() as int) == old(out)@,
            Self::spec_decode(final(out)@.subrange(old(out)@.len() as int, final(out)@.len() as int))
                == *self,
    ;

    /// Decodes the record stored at `off`.
    fn decode_from(bytes: &[u8], off: usize) -> (r: Self)
        requires
            off + Self::spec_size() <= bytes@.len(),
        ensures
            r == Self::spec_decode(bytes@.subrange(off as int, off + Self::spec_size())),
    ;
}

/// The outcome of comparing two keys.
#[derive(Debug, Clone, Copy, PartialEq, Eq, Structural)]
pub enum KeyOrder {
    Less,
    Equal,
    Greater,
}

/// A B+tree key: a record with a total order, given by an injective rank.
pub trait BTreeKey: BTreeItem {
    /// The position of the key in the order.
    spec fn rank(self) -> int;

    /// Distinct keys have distinct ranks.
    proof fn lemma_rank_injective(a: Self, b: Self)
        ensures
            a.rank() == b.rank() ==> a == b,
    ;

    fn compare_key(&self, other: &Self) -> (r: KeyOrder)
        ensures
            r == KeyOrder::Less <==> self.rank() < other.rank(),
            r == KeyOrder::Equal <==> self.rank() == other.rank(),
            r == KeyOrder::Greater <==> self.rank() > other.rank(),
    ;
}

impl BTreeItem for u64 {
    open spec fn spec_size() -> nat {
        8
    }

    open spec fn spec_decode(bytes: Seq<u8>) -> u64 {
        spec_u64_from_le_bytes(bytes)
    }

    proof fn lemma_size_bounds() {
    }

    fn size() -> (n: usize) {
        8
    }

    fn encode_into(&self, out: &mut Vec<u8>) {
        let ghost start = out@;
        put_u64(out, *self);
        proof {
            lemma_auto_spec_u64_to_from_le_bytes();
            assert(out@.subrange(0, start.len() as int) =~= start);
            assert(out@.subrange(start.len() as int, out@.len() as int) =~= spec_u64_to_le_bytes(*self));
        }
    }

    fn decode_from(bytes: &[u8], off: usize) -> (r: u64) {
        get_u64(bytes, off)
    }
}

impl BTreeKey for u64 {
    open spec fn rank(self) -> int {
        self as int
    }

    proof fn lemma_rank_injective(a: u64, b: u64) {
    }

    fn compare_key(&self, other: &u64) -> (r: KeyOrder) {
        if *self < *other {
            KeyOrder::Less
        } else if *self == *other {
            KeyOrder::Equal
        } else {
            KeyOrder::Greater
        }
    }
}

impl BTreeItem for u32 {
    open spec fn spec_size() -> nat {
        8
    }

    open spec fn spec_decode(bytes: Seq<u8>) -> u32 {
        spec_u32_from_le_bytes(bytes.subrange(0, 4))
    }

    proof fn lemma_size_bounds() {
    }

    fn size() -> (n: usize) {
        8
    }

    fn encode_into(&self, out: &mut Vec<u8>) {
        let ghost start = out@;
        put_u32(out, *self);
        put_zeros(out, 4);
        proof {
            lemma_auto_spec_u32_to_from_le_bytes();
            assert(out@.subrange(0, start.len() as int) =~= start);
            assert(out@.subrange(start.len() as int, out@.len() as int).subrange(0, 4)
                =~= spec_u32_to_le_bytes(*self));
        }
    }

    fn decode_from(bytes: &[u8], off: usize) -> (r: u32) {
        let r = get_u32(bytes, off);
        assert(bytes@.subrange(off as int, off + 8).subrange(0, 4) =~= bytes@.subrange(
            off as int,
            off + 4,
        ));
        r
    }
}

} // verus!
