//! Eight-byte big-endian integers, as the table's index section holds them.

use vstd::prelude::*;

verus! {

/// The number that the `count` bytes of `bytes` from `pos` on spell, most
/// significant byte first.
pub open spec fn be_at(bytes: Seq<u8>, pos: int, count: nat) -> int
    decreases count,
{
    if count == 0 {
        0
    } else {
        be_at(bytes, pos, (count - 1) as nat) * 256 + bytes[pos + count - 1] as int
    }
}

/// The number that the eight bytes of `bytes` from `pos` on spell.
pub open spec fn be64_at(bytes: Seq<u8>, pos: int) -> int {
    be_at(bytes, pos, 8)
}

/// The `count` bytes that spell `v`, most significant byte first.
pub open spec fn be_bytes(v: int, count: nat) -> Seq<u8>
    decreases count,
{
    if count == 0 {
        Seq::empty()
    } else {
        be_bytes(v / 256, (count - 1) as nat).push((v % 256) as u8)
    }
}

/// The eight bytes that spell `v`.
pub open spec fn be64_bytes(v: int) -> Seq<u8> {
    be_bytes(v, 8)
}

/// `be_bytes` gives as many bytes as it is asked for.
pub proof fn lemma_be_bytes_len(v: int, count: nat)
    ensures
        be_bytes(v, count).len() == count,
    decreases count,
{
    if count > 0 {
        lemma_be_bytes_len(v / 256, (count - 1) as nat);
    }
}

/// `be_at` reads no byte outside the `count` it is given.
pub proof fn lemma_be_at_local(a: Seq<u8>, pa: int, b: Seq<u8>, pb: int, count: nat)
    requires
        forall|j: int| pa <= j < pa + count ==> #[trigger] a[j] == b[j - pa + pb],
    ensures
        be_at(a, pa, count) == be_at(b, pb, count),
    decreases count,
{
    if count > 0 {
        lemma_be_at_local(a, pa, b, pb, (count - 1) as nat);
        assert(a[pa + count - 1] == b[pa + count - 1 - pa + pb]);
    }
}

/// The number that `count` bytes spell is below `256^count`; for eight
/// bytes it fits 64 bits.
pub proof fn lemma_be64_at_bound(bytes: Seq<u8>, pos: int)
    ensures
        0 <= be64_at(bytes, pos) <= u64::MAX,
{
    reveal_with_fuel(be_at, 9);
}

/// Reading the bytes that spell a number gives the number.
pub proof fn lemma_be_round_trip(v: int, count: nat)
    requires
        0 <= v,
        count == 0 ==> v == 0,
        count == 1 ==> v < 0x100,
        count == 2 ==> v < 0x1_0000,
        count == 3 ==> v < 0x100_0000,
        count == 4 ==> v < 0x1_0000_0000,
        count == 5 ==> v < 0x100_0000_0000,
        count == 6 ==> v < 0x1_0000_0000_0000,
        count == 7 ==> v < 0x100_0000_0000_0000,
        count == 8 ==> v <= u64::MAX,
        count <= 8,
    ensures
        be_at(be_bytes(v, count), 0, count) == v,
    decreases count,
{
    if count > 0 {
        let c = (count - 1) as nat;
        let head = be_bytes(v / 256, c);
        let all = be_bytes(v, count);
        lemma_be_bytes_len(v / 256, c);
        lemma_be_round_trip(v / 256, c);
        lemma_be_at_local(all, 0, head, 0, c);
        assert(all[count - 1] == (v % 256) as u8);
    }
}

/// Reading the eight bytes that spell a number gives the number.
pub proof fn lemma_be64_round_trip(v: int)
    requires
        0 <= v <= u64::MAX,
    ensures
        be64_bytes(v).len() == 8,
        be64_at(be64_bytes(v), 0) == v,
{
    lemma_be_bytes_len(v, 8);
    lemma_be_round_trip(v, 8);
}

/// Appends the eight bytes that spell `v`.
pub fn put_u64(buf: &mut Vec<u8>, v: u64)
    ensures
        final(buf)@ == old(buf)@ + be64_bytes(v as int),
{
    let q1: u64 = v / 256;
    let q2: u64 = q1 / 256;
    let q3: u64 = q2 / 256;
    let q4: u64 = q3 / 256;
    let q5: u64 = q4 / 256;
    let q6: u64 = q5 / 256;
    let q7: u64 = q6 / 256;
    buf.push((q7 % 256) as u8);
    buf.push((q6 % 256) as u8);
    buf.push((q5 % 256) as u8);
    buf.push((q4 % 256) as u8);
    buf.push((q3 % 256) as u8);
    buf.push((q2 % 256) as u8);
    buf.push((q1 % 256) as u8);
    buf.push((v % 256) as u8);
    proof {
        reveal_with_fuel(be_bytes, 9);
        assert(buf@ =~= old(buf)@ + be64_bytes(v as int));
    }
}

/// Reads the eight-byte number at `pos`.
pub fn read_u64(data: &[u8], pos: usize) -> (v: u64)
    requires
        pos + 8 <= data@.len(),
    ensures
        v == be64_at(data@, pos as int),
{
    proof {
        reveal_with_fuel(be_at, 9);
    }
    let mut v: u64 = data[pos] as u64;
    v = v * 256 + data[pos + 1] as u64;
    v = v * 256 + data[pos + 2] as u64;
    v = v * 256 + data[pos + 3] as u64;
    v = v * 256 + data[pos + 4] as u64;
    v = v * 256 + data[pos + 5] as u64;
    v = v * 256 + data[pos + 6] as u64;
    v = v * 256 + data[pos + 7] as u64;
    v
}

} // verus!
