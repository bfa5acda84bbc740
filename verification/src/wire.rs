//! Big-endian integers and byte strings.
use vstd::prelude::*;
use vstd::slice::{slice_subrange, slice_to_vec};

verus! {

/// The number that a byte string denotes, most significant byte first.
pub open spec fn be_nat(s: Seq<u8>) -> nat
    decreases s.len(),
{
    if s.len() == 0 {
        0
    } else {
        be_nat(s.drop_last()) * 256 + s.last() as nat
    }
}

/// The last `k` base-256 digits of `n`, most significant first.
pub open spec fn be_bytes(n: nat, k: nat) -> Seq<u8>
    decreases k,
{
    if k == 0 {
        Seq::empty()
    } else {
        be_bytes(n / 256, (k - 1) as nat).push((n % 256) as u8)
    }
}

/// 256 to the power `k`.
pub open spec fn pow256(k: nat) -> nat
    decreases k,
{
    if k == 0 {
        1
    } else {
        256 * pow256((k - 1) as nat)
    }
}

/// The 16-bit number at position `i` of `s`.
pub open spec fn u16_at(s: Seq<u8>, i: int) -> u16 {
    (s[i] * 256 + s[i + 1]) as u16
}

/// The 32-bit number at position `i` of `s`.
pub open spec fn u32_at(s: Seq<u8>, i: int) -> u32 {
    (s[i] * 0x100_0000 + s[i + 1] * 0x1_0000 + s[i + 2] * 0x100 + s[i + 3]) as u32
}

pub proof fn lemma_be_bytes_len(n: nat, k: nat)
    ensures
        be_bytes(n, k).len() == k,
    decreases k,
{
    if k > 0 {
        lemma_be_bytes_len(n / 256, (k - 1) as nat);
    }
}

/// Writing a number in `k` bytes and reading it back gives the number.
pub proof fn lemma_be_nat_of_bytes(n: nat, k: nat)
    requires
        n < pow256(k),
    ensures
        be_nat(be_bytes(n, k)) == n,
    decreases k,
{
    lemma_be_bytes_len(n, k);
    if k > 0 {
        assert(n / 256 < pow256((k - 1) as nat)) by (nonlinear_arith)
            requires
                n < 256 * pow256((k - 1) as nat),
        ;
        lemma_be_nat_of_bytes(n / 256, (k - 1) as nat);
        assert(be_bytes(n, k).drop_last() =~= be_bytes(n / 256, (k - 1) as nat));
    }
}

/// A byte string is determined by its length and the number it denotes.
pub proof fn lemma_be_bytes_of_nat(s: Seq<u8>)
    ensures
        be_bytes(be_nat(s), s.len()) == s,
        be_nat(s) < pow256(s.len()),
    decreases s.len(),
{
    if s.len() > 0 {
        lemma_be_bytes_of_nat(s.drop_last());
        let n: nat = be_nat(s);
        assert(n / 256 == be_nat(s.drop_last()) && n % 256 == s.last());
        assert(be_bytes(n, s.len()) =~= s);
    } else {
        assert(be_bytes(be_nat(s), s.len()) =~= s);
    }
}

pub proof fn lemma_be2(v: u16)
    ensures
        be_bytes(v as nat, 2) == seq![(v / 256) as u8, (v % 256) as u8],
{
    reveal_with_fuel(be_bytes, 3);
    assert(be_bytes(v as nat, 2) =~= seq![(v / 256) as u8, (v % 256) as u8]);
}

pub proof fn lemma_be4(v: u32)
    ensures
        be_bytes(v as nat, 4) == seq![
            (v / 0x100_0000) as u8,
            ((v / 0x1_0000) % 256) as u8,
            ((v / 0x100) % 256) as u8,
            (v % 256) as u8,
        ],
{
    reveal_with_fuel(be_bytes, 5);
    assert(be_bytes(v as nat, 4) =~= seq![
        (v / 0x100_0000) as u8,
        ((v / 0x1_0000) % 256) as u8,
        ((v / 0x100) % 256) as u8,
        (v % 256) as u8,
    ]);
}

/// A 16-bit number that stands somewhere is read from there.
pub proof fn lemma_u16_field(s: Seq<u8>, i: int, v: u16)
    requires
        0 <= i,
        i + 2 <= s.len(),
        s.subrange(i, i + 2) == be_bytes(v as nat, 2),
    ensures
        u16_at(s, i) == v,
{
    lemma_be2(v);
    let t = s.subrange(i, i + 2);
    assert(s[i] == t[0] && s[i + 1] == t[1]);
}

/// A 32-bit number that stands somewhere is read from there.
pub proof fn lemma_u32_field(s: Seq<u8>, i: int, v: u32)
    requires
        0 <= i,
        i + 4 <= s.len(),
        s.subrange(i, i + 4) == be_bytes(v as nat, 4),
    ensures
        u32_at(s, i) == v,
{
    lemma_be4(v);
    let t = s.subrange(i, i + 4);
    assert(s[i] == t[0] && s[i + 1] == t[1] && s[i + 2] == t[2] && s[i + 3] == t[3]);
}

/// Appends a 16-bit number.
pub fn put_u16(buf: &mut Vec<u8>, v: u16)
    ensures
        final(buf)@ == old(buf)@ + be_bytes(v as nat, 2),
{
    proof {
        lemma_be2(v);
    }
    buf.push((v / 256) as u8);
    buf.push((v % 256) as u8);
    assert(buf@ =~= old(buf)@ + be_bytes(v as nat, 2));
}

/// Appends a 32-bit number.
pub fn put_u32(buf: &mut Vec<u8>, v: u32)
    ensures
        final(buf)@ == old(buf)@ + be_bytes(v as nat, 4),
{
    proof {
        lemma_be4(v);
    }
    buf.push((v / 0x100_0000) as u8);
    buf.push(((v / 0x1_0000) % 256) as u8);
    buf.push(((v / 0x100) % 256) as u8);
    buf.push((v % 256) as u8);
    assert(buf@ =~= old(buf)@ + be_bytes(v as nat, 4));
}

/// Appends a byte string.
pub fn put_slice(buf: &mut Vec<u8>, data: &[u8])
    ensures
        final(buf)@ == old(buf)@ + data@,
{
    buf.extend_from_slice(data);
    assert(buf@ =~= old(buf)@ + data@);
}

/// Reads the 16-bit number at `at`.
pub fn read_u16(data: &[u8], at: usize) -> (v: u16)
    requires
        at + 2 <= data@.len(),
    ensures
        v == u16_at(data@, at as int),
{
    data[at] as u16 * 256 + data[at + 1] as u16
}

/// Reads the 32-bit number at `at`.
pub fn read_u32(data: &[u8], at: usize) -> (v: u32)
    requires
        at + 4 <= data@.len(),
    ensures
        v == u32_at(data@, at as int),
{
    data[at] as u32 * 0x100_0000 + data[at + 1] as u32 * 0x1_0000 + data[at + 2] as u32 * 0x100
        + data[at + 3] as u32
}

/// Copies the bytes from `from` up to `to`.
pub fn copy_range(data: &[u8], from: usize, to: usize) -> (r: Vec<u8>)
    requires
        from <= to <= data@.len(),
    ensures
        r@ == data@.subrange(from as int, to as int),
{
    slice_to_vec(slice_subrange(data, from, to))
}

/// True when two byte strings are equal.
pub fn same_bytes(a: &[u8], b: &[u8]) -> (r: bool)
    ensures
        r == (a@ == b@),
{
    if a.len() != b.len() {
        return false;
    }
    let mut i: usize = 0;
    while i < a.len()
        invariant
            i <= a@.len(),
            a@.len() == b@.len(),
            forall|j: int| 0 <= j < i ==> a@[j] == b@[j],
        decreases a@.len() - i,
    {
        if a[i] != b[i] {
            return false;
        }
        i = i + 1;
    }
    assert(a@ =~= b@);
    true
}

} // verus!
