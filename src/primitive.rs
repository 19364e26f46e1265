//! Fixed-width unsigned integers in either byte order, and alignment padding.
use vstd::prelude::*;

verus! {

/// Byte order of every multi-byte number in a file.
#[derive(Clone, Copy, Debug, PartialEq, Eq, Structural)]
pub enum Endianness {
    Little,
    Big,
}

pub open spec fn pow256(n: nat) -> nat
    decreases n,
{
    if n == 0 {
        1
    } else {
        256 * pow256((n - 1) as nat)
    }
}

/// Value of `s` read least significant byte first.
pub open spec fn uint_le(s: Seq<u8>) -> nat
    decreases s.len(),
{
    if s.len() == 0 {
        0
    } else {
        s[0] as nat + 256 * uint_le(s.drop_first())
    }
}

/// Value of `s` read most significant byte first.
pub open spec fn uint_be(s: Seq<u8>) -> nat
    decreases s.len(),
{
    if s.len() == 0 {
        0
    } else {
        uint_be(s.drop_last()) * 256 + s.last() as nat
    }
}

pub open spec fn uint_of(s: Seq<u8>, e: Endianness) -> nat {
    match e {
        Endianness::Little => uint_le(s),
        Endianness::Big => uint_be(s),
    }
}

/// The low `n` bytes of `v`, least significant first.
pub open spec fn bytes_le(v: nat, n: nat) -> Seq<u8>
    decreases n,
{
    if n == 0 {
        Seq::empty()
    } else {
        seq![(v % 256) as u8] + bytes_le(v / 256, (n - 1) as nat)
    }
}

/// The low `n` bytes of `v`, most significant first.
pub open spec fn bytes_be(v: nat, n: nat) -> Seq<u8>
    decreases n,
{
    if n == 0 {
        Seq::empty()
    } else {
        bytes_be(v / 256, (n - 1) as nat).push((v % 256) as u8)
    }
}

pub open spec fn bytes_of(v: nat, n: nat, e: Endianness) -> Seq<u8> {
    match e {
        Endianness::Little => bytes_le(v, n),
        Endianness::Big => bytes_be(v, n),
    }
}

/// Zero bytes that bring a payload of `n` bytes to a multiple of eight.
pub open spec fn pad8(n: nat) -> nat {
    ((8 - n % 8) % 8) as nat
}

pub open spec fn zeros(n: nat) -> Seq<u8> {
    Seq::new(n, |i: int| 0u8)
}

/// The powers of 256 that the codecs use.
pub proof fn lemma_pow256_values()
    ensures
        pow256(0) == 1,
        pow256(1) == 0x100,
        pow256(2) == 0x1_0000,
        pow256(4) == 0x1_0000_0000,
        pow256(7) == 0x100_0000_0000_0000,
        pow256(8) == 0x1_0000_0000_0000_0000,
{
    reveal_with_fuel(pow256, 9);
}

/// Powers of 256 grow with the exponent.
pub proof fn lemma_pow256_mono(a: nat, b: nat)
    requires
        a <= b,
    ensures
        pow256(a) <= pow256(b),
    decreases b,
{
    if a < b {
        lemma_pow256_mono(a, (b - 1) as nat);
    }
}

/// `bytes_of` gives exactly `n` bytes.
pub proof fn lemma_bytes_len(v: nat, n: nat, e: Endianness)
    ensures
        bytes_of(v, n, e).len() == n,
    decreases n,
{
    if n > 0 {
        lemma_bytes_len(v / 256, (n - 1) as nat, e);
    }
}

/// `n` bytes hold a value below `256^n`.
pub proof fn lemma_uint_bound(s: Seq<u8>, e: Endianness)
    ensures
        uint_of(s, e) < pow256(s.len()),
    decreases s.len(),
{
    if s.len() > 0 {
        lemma_uint_bound(s.drop_first(), e);
        lemma_uint_bound(s.drop_last(), e);
    }
}

/// Reading back the bytes of a value gives the value.
pub proof fn lemma_uint_of_bytes(v: nat, n: nat, e: Endianness)
    requires
        v < pow256(n),
    ensures
        uint_of(bytes_of(v, n, e), e) == v,
    decreases n,
{
    if n > 0 {
        lemma_uint_of_bytes(v / 256, (n - 1) as nat, e);
        match e {
            Endianness::Little => {
                let b = bytes_le(v, n);
                assert(b.drop_first() =~= bytes_le(v / 256, (n - 1) as nat));
            },
            Endianness::Big => {
                let b = bytes_be(v, n);
                assert(b.drop_last() =~= bytes_be(v / 256, (n - 1) as nat));
            },
        }
    }
}

proof fn lemma_be_is_reversed_le(v: nat, n: nat, j: int)
    requires
        0 <= j < n,
    ensures
        bytes_be(v, n).len() == n,
        bytes_le(v, n).len() == n,
        bytes_be(v, n)[j] == bytes_le(v, n)[n - 1 - j],
    decreases n,
{
    lemma_bytes_len(v, n, Endianness::Big);
    lemma_bytes_len(v, n, Endianness::Little);
    lemma_bytes_len(v / 256, (n - 1) as nat, Endianness::Big);
    lemma_bytes_len(v / 256, (n - 1) as nat, Endianness::Little);
    if j < n - 1 {
        lemma_be_is_reversed_le(v / 256, (n - 1) as nat, j);
    }
}

/// Reads `n` bytes of `s` from `pos` as an unsigned number.
pub fn read_uint(s: &[u8], pos: usize, n: usize, e: Endianness) -> (r: u64)
    requires
        pos + n <= s@.len(),
        n <= 8,
    ensures
        r == uint_of(s@.subrange(pos as int, pos + n), e),
{
    proof {
        lemma_pow256_values();
    }
    let mut acc: u64 = 0;
    let len = s.len();
    match e {
        Endianness::Little => {
            let mut i: usize = n;
            while i > 0
                invariant
                    i <= n <= 8,
                    pos + n <= s@.len(),
                    len == s@.len(),
                    acc == uint_le(s@.subrange(pos + i, pos + n)),
                decreases i,
            {
                proof {
                    let t = s@.subrange(pos + i, pos + n);
                    assert(t.len() == n - i);
                    lemma_uint_bound(t, Endianness::Little);
                    assert(acc < pow256((n - i) as nat));
                    lemma_pow256_mono((n - i) as nat, 7);
                    lemma_pow256_values();
                    assert(acc < 0x100_0000_0000_0000);
                    assert(s@.subrange(pos + i - 1, pos + n).drop_first() =~= t);
                }
                acc = acc * 256 + s[pos + i - 1] as u64;
                i = i - 1;
            }
            assert(s@.subrange(pos + i, pos + n) =~= s@.subrange(pos as int, pos + n));
        },
        Endianness::Big => {
            let mut i: usize = 0;
            while i < n
                invariant
                    i <= n <= 8,
                    pos + n <= s@.len(),
                    len == s@.len(),
                    acc == uint_be(s@.subrange(pos as int, pos + i)),
                decreases n - i,
            {
                proof {
                    let t = s@.subrange(pos as int, pos + i);
                    assert(t.len() == i);
                    lemma_uint_bound(t, Endianness::Big);
                    assert(acc < pow256(i as nat));
                    lemma_pow256_mono(i as nat, 7);
                    lemma_pow256_values();
                    assert(acc < 0x100_0000_0000_0000);
                    assert(s@.subrange(pos as int, pos + i + 1).drop_last() =~= t);
                }
                acc = acc * 256 + s[pos + i] as u64;
                i = i + 1;
            }
        },
    }
    acc
}

fn push_le(out: &mut Vec<u8>, v: u64, n: usize)
    requires
        n <= 8,
    ensures
        final(out)@ == old(out)@ + bytes_le(v as nat, n as nat),
{
    let mut x: u64 = v;
    let mut i: usize = 0;
    while i < n
        invariant
            i <= n,
            old(out)@ + bytes_le(v as nat, n as nat) == out@ + bytes_le(x as nat, (n - i) as nat),
        decreases n - i,
    {
        let ghost before = out@;
        out.push((x % 256) as u8);
        proof {
            let rest = bytes_le((x / 256) as nat, (n - i - 1) as nat);
            assert(bytes_le(x as nat, (n - i) as nat) == seq![(x % 256) as u8] + rest);
            assert(out@ + rest =~= before + (seq![(x % 256) as u8] + rest));
        }
        x = x / 256;
        i = i + 1;
    }
    assert(out@ + bytes_le(x as nat, 0) =~= out@);
}

/// Appends the low `n` bytes of `v` to `out` in byte order `e`.
pub fn write_uint(out: &mut Vec<u8>, v: u64, n: usize, e: Endianness)
    requires
        n <= 8,
    ensures
        final(out)@ == old(out)@ + bytes_of(v as nat, n as nat, e),
{
    match e {
        Endianness::Little => push_le(out, v, n),
        Endianness::Big => {
            let mut le: Vec<u8> = Vec::new();
            push_le(&mut le, v, n);
            assert(le@ =~= bytes_le(v as nat, n as nat));
            proof {
                lemma_bytes_len(v as nat, n as nat, Endianness::Little);
            }
            let mut i: usize = 0;
            while i < n
                invariant
                    i <= n,
                    le@ == bytes_le(v as nat, n as nat),
                    le@.len() == n,
                    out@ == old(out)@ + bytes_be(v as nat, n as nat).subrange(0, i as int),
                decreases n - i,
            {
                proof {
                    lemma_be_is_reversed_le(v as nat, n as nat, i as int);
                }
                out.push(le[n - 1 - i]);
                proof {
                    let bb = bytes_be(v as nat, n as nat);
                    assert(bb.subrange(0, i + 1) =~= bb.subrange(0, i as int).push(bb[i as int]));
                }
                i = i + 1;
            }
            proof {
                lemma_bytes_len(v as nat, n as nat, Endianness::Big);
            }
            assert(bytes_be(v as nat, n as nat).subrange(0, n as int) =~= bytes_be(v as nat, n as nat));
        },
    }
}

/// Appends `n` zero bytes to `out`.
pub fn write_zeros(out: &mut Vec<u8>, n: usize)
    ensures
        final(out)@ == old(out)@ + zeros(n as nat),
{
    let mut i: usize = 0;
    while i < n
        invariant
            i <= n,
            out@ == old(out)@ + zeros(i as nat),
        decreases n - i,
    {
        out.push(0u8);
        assert(zeros((i + 1) as nat) =~= zeros(i as nat).push(0u8));
        i = i + 1;
    }
}

/// Appends the bytes of `src` to `out`.
pub fn append_bytes(out: &mut Vec<u8>, src: &[u8])
    ensures
        final(out)@ == old(out)@ + src@,
{
    let mut i: usize = 0;
    while i < src.len()
        invariant
            i <= src@.len(),
            out@ == old(out)@ + src@.subrange(0, i as int),
        decreases src@.len() - i,
    {
        out.push(src[i]);
        assert(src@.subrange(0, i + 1) =~= src@.subrange(0, i as int).push(src@[i as int]));
        i = i + 1;
    }
    assert(src@.subrange(0, src@.len() as int) =~= src@);
}

/// Padding after a long-form payload of `n` bytes.
pub fn padding8(n: u32) -> (r: u32)
    ensures
        r == pad8(n as nat),
{
    (8 - n % 8) % 8
}

} // verus!
