//! Byte-level building blocks of the single-datum encoding: zig-zag integers,
//! base-128 varints and little-endian 64-bit words.
use vstd::prelude::*;

verus! {

/// Why a byte buffer could not be read as a datum.
#[derive(PartialEq, Eq, Structural, Clone, Copy, Debug)]
pub enum DecodeError {
    /// Fewer bytes remain than a value's encoding needs.
    Truncated,
    /// A varint runs past ten bytes or past 64 bits, a length is negative,
    /// an integer is out of range, text is not UTF-8, or a field is of a
    /// declared type this codec does not read.
    Malformed,
    /// The datum was read, but bytes other than the tolerated padding are left.
    TrailingData,
}

/// Zig-zag mapping of a signed integer onto the naturals.
pub open spec fn zigzag(n: int) -> nat {
    if n >= 0 {
        (2 * n) as nat
    } else {
        (-2 * n - 1) as nat
    }
}

/// Inverse of `zigzag`.
pub open spec fn unzigzag(z: nat) -> int {
    if z % 2 == 0 {
        (z / 2) as int
    } else {
        -((z / 2) as int) - 1
    }
}

/// Little-endian base-128 encoding, high bit set on every byte but the last.
pub open spec fn varint(z: nat) -> Seq<u8>
    decreases z,
{
    if z < 128 {
        seq![z as u8]
    } else {
        seq![(z % 128 + 128) as u8] + varint(z / 128)
    }
}

/// Encoding of a signed integer: zig-zag, then varint.
pub open spec fn long_bytes(n: int) -> Seq<u8> {
    varint(zigzag(n))
}

/// Exclusive bound on the value a varint can still add from its `j`-th byte on.
pub open spec fn cap(j: nat) -> nat
    decreases 9 - j,
{
    if j >= 9 {
        2
    } else {
        128 * cap(j + 1)
    }
}

/// Reads the varint whose `j`-th byte stands at `p`: its value and the
/// position just past it.
pub open spec fn varint_at(b: Seq<u8>, p: int, j: nat) -> Result<(nat, int), DecodeError>
    decreases 10 - j,
{
    if j >= 10 {
        Err(DecodeError::Malformed)
    } else if p < 0 || p >= b.len() {
        Err(DecodeError::Truncated)
    } else if b[p] < 128 {
        if j == 9 && b[p] > 1 {
            Err(DecodeError::Malformed)
        } else {
            Ok((b[p] as nat, p + 1))
        }
    } else {
        match varint_at(b, p + 1, j + 1) {
            Ok((v, e)) => Ok((((b[p] - 128) + 128 * v) as nat, e)),
            Err(x) => Err(x),
        }
    }
}

/// Reads a zig-zag varint at `p`.
pub open spec fn long_at(b: Seq<u8>, p: int) -> Result<(int, int), DecodeError> {
    match varint_at(b, p, 0) {
        Ok((z, e)) => Ok((unzigzag(z), e)),
        Err(x) => Err(x),
    }
}

/// `n` bytes of `x`, least significant first.
pub open spec fn le_bytes(x: nat, n: nat) -> Seq<u8>
    decreases n,
{
    if n == 0 {
        seq![]
    } else {
        seq![(x % 256) as u8] + le_bytes(x / 256, (n - 1) as nat)
    }
}

/// The number whose little-endian bytes are `b`.
pub open spec fn le_value(b: Seq<u8>) -> nat
    decreases b.len(),
{
    if b.len() == 0 {
        0
    } else {
        b[0] as nat + 256 * le_value(b.drop_first())
    }
}

pub open spec fn pow256(n: nat) -> nat
    decreases n,
{
    if n == 0 {
        1
    } else {
        256 * pow256((n - 1) as nat)
    }
}

proof fn lemma_cap(j: nat)
    requires
        j <= 9,
    ensures
        2 <= cap(j) <= 0x1_0000_0000_0000_0000,
    decreases j,
{
    if j == 0 {
        reveal_with_fuel(cap, 10);
    } else {
        lemma_cap((j - 1) as nat);
    }
}

proof fn lemma_varint_at_bound(b: Seq<u8>, p: int, j: nat)
    ensures
        varint_at(b, p, j) matches Ok((v, e)) ==> v < cap(j) && p < e <= b.len(),
    decreases 10 - j,
{
    if j < 10 && 0 <= p < b.len() && b[p] >= 128 {
        lemma_varint_at_bound(b, p + 1, j + 1);
        if let Ok((w, e)) = varint_at(b, p + 1, j + 1) {
            assert(cap(j) == 128 * cap(j + 1));
        }
    } else if j <= 9 {
        lemma_cap(j);
    }
}

/// Zig-zag of a 64-bit integer.
pub fn zigzag64(n: i64) -> (z: u64)
    ensures
        z == zigzag(n as int),
{
    if n >= 0 {
        (n as u64) * 2
    } else {
        ((-(n + 1)) as u64) * 2 + 1
    }
}

/// Inverse zig-zag of a 64-bit word.
pub fn unzigzag64(z: u64) -> (n: i64)
    ensures
        n == unzigzag(z as nat),
{
    if z % 2 == 0 {
        (z / 2) as i64
    } else {
        -((z / 2) as i64) - 1
    }
}

/// Reading back a varint written at `p` gives its value and its end.
pub proof fn lemma_varint_read(z: nat, b: Seq<u8>, p: int, j: nat)
    requires
        j <= 9,
        z < cap(j),
        0 <= p,
        p + varint(z).len() <= b.len(),
        b.subrange(p, p + varint(z).len()) == varint(z),
    ensures
        varint_at(b, p, j) == Ok::<(nat, int), DecodeError>((z, p + varint(z).len())),
    decreases z,
{
    let w = varint(z);
    assert(b[p] == w[0]);
    if z >= 128 {
        if j >= 9 {
            assert(cap(j) == 2);
        }
        let t = varint(z / 128);
        assert(w == seq![(z % 128 + 128) as u8] + t);
        assert(b.subrange(p + 1, p + 1 + t.len()) =~= w.subrange(1, w.len() as int));
        assert(w.subrange(1, w.len() as int) =~= t);
        lemma_varint_read(z / 128, b, p + 1, j + 1);
    }
}

/// Reads a varint from `b` at `p`, `j` bytes of it already read.
pub fn read_varint(b: &[u8], p: usize, j: usize) -> (r: Result<(u64, usize), DecodeError>)
    requires
        j <= 10,
    ensures
        match varint_at(b@, p as int, j as nat) {
            Ok((v, e)) => r == Ok::<(u64, usize), DecodeError>((v as u64, e as usize)) && v
                < 0x1_0000_0000_0000_0000,
            Err(x) => r == Err::<(u64, usize), DecodeError>(x),
        },
    decreases 10 - j,
{
    if j >= 10 {
        return Err(DecodeError::Malformed);
    }
    if p >= b.len() {
        return Err(DecodeError::Truncated);
    }
    proof {
        lemma_varint_at_bound(b@, p as int, j as nat);
        lemma_cap(j as nat);
    }
    let byte = b[p];
    if byte < 128 {
        if j == 9 && byte > 1 {
            Err(DecodeError::Malformed)
        } else {
            Ok((byte as u64, p + 1))
        }
    } else {
        match read_varint(b, p + 1, j + 1) {
            Ok((v, e)) => {
                proof {
                    lemma_varint_at_bound(b@, p + 1, (j + 1) as nat);
                    assert(cap(j as nat) == 128 * cap((j + 1) as nat));
                }
                Ok(((byte - 128) as u64 + 128 * v, e))
            },
            Err(x) => Err(x),
        }
    }
}

/// Appends the varint of `z` to `out`.
pub fn write_varint(out: &mut Vec<u8>, z: u64)
    ensures
        final(out)@ == old(out)@ + varint(z as nat),
{
    let mut v: u64 = z;
    while v >= 128
        invariant
            out@ + varint(v as nat) == old(out)@ + varint(z as nat),
        decreases v,
    {
        let ghost before = out@;
        out.push((v % 128 + 128) as u8);
        proof {
            assert(varint(v as nat) == seq![(v % 128 + 128) as u8] + varint((v / 128) as nat));
            assert(before + varint(v as nat) =~= out@ + varint((v / 128) as nat));
        }
        v = v / 128;
    }
    out.push(v as u8);
    proof {
        assert(varint(v as nat) == seq![v as u8]);
    }
}

/// Appends the zig-zag varint of `n` to `out`.
pub fn write_long(out: &mut Vec<u8>, n: i64)
    ensures
        final(out)@ == old(out)@ + long_bytes(n as int),
{
    let z = zigzag64(n);
    write_varint(out, z);
}

/// Reads a zig-zag varint from `b` at `p`.
pub fn read_long(b: &[u8], p: usize) -> (r: Result<(i64, usize), DecodeError>)
    ensures
        match long_at(b@, p as int) {
            Ok((n, e)) => r == Ok::<(i64, usize), DecodeError>((n as i64, e as usize)),
            Err(x) => r == Err::<(i64, usize), DecodeError>(x),
        },
        long_at(b@, p as int) matches Ok((n, e)) ==> i64::MIN <= n <= i64::MAX && p < e <= b@.len(),
{
    proof {
        lemma_varint_at_bound(b@, p as int, 0);
    }
    match read_varint(b, p, 0) {
        Ok((z, e)) => Ok((unzigzag64(z), e)),
        Err(x) => Err(x),
    }
}

/// Reading back a zig-zag varint written at `p` gives the integer and its end.
pub proof fn lemma_long_read(n: int, b: Seq<u8>, p: int)
    requires
        i64::MIN <= n <= i64::MAX,
        0 <= p,
        p + long_bytes(n).len() <= b.len(),
        b.subrange(p, p + long_bytes(n).len()) == long_bytes(n),
    ensures
        long_at(b, p) == Ok::<(int, int), DecodeError>((n, p + long_bytes(n).len())),
{
    reveal_with_fuel(cap, 10);
    lemma_varint_read(zigzag(n), b, p, 0);
    assert(unzigzag(zigzag(n)) == n);
}

proof fn lemma_le_value_bound(b: Seq<u8>)
    ensures
        le_value(b) < pow256(b.len()),
    decreases b.len(),
{
    if b.len() > 0 {
        lemma_le_value_bound(b.drop_first());
        assert(le_value(b.drop_first()) + 1 <= pow256((b.len() - 1) as nat));
        assert(256 * (le_value(b.drop_first()) + 1) <= 256 * pow256((b.len() - 1) as nat))
            by (nonlinear_arith)
            requires
                le_value(b.drop_first()) + 1 <= pow256((b.len() - 1) as nat),
        ;
    }
}

/// The little-endian bytes of a number below `256^n` read back as that number.
pub proof fn lemma_le_round_trip(x: nat, n: nat)
    requires
        x < pow256(n),
    ensures
        le_bytes(x, n).len() == n,
        le_value(le_bytes(x, n)) == x,
    decreases n,
{
    if n > 0 {
        assert(x / 256 < pow256((n - 1) as nat));
        lemma_le_round_trip(x / 256, (n - 1) as nat);
        assert(le_bytes(x, n).drop_first() =~= le_bytes(x / 256, (n - 1) as nat));
    }
}

/// Reads `n` bytes from `p` as a little-endian number.
pub fn read_le(b: &[u8], p: usize, n: usize) -> (r: u64)
    requires
        n <= 8,
        p + n <= b.len(),
    ensures
        r == le_value(b@.subrange(p as int, p + n)),
    decreases n,
{
    if n == 0 {
        0
    } else {
        let rest = read_le(b, p + 1, n - 1);
        proof {
            let s = b@.subrange(p as int, p + n);
            assert(s.drop_first() =~= b@.subrange(p + 1, p + n));
            lemma_le_value_bound(b@.subrange(p + 1, p + n));
            reveal_with_fuel(pow256, 8);
            assert(rest < pow256((n - 1) as nat));
            assert(pow256((n - 1) as nat) <= 0x0100_0000_0000_0000);
        }
        b[p] as u64 + 256 * rest
    }
}

/// Appends the eight little-endian bytes of `x` to `out`.
pub fn write_le64(out: &mut Vec<u8>, x: u64)
    ensures
        final(out)@ == old(out)@ + le_bytes(x as nat, 8),
{
    let mut v: u64 = x;
    let mut i: usize = 0;
    while i < 8
        invariant
            i <= 8,
            out@ + le_bytes(v as nat, (8 - i) as nat) == old(out)@ + le_bytes(x as nat, 8),
        decreases 8 - i,
    {
        let ghost before = out@;
        out.push((v % 256) as u8);
        proof {
            assert(le_bytes(v as nat, (8 - i) as nat) == seq![(v % 256) as u8] + le_bytes(
                (v / 256) as nat,
                (8 - i - 1) as nat,
            ));
            assert(before + le_bytes(v as nat, (8 - i) as nat) =~= out@ + le_bytes(
                (v / 256) as nat,
                (8 - i - 1) as nat,
            ));
        }
        v = v / 256;
        i = i + 1;
    }
    proof {
        assert(le_bytes(v as nat, 0) =~= Seq::<u8>::empty());
        assert(out@ =~= out@ + le_bytes(v as nat, 0));
    }
}

/// A zig-zag varint that reads at all reads as a 64-bit integer.
pub proof fn lemma_long_at_range(b: Seq<u8>, p: int)
    ensures
        long_at(b, p) matches Ok((n, e)) ==> i64::MIN <= n <= i64::MAX && p < e <= b.len(),
{
    lemma_varint_at_bound(b, p, 0);
    reveal_with_fuel(cap, 10);
}

/// Appends the bytes of `b` to `out`.
pub fn append_bytes(out: &mut Vec<u8>, b: &[u8])
    ensures
        final(out)@ == old(out)@ + b@,
{
    let mut i: usize = 0;
    while i < b.len()
        invariant
            i <= b@.len(),
            out@ == old(out)@ + b@.subrange(0, i as int),
        decreases b@.len() - i,
    {
        out.push(b[i]);
        i = i + 1;
        assert(out@ =~= old(out)@ + b@.subrange(0, i as int));
    }
    assert(b@.subrange(0, i as int) =~= b@);
}

} // verus!
