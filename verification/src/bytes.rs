//! Little-endian integer reads with checked ranges.

use vstd::prelude::*;

verus! {

/// The unsigned integer that `s` holds, least significant byte first.
pub open spec fn le_value(s: Seq<u8>) -> nat
    decreases s.len(),
{
    if s.len() == 0 {
        0
    } else {
        s[0] as nat + 256 * le_value(s.drop_first())
    }
}

/// `256` raised to `n`.
pub open spec fn pow256(n: nat) -> nat
    decreases n,
{
    if n == 0 {
        1
    } else {
        256 * pow256((n - 1) as nat)
    }
}

/// A little-endian value of `n` bytes is below `256^n`.
pub proof fn lemma_le_value_bound(s: Seq<u8>)
    ensures
        le_value(s) < pow256(s.len()),
    decreases s.len(),
{
    if s.len() > 0 {
        lemma_le_value_bound(s.drop_first());
    }
}

/// Only the all-ones bytes hold the largest value of their width.
pub proof fn lemma_le_value_all_ones(s: Seq<u8>)
    requires
        le_value(s) == pow256(s.len()) - 1,
    ensures
        forall|i: int| 0 <= i < s.len() ==> s[i] == 0xFF,
    decreases s.len(),
{
    if s.len() > 0 {
        let rest = s.drop_first();
        lemma_le_value_bound(rest);
        assert(pow256(s.len()) == 256 * pow256(rest.len()));
        assert(le_value(rest) == pow256(rest.len()) - 1 && s[0] == 0xFF);
        lemma_le_value_all_ones(rest);
        assert forall|i: int| 0 <= i < s.len() implies s[i] == 0xFF by {
            if i > 0 {
                assert(s[i] == rest[i - 1]);
            }
        }
    }
}

/// The powers of 256 up to the eighth.
pub proof fn lemma_pow256_values()
    ensures
        pow256(1) == 0x100,
        pow256(2) == 0x1_0000,
        pow256(3) == 0x100_0000,
        pow256(4) == 0x1_0000_0000,
        pow256(5) == 0x100_0000_0000,
        pow256(6) == 0x1_0000_0000_0000,
        pow256(7) == 0x100_0000_0000_0000,
        pow256(8) == 0x1_0000_0000_0000_0000,
{
    reveal_with_fuel(pow256, 9);
}

/// The little-endian value of `width` (at most eight) bytes of `data` at `offset`.
pub fn read_le(data: &[u8], offset: usize, width: usize) -> (r: u64)
    requires
        width <= 8,
        offset + width <= data@.len(),
    ensures
        r as nat == le_value(data@.subrange(offset as int, offset + width)),
{
    let ghost window = data@.subrange(offset as int, offset + width);
    let len = data.len();
    let mut value: u64 = 0;
    let mut i: usize = width;
    proof {
        assert(window.subrange(width as int, width as int) =~= Seq::<u8>::empty());
        lemma_pow256_values();
    }
    while i > 0
        invariant
            i <= width <= 8,
            offset + width <= data@.len(),
            len == data@.len(),
            window == data@.subrange(offset as int, offset + width),
            value as nat == le_value(window.subrange(i as int, width as int)),
            pow256(8) == 0x1_0000_0000_0000_0000,
        decreases i,
    {
        let ghost tail = window.subrange(i as int, width as int);
        proof {
            lemma_le_value_bound(tail);
            lemma_pow256_monotone(tail.len(), 7);
        }
        let byte = data[offset + i - 1];
        value = byte as u64 + 256 * value;
        i = i - 1;
        proof {
            assert(window.subrange(i as int, width as int).drop_first() =~= tail);
        }
    }
    proof {
        assert(window.subrange(0, width as int) =~= window);
    }
    value
}

/// Powers of 256 grow with the exponent.
pub proof fn lemma_pow256_monotone(a: nat, b: nat)
    requires
        a <= b,
    ensures
        pow256(a) <= pow256(b),
    decreases b,
{
    if a < b {
        lemma_pow256_monotone(a, (b - 1) as nat);
    }
}

/// The `n` low-order bytes of `v`, least significant first.
pub open spec fn le_bytes(v: nat, n: nat) -> Seq<u8> {
    Seq::new(n, |i: int| ((v / pow256(i as nat)) % 256) as u8)
}

proof fn lemma_pow256_positive(n: nat)
    ensures
        pow256(n) >= 1,
    decreases n,
{
    if n > 0 {
        lemma_pow256_positive((n - 1) as nat);
    }
}

/// Append the `n` low-order bytes of `v`, least significant first.
pub fn push_le(out: &mut Vec<u8>, v: u64, n: usize)
    requires
        n <= 8,
    ensures
        final(out)@ == old(out)@ + le_bytes(v as nat, n as nat),
{
    let ghost start = out@;
    let mut x: u64 = v;
    let mut i: usize = 0;
    proof {
        assert(pow256(0) == 1);
        assert(le_bytes(v as nat, 0) =~= Seq::<u8>::empty());
    }
    while i < n
        invariant
            i <= n <= 8,
            x as nat == v as nat / pow256(i as nat),
            out@ == start + le_bytes(v as nat, i as nat),
        decreases n - i,
    {
        proof {
            lemma_pow256_positive(i as nat);
            vstd::arithmetic::div_mod::lemma_div_denominator(v as int, pow256(i as nat) as int, 256);
            assert(pow256((i + 1) as nat) == 256 * pow256(i as nat));
            assert(pow256(i as nat) * 256 == 256 * pow256(i as nat)) by (nonlinear_arith);
        }
        out.push((x % 256) as u8);
        x = x / 256;
        i += 1;
        proof {
            assert(out@ =~= start + le_bytes(v as nat, i as nat));
        }
    }
}

/// `n` copies of `b`.
pub open spec fn repeat_byte(b: u8, n: nat) -> Seq<u8> {
    Seq::new(n, |i: int| b)
}

/// Append `n` copies of `b`.
pub fn push_repeat(out: &mut Vec<u8>, b: u8, n: usize)
    ensures
        final(out)@ == old(out)@ + repeat_byte(b, n as nat),
{
    let ghost start = out@;
    let mut i: usize = 0;
    while i < n
        invariant
            i <= n,
            out@ == start + repeat_byte(b, i as nat),
        decreases n - i,
    {
        out.push(b);
        i += 1;
        proof {
            assert(out@ =~= start + repeat_byte(b, i as nat));
        }
    }
}

/// `bytes` cut to `n` bytes and filled up to `n` with `fill`.
pub open spec fn fit_bytes(bytes: Seq<u8>, n: nat, fill: u8) -> Seq<u8> {
    if bytes.len() >= n {
        bytes.take(n as int)
    } else {
        bytes + repeat_byte(fill, (n - bytes.len()) as nat)
    }
}

/// Append `bytes` cut to `n` bytes and filled up to `n` with `fill`.
pub fn push_fit(out: &mut Vec<u8>, bytes: &[u8], n: usize, fill: u8)
    ensures
        final(out)@ == old(out)@ + fit_bytes(bytes@, n as nat, fill),
{
    let ghost start = out@;
    let m = if bytes.len() < n {
        bytes.len()
    } else {
        n
    };
    let mut i: usize = 0;
    while i < m
        invariant
            i <= m <= bytes@.len(),
            m <= n,
            out@ == start + bytes@.take(i as int),
        decreases m - i,
    {
        out.push(bytes[i]);
        i += 1;
        proof {
            assert(out@ =~= start + bytes@.take(i as int));
        }
    }
    push_repeat(out, fill, n - m);
    proof {
        if bytes@.len() >= n {
            assert(repeat_byte(fill, 0) =~= Seq::<u8>::empty());
            assert(out@ =~= start + bytes@.take(n as int));
        } else {
            assert(bytes@.take(m as int) =~= bytes@);
        }
    }
}

/// Append `bytes`.
pub fn push_bytes(out: &mut Vec<u8>, bytes: &[u8])
    ensures
        final(out)@ == old(out)@ + bytes@,
{
    let ghost start = out@;
    let mut i: usize = 0;
    while i < bytes.len()
        invariant
            i <= bytes@.len(),
            out@ == start + bytes@.take(i as int),
        decreases bytes@.len() - i,
    {
        out.push(bytes[i]);
        i += 1;
        proof {
            assert(out@ =~= start + bytes@.take(i as int));
        }
    }
    proof {
        assert(bytes@.take(i as int) =~= bytes@);
    }
}

/// Whether two byte strings are equal.
pub fn bytes_equal(a: &[u8], b: &[u8]) -> (r: bool)
    ensures
        r == (a@ == b@),
{
    if a.len() != b.len() {
        return false;
    }
    let mut i: usize = 0;
    while i < a.len()
        invariant
            i <= a@.len(),
            a@.len() == b@.len(),
            forall|k: int| 0 <= k < i ==> a@[k] == b@[k],
        decreases a@.len() - i,
    {
        if a[i] != b[i] {
            return false;
        }
        i += 1;
    }
    proof {
        assert(a@ =~= b@);
    }
    true
}

} // verus!
