//! Big-endian integers, as they stand in a record's header.

use vstd::prelude::*;

verus! {

/// 256 to the power `n`.
pub open spec fn pow256(n: nat) -> nat
    decreases n,
{
    if n == 0 {
        1
    } else {
        256 * pow256((n - 1) as nat)
    }
}

/// The number that the bytes `s` spell, most significant byte first.
pub open spec fn be_value(s: Seq<u8>) -> nat
    decreases s.len(),
{
    if s.len() == 0 {
        0
    } else {
        be_value(s.drop_last()) * 256 + s.last() as nat
    }
}

/// The `n` low-order bytes of `x`, most significant byte first.
pub open spec fn be_bytes(x: nat, n: nat) -> Seq<u8>
    decreases n,
{
    if n == 0 {
        Seq::empty()
    } else {
        be_bytes(x / 256, (n - 1) as nat).push((x % 256) as u8)
    }
}

/// The powers of 256 at the widths that a header uses.
pub proof fn lemma_pow256_values()
    ensures
        pow256(0) == 1,
        pow256(1) == 0x100,
        pow256(2) == 0x1_0000,
        pow256(4) == 0x1_0000_0000,
        pow256(8) == 0x1_0000_0000_0000_0000,
        pow256(16) == 0x1_0000_0000_0000_0000_0000_0000_0000_0000,
{
    reveal_with_fuel(pow256, 17);
}

/// A number written in `n` bytes takes `n` bytes.
pub proof fn lemma_be_bytes_len(x: nat, n: nat)
    ensures
        be_bytes(x, n).len() == n,
    decreases n,
{
    if n > 0 {
        lemma_be_bytes_len(x / 256, (n - 1) as nat);
    }
}

/// The bytes of a number below `256^n` spell that number.
pub proof fn lemma_be_value_of_bytes(x: nat, n: nat)
    requires
        x < pow256(n),
    ensures
        be_value(be_bytes(x, n)) == x,
    decreases n,
{
    if n > 0 {
        let m = (n - 1) as nat;
        assert(x / 256 < pow256(m)) by (nonlinear_arith)
            requires
                x < 256 * pow256(m),
        ;
        lemma_be_value_of_bytes(x / 256, m);
        let s = be_bytes(x, n);
        assert(s.drop_last() =~= be_bytes(x / 256, m));
        assert(s.last() == (x % 256) as u8);
        assert(x == (x / 256) * 256 + x % 256) by (nonlinear_arith);
    }
}

/// What `n` bytes spell is below `256^n`.
pub proof fn lemma_be_value_bound(s: Seq<u8>)
    ensures
        be_value(s) < pow256(s.len()),
    decreases s.len(),
{
    if s.len() > 0 {
        lemma_be_value_bound(s.drop_last());
        let hi = be_value(s.drop_last());
        let p = pow256((s.len() - 1) as nat);
        assert(hi * 256 + (s.last() as nat) < 256 * p) by (nonlinear_arith)
            requires
                hi < p,
                (s.last() as nat) < 256,
        ;
    }
}

/// Reads the big-endian number that stands in `data[start..start + width]`.
pub fn read_be(data: &[u8], start: usize, width: usize) -> (r: u128)
    requires
        width <= 16,
        start + width <= data@.len(),
    ensures
        r == be_value(data@.subrange(start as int, start + width)),
{
    let total: usize = data.len();
    let mut acc: u128 = 0;
    let mut i: usize = 0;
    while i < width
        invariant
            i <= width <= 16,
            total == data@.len(),
            start + width <= data@.len(),
            acc == be_value(data@.subrange(start as int, start + i)),
        decreases width - i,
    {
        let b: u8 = data[start + i];
        proof {
            let before = data@.subrange(start as int, start + i);
            let after = data@.subrange(start as int, start + i + 1);
            assert(after.drop_last() =~= before);
            assert(after.last() == b);
            lemma_be_value_bound(before);
            lemma_be_value_bound(after);
            lemma_pow256_monotonic((i + 1) as nat, 16);
            lemma_pow256_values();
        }
        acc = acc * 256 + b as u128;
        i = i + 1;
    }
    acc
}

/// The powers of 256 do not fall.
pub proof fn lemma_pow256_monotonic(a: nat, b: nat)
    requires
        a <= b,
    ensures
        pow256(a) <= pow256(b),
    decreases b,
{
    if a < b {
        lemma_pow256_monotonic(a, (b - 1) as nat);
    }
}

/// Appends to `out` the `width` low-order bytes of `x`, most significant
/// byte first.
pub fn push_be(out: &mut Vec<u8>, x: u128, width: usize)
    requires
        width <= 16,
    ensures
        final(out)@ == old(out)@ + be_bytes(x as nat, width as nat),
{
    let base: usize = out.len();
    let mut i: usize = 0;
    while i < width
        invariant
            i <= width <= 16,
            out@.len() == base + i,
            base == old(out)@.len(),
            out@.subrange(0, base as int) == old(out)@,
        decreases width - i,
    {
        out.push(0u8);
        proof {
            assert(out@.subrange(0, base as int) =~= old(out)@);
        }
        i = i + 1;
    }
    let mut rest: u128 = x;
    let mut k: usize = width;
    proof {
        assert(be_bytes(x as nat, width as nat) + out@.subrange(base + k, base + width)
            =~= be_bytes(x as nat, width as nat));
    }
    while k > 0
        invariant
            k <= width <= 16,
            out@.len() == base + width,
            base == old(out)@.len(),
            out@.subrange(0, base as int) == old(out)@,
            be_bytes(x as nat, width as nat) == be_bytes(rest as nat, k as nat) + out@.subrange(
                base + k,
                base + width,
            ),
        decreases k,
    {
        let ghost tail = out@.subrange(base + k, base + width);
        let total: usize = out.len();
        k = k - 1;
        let b: u8 = (rest % 256) as u8;
        out[base + k] = b;
        proof {
            assert(out@.subrange(0, base as int) =~= old(out)@);
            assert(out@.subrange(base + k, base + width) =~= seq![b] + tail);
            assert(be_bytes(rest as nat, (k + 1) as nat) == be_bytes(rest as nat / 256, k as nat).push(b));
            assert(be_bytes(rest as nat / 256, k as nat).push(b) + tail =~= be_bytes(
                rest as nat / 256,
                k as nat,
            ) + (seq![b] + tail));
        }
        rest = rest / 256;
    }
    proof {
        assert(be_bytes(rest as nat, 0) =~= Seq::<u8>::empty());
        assert(out@ =~= old(out)@ + be_bytes(x as nat, width as nat));
    }
}

} // verus!
