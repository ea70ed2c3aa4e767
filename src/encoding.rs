use vstd::prelude::*;

verus! {

/// `256` to the power `n`.
pub open spec fn pow256(n: nat) -> nat
    decreases n,
{
    if n == 0 {
        1
    } else {
        256 * pow256((n - 1) as nat)
    }
}

/// The number that little-endian bytes `c` stand for.
pub open spec fn le_value(c: Seq<u8>) -> nat
    decreases c.len(),
{
    if c.len() == 0 {
        0
    } else {
        (c[0] as nat) + 256 * le_value(c.drop_first())
    }
}

/// The `n` low-order bytes of `v`, least significant first.
pub open spec fn le_bytes(v: nat, n: nat) -> Seq<u8>
    decreases n,
{
    if n == 0 {
        seq![]
    } else {
        seq![(v % 256) as u8] + le_bytes(v / 256, (n - 1) as nat)
    }
}

pub proof fn lemma_pow256_positive(n: nat)
    ensures
        pow256(n) >= 1,
    decreases n,
{
    if n > 0 {
        lemma_pow256_positive((n - 1) as nat);
    }
}

pub proof fn lemma_pow256_values()
    ensures
        pow256(8) == 0x1_0000_0000_0000_0000,
        pow256(16) == 0x1_0000_0000_0000_0000_0000_0000_0000_0000,
{
    reveal_with_fuel(pow256, 17);
}

pub proof fn lemma_pow256_monotone(a: nat, b: nat)
    requires
        a <= b,
    ensures
        pow256(a) <= pow256(b),
    decreases b,
{
    if a < b {
        lemma_pow256_monotone(a, (b - 1) as nat);
        lemma_pow256_positive((b - 1) as nat);
    }
}

pub proof fn lemma_le_bytes_len(v: nat, n: nat)
    ensures
        le_bytes(v, n).len() == n,
    decreases n,
{
    if n > 0 {
        lemma_le_bytes_len(v / 256, (n - 1) as nat);
    }
}

pub proof fn lemma_le_value_bound(c: Seq<u8>)
    ensures
        le_value(c) < pow256(c.len()),
    decreases c.len(),
{
    if c.len() > 0 {
        let r = c.drop_first();
        lemma_le_value_bound(r);
        let x = le_value(r);
        let p = pow256(r.len());
        let d = c[0] as nat;
        assert(d + 256 * x < 256 * p) by (nonlinear_arith)
            requires
                x < p,
                d < 256,
        ;
    }
}

/// Bytes written for a value read back give the same bytes.
pub proof fn lemma_le_bytes_of_value(c: Seq<u8>)
    ensures
        le_bytes(le_value(c), c.len()) == c,
    decreases c.len(),
{
    if c.len() > 0 {
        let r = c.drop_first();
        lemma_le_bytes_of_value(r);
        let v = le_value(c);
        let d = c[0] as nat;
        let x = le_value(r);
        assert(v % 256 == d && v / 256 == x) by (nonlinear_arith)
            requires
                v == d + 256 * x,
                d < 256,
        ;
        assert(le_bytes(v, c.len()) =~= seq![c[0]] + r);
        assert(seq![c[0]] + r =~= c);
    }
}

/// A value that fits in `n` bytes is read back from its bytes unchanged.
pub proof fn lemma_le_value_of_bytes(v: nat, n: nat)
    requires
        v < pow256(n),
    ensures
        le_value(le_bytes(v, n)) == v,
    decreases n,
{
    if n == 0 {
    } else {
        let q = v / 256;
        let p = pow256((n - 1) as nat);
        assert(q < p) by (nonlinear_arith)
            requires
                v < 256 * p,
                q == v / 256,
        ;
        lemma_le_value_of_bytes(q, (n - 1) as nat);
        let s = le_bytes(v, n);
        assert(s.drop_first() =~= le_bytes(q, (n - 1) as nat));
        assert(v == (v % 256) + 256 * q) by (nonlinear_arith)
            requires
                q == v / 256,
        ;
    }
}

proof fn lemma_le_value_step(c: Seq<u8>, i: int)
    requires
        0 <= i < c.len(),
    ensures
        le_value(c.subrange(i, c.len() as int)) == (c[i] as nat) + 256 * le_value(
            c.subrange(i + 1, c.len() as int),
        ),
{
    assert(c.subrange(i, c.len() as int).drop_first() =~= c.subrange(i + 1, c.len() as int));
}

/// Reads `n` little-endian bytes of `b` from `start` as a number.
pub fn read_le(b: &Vec<u8>, start: usize, n: usize) -> (r: u128)
    requires
        n <= 16,
        start + n <= b@.len(),
    ensures
        r as nat == le_value(b@.subrange(start as int, start + n)),
{
    let ghost c = b@.subrange(start as int, start + n);
    let blen = b.len();
    let mut acc: u128 = 0;
    let mut i: usize = n;
    proof {
        assert(c.subrange(n as int, n as int) =~= Seq::<u8>::empty());
    }
    while i > 0
        invariant
            i <= n,
            n <= 16,
            start + n <= b@.len(),
            blen == b@.len(),
            c == b@.subrange(start as int, start + n),
            acc as nat == le_value(c.subrange(i as int, n as int)),
        decreases i,
    {
        proof {
            lemma_le_value_step(c, (i - 1) as int);
            lemma_le_value_bound(c.subrange(i as int, n as int));
            lemma_pow256_monotone((n - i) as nat, 15);
            lemma_pow256_values();
            assert(pow256(16) == 256 * pow256(15));
            let p = pow256(15);
            let a = acc as nat;
            assert(a * 256 + 255 < 256 * p) by (nonlinear_arith)
                requires
                    a < p,
            ;
        }
        let byte = b[start + (i - 1)];
        acc = acc * 256 + byte as u128;
        i = i - 1;
    }
    proof {
        assert(c.subrange(0, n as int) =~= c);
    }
    acc
}

/// Appends the `n` low-order bytes of `v`, least significant first.
pub fn push_le(out: &mut Vec<u8>, v: u128, n: usize)
    ensures
        final(out)@ == old(out)@ + le_bytes(v as nat, n as nat),
{
    let mut x: u128 = v;
    let mut i: usize = 0;
    proof {
        assert(old(out)@ + le_bytes(v as nat, n as nat) =~= out@ + le_bytes(x as nat, (n - i) as nat));
    }
    while i < n
        invariant
            i <= n,
            out@ + le_bytes(x as nat, (n - i) as nat) == old(out)@ + le_bytes(v as nat, n as nat),
        decreases n - i,
    {
        let ghost rest = le_bytes(x as nat, (n - i) as nat);
        out.push((x % 256) as u8);
        proof {
            assert(rest == seq![((x as nat) % 256) as u8] + le_bytes((x as nat) / 256, (n - i - 1) as nat));
        }
        x = x / 256;
        i = i + 1;
        proof {
            assert(out@ + le_bytes(x as nat, (n - i) as nat) =~= old(out)@ + le_bytes(v as nat, n as nat));
        }
    }
    proof {
        assert(le_bytes(x as nat, 0) =~= Seq::<u8>::empty());
        assert(out@ =~= out@ + le_bytes(x as nat, 0));
    }
}

} // verus!
