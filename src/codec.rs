use vstd::prelude::*;

verus! {

pub open spec fn pow256(w: nat) -> nat
    decreases w,
{
    if w == 0 {
        1
    } else {
        256 * pow256((w - 1) as nat)
    }
}

/// The `w` least significant bytes of `n`, least significant first.
pub open spec fn le_bytes(n: nat, w: nat) -> Seq<u8>
    decreases w,
{
    if w == 0 {
        seq![]
    } else {
        seq![(n % 256) as u8] + le_bytes(n / 256, (w - 1) as nat)
    }
}

/// The number that a little-endian byte string denotes.
pub open spec fn le_value(s: Seq<u8>) -> nat
    decreases s.len(),
{
    if s.len() == 0 {
        0
    } else {
        s[0] as nat + 256 * le_value(s.drop_first())
    }
}

pub proof fn lemma_le_bytes_len(n: nat, w: nat)
    ensures
        le_bytes(n, w).len() == w,
    decreases w,
{
    if w > 0 {
        lemma_le_bytes_len(n / 256, (w - 1) as nat);
    }
}

/// Reading back a written integer gives it again.
pub proof fn lemma_le_round_trip(n: nat, w: nat)
    requires
        n < pow256(w),
    ensures
        le_value(le_bytes(n, w)) == n,
        le_bytes(n, w).len() == w,
    decreases w,
{
    lemma_le_bytes_len(n, w);
    if w > 0 {
        let rest = le_bytes(n / 256, (w - 1) as nat);
        assert(n / 256 < pow256((w - 1) as nat)) by (nonlinear_arith)
            requires
                n < pow256(w),
                pow256(w) == 256 * pow256((w - 1) as nat),
        ;
        lemma_le_round_trip(n / 256, (w - 1) as nat);
        let s = le_bytes(n, w);
        assert(s.drop_first() =~= rest);
        assert(n == n % 256 + 256 * (n / 256)) by (nonlinear_arith);
    }
}

pub proof fn lemma_le_value_bound(s: Seq<u8>)
    ensures
        le_value(s) < pow256(s.len()),
    decreases s.len(),
{
    if s.len() > 0 {
        lemma_le_value_bound(s.drop_first());
        let a = s[0] as nat;
        let r = le_value(s.drop_first());
        let p = pow256((s.len() - 1) as nat);
        assert(a + 256 * r < 256 * p) by (nonlinear_arith)
            requires
                a < 256,
                r < p,
        ;
    }
}

/// Appends the `w` low bytes of `n`, least significant first.
pub fn write_le(out: &mut Vec<u8>, n: u64, w: usize)
    requires
        w <= 8,
        n < pow256(w as nat),
    ensures
        final(out)@ == old(out)@ + le_bytes(n as nat, w as nat),
{
    let mut i: usize = 0;
    let mut m: u64 = n;
    while i < w
        invariant
            i <= w,
            old(out)@ + le_bytes(n as nat, w as nat) == out@ + le_bytes(m as nat, (w - i) as nat),
        decreases w - i,
    {
        let ghost prev = out@;
        out.push((m % 256) as u8);
        assert(le_bytes(m as nat, (w - i) as nat) == seq![(m as nat % 256) as u8] + le_bytes(
            m as nat / 256,
            (w - i - 1) as nat,
        ));
        assert(out@ + le_bytes((m / 256) as nat, (w - i - 1) as nat) =~= prev + le_bytes(
            m as nat,
            (w - i) as nat,
        ));
        m = m / 256;
        i = i + 1;
    }
    assert(le_bytes(m as nat, 0) =~= Seq::<u8>::empty());
    assert(out@ =~= out@ + le_bytes(m as nat, 0));
}

/// Reads the little-endian integer stored in `b[pos..pos + w]`.
pub fn read_le(b: &[u8], pos: usize, w: usize) -> (r: u64)
    requires
        w <= 8,
        pos + w <= b@.len(),
    ensures
        r as nat == le_value(b@.subrange(pos as int, pos + w)),
{
    let n: usize = b.len();
    let mut i: usize = w;
    let mut acc: u64 = 0;
    proof {
        reveal_with_fuel(pow256, 9);
        assert(pow256(8) == 18446744073709551616nat);
    }
    while i > 0
        invariant
            i <= w <= 8,
            pos + w <= b@.len(),
            n == b@.len(),
            pow256(8) == 18446744073709551616nat,
            acc as nat == le_value(b@.subrange(pos + i, pos + w)),
            acc < pow256((w - i) as nat),
        decreases i,
    {
        let ghost s = b@.subrange(pos + i - 1, pos + w);
        assert(s.drop_first() =~= b@.subrange(pos + i, pos + w));
        proof { lemma_pow256_mono((w - i + 1) as nat, 8); }
        let ghost p = pow256((w - i) as nat);
        let byte = b[pos + (i - 1)];
        assert(byte as nat + 256 * (acc as nat) < 256 * p) by (nonlinear_arith)
            requires
                byte < 256,
                acc < p,
        ;
        acc = byte as u64 + 256 * acc;
        i = i - 1;
    }
    acc
}

pub proof fn lemma_pow256_mono(a: nat, b: nat)
    requires
        a <= b,
    ensures
        pow256(a) <= pow256(b),
        pow256(a) >= 1,
    decreases b,
{
    if b > a {
        lemma_pow256_mono(a, (b - 1) as nat);
    } else if a > 0 {
        lemma_pow256_mono((a - 1) as nat, (a - 1) as nat);
    }
}

/// The powers of 256 that the fixed-width fields use.
pub proof fn lemma_pow256_values()
    ensures
        pow256(2) == 0x1_0000,
        pow256(4) == 0x1_0000_0000,
        pow256(8) == 0x1_0000_0000_0000_0000,
{
    reveal_with_fuel(pow256, 9);
}

/// Writing back a read integer gives the same bytes.
pub proof fn lemma_le_bytes_of_value(s: Seq<u8>)
    ensures
        le_bytes(le_value(s), s.len()) == s,
    decreases s.len(),
{
    if s.len() > 0 {
        let r = le_value(s.drop_first());
        let a = s[0] as nat;
        let n = a + 256 * r;
        assert(n % 256 == a && n / 256 == r) by (nonlinear_arith)
            requires
                a < 256,
                n == a + 256 * r,
        ;
        lemma_le_bytes_of_value(s.drop_first());
        assert(le_bytes(n, s.len()) =~= s);
    } else {
        assert(le_bytes(0, 0) =~= s);
    }
}

} // verus!
