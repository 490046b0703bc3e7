use vstd::prelude::*;

verus! {

/// `256` raised to the power `n`.
pub open spec fn pow256(n: nat) -> nat
    decreases n,
{
    if n == 0 {
        1
    } else {
        256 * pow256((n - 1) as nat)
    }
}

/// The `n` low bytes of `x`, least significant first.
pub open spec fn to_le(x: nat, n: nat) -> Seq<u8>
    decreases n,
{
    if n == 0 {
        Seq::empty()
    } else {
        seq![(x % 256) as u8] + to_le(x / 256, (n - 1) as nat)
    }
}

/// The number that the bytes `b` spell, least significant first.
pub open spec fn from_le(b: Seq<u8>) -> nat
    decreases b.len(),
{
    if b.len() == 0 {
        0
    } else {
        b[0] as nat + 256 * from_le(b.drop_first())
    }
}

pub proof fn lemma_to_le_len(x: nat, n: nat)
    ensures
        to_le(x, n).len() == n,
    decreases n,
{
    if n > 0 {
        lemma_to_le_len(x / 256, (n - 1) as nat);
    }
}

/// What `n` bytes spell is below `256` to the power `n`.
pub proof fn lemma_from_le_bound(b: Seq<u8>)
    ensures
        from_le(b) < pow256(b.len()),
    decreases b.len(),
{
    if b.len() > 0 {
        let r = b.drop_first();
        lemma_from_le_bound(r);
        let v = from_le(r);
        let p = pow256(r.len());
        assert(b[0] as nat + 256 * v < 256 * p) by (nonlinear_arith)
            requires
                v < p,
                b[0] < 256,
        ;
    }
}

/// Reading back `n` bytes written for `x` gives `x`.
pub proof fn lemma_le_round_trip(x: nat, n: nat)
    requires
        x < pow256(n),
    ensures
        from_le(to_le(x, n)) == x,
    decreases n,
{
    if n > 0 {
        let m = (n - 1) as nat;
        let p = pow256(m);
        assert(x / 256 < p) by (nonlinear_arith)
            requires
                x < 256 * p,
        ;
        lemma_le_round_trip(x / 256, m);
        let s = to_le(x, n);
        assert(s.drop_first() =~= to_le(x / 256, m));
    }
}

/// Appends the `n` low bytes of `x` to `buf`, least significant first.
pub fn push_le(buf: &mut Vec<u8>, x: u64, n: usize)
    requires
        n <= 8,
        (x as nat) < pow256(n as nat),
    ensures
        final(buf)@ == old(buf)@ + to_le(x as nat, n as nat),
{
    let mut v: u64 = x;
    let mut i: usize = 0;
    while i < n
        invariant
            i <= n,
            buf@ + to_le(v as nat, (n - i) as nat) == old(buf)@ + to_le(x as nat, n as nat),
        decreases n - i,
    {
        let ghost before = buf@;
        buf.push((v % 256) as u8);
        assert(to_le(v as nat, (n - i) as nat) == seq![(v % 256) as u8] + to_le(
            (v / 256) as nat,
            (n - i - 1) as nat,
        ));
        assert(buf@ + to_le((v / 256) as nat, (n - i - 1) as nat) =~= before + to_le(
            v as nat,
            (n - i) as nat,
        ));
        v = v / 256;
        i = i + 1;
    }
    assert(to_le(v as nat, 0) =~= Seq::<u8>::empty());
    assert(buf@ =~= buf@ + to_le(v as nat, 0));
}

/// Reads the `n` bytes at `pos` as a number, least significant first.
pub fn read_le(b: &[u8], pos: usize, n: usize) -> (r: u64)
    requires
        n <= 8,
        pos + n <= b@.len(),
    ensures
        r as nat == from_le(b@.subrange(pos as int, pos + n)),
{
    let len = b.len();
    let mut r: u64 = 0;
    let mut i: usize = n;
    while i > 0
        invariant
            i <= n,
            n <= 8,
            pos + n <= b@.len(),
            len == b@.len(),
            r as nat == from_le(b@.subrange(pos + i, pos + n)),
            (r as nat) < pow256((n - i) as nat),
        decreases i,
    {
        i = i - 1;
        let ghost s = b@.subrange(pos + i, pos + n);
        assert(s.drop_first() =~= b@.subrange(pos + i + 1, pos + n));
        let d = b[pos + i];
        let ghost p = pow256((n - i - 1) as nat);
        proof {
            lemma_pow256_eight();
            lemma_pow256_mono((n - i - 1) as nat, 7);
        }
        assert(r * 256 + d < 256 * p) by (nonlinear_arith)
            requires
                (r as nat) < p,
                d < 256,
        ;
        r = r * 256 + d as u64;
    }
    r
}

pub proof fn lemma_pow256_eight()
    ensures
        pow256(4) == 0x1_0000_0000,
        pow256(8) == 0x1_0000_0000_0000_0000,
{
    reveal_with_fuel(pow256, 9);
}

pub proof fn lemma_pow256_mono(a: nat, b: nat)
    requires
        a <= b,
    ensures
        pow256(a) <= pow256(b),
    decreases b,
{
    if a < b {
        lemma_pow256_mono(a, (b - 1) as nat);
    }
}

} // verus!

verus! {

/// Appends every byte of `src` to `buf`.
pub fn append_bytes(buf: &mut Vec<u8>, src: &[u8])
    ensures
        final(buf)@ == old(buf)@ + src@,
{
    let len = src.len();
    let mut i: usize = 0;
    while i < len
        invariant
            i <= len,
            len == src@.len(),
            buf@ == old(buf)@ + src@.subrange(0, i as int),
        decreases len - i,
    {
        buf.push(src[i]);
        assert(src@.subrange(0, i + 1) =~= src@.subrange(0, i as int).push(src@[i as int]));
        assert(buf@ =~= old(buf)@ + src@.subrange(0, i + 1));
        i = i + 1;
    }
    assert(src@.subrange(0, len as int) =~= src@);
}

/// A copy of the bytes of `b` from `start` up to `end`.
pub fn copy_range(b: &[u8], start: usize, end: usize) -> (r: Vec<u8>)
    requires
        start <= end <= b@.len(),
    ensures
        r@ == b@.subrange(start as int, end as int),
{
    let mut r: Vec<u8> = Vec::new();
    let mut i: usize = start;
    while i < end
        invariant
            start <= i <= end,
            end <= b@.len(),
            r@ == b@.subrange(start as int, i as int),
        decreases end - i,
    {
        r.push(b[i]);
        assert(r@ =~= b@.subrange(start as int, i + 1));
        i = i + 1;
    }
    r
}

} // verus!
