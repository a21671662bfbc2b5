use vstd::prelude::*;

verus! {

/// `256` to the power `n`.
pub open spec fn pow256(n: nat) -> nat
    decreases n,
{
    if n == 0 { 1 } else { 256 * pow256((n - 1) as nat) }
}

/// The `n` little-endian bytes of `x` (the low `n` bytes when `x` does not fit).
pub open spec fn le_bytes(x: nat, n: nat) -> Seq<u8>
    decreases n,
{
    if n == 0 {
        Seq::empty()
    } else {
        seq![(x % 256) as u8] + le_bytes(x / 256, (n - 1) as nat)
    }
}

/// The number whose little-endian bytes are `s`.
pub open spec fn le_value(s: Seq<u8>) -> nat
    decreases s.len(),
{
    if s.len() == 0 {
        0
    } else {
        (s[0] as nat) + 256 * le_value(s.drop_first())
    }
}

/// `n` zero bytes.
pub open spec fn zeros(n: nat) -> Seq<u8> {
    Seq::new(n, |i: int| 0u8)
}

pub proof fn lemma_pow256_pos(n: nat)
    ensures
        pow256(n) >= 1,
    decreases n,
{
    if n > 0 {
        lemma_pow256_pos((n - 1) as nat);
    }
}

pub proof fn lemma_pow256_values()
    ensures
        pow256(1) == 0x100,
        pow256(2) == 0x1_0000,
        pow256(4) == 0x1_0000_0000,
        pow256(8) == 0x1_0000_0000_0000_0000,
{
    reveal_with_fuel(pow256, 9);
}

pub proof fn lemma_le_bytes_len(x: nat, n: nat)
    ensures
        le_bytes(x, n).len() == n,
    decreases n,
{
    if n > 0 {
        lemma_le_bytes_len(x / 256, (n - 1) as nat);
    }
}

pub proof fn lemma_le_value_bound(s: Seq<u8>)
    ensures
        le_value(s) < pow256(s.len()),
    decreases s.len(),
{
    if s.len() > 0 {
        lemma_le_value_bound(s.drop_first());
        assert(le_value(s) < pow256(s.len())) by (nonlinear_arith)
            requires
                le_value(s) == (s[0] as nat) + 256 * le_value(s.drop_first()),
                le_value(s.drop_first()) < pow256(s.drop_first().len()),
                pow256(s.len()) == 256 * pow256(s.drop_first().len()),
                (s[0] as nat) < 256,
        ;
    }
}

/// Reading back the little-endian bytes of a number that fits gives the number.
pub proof fn lemma_le_value_of_bytes(x: nat, n: nat)
    requires
        x < pow256(n),
    ensures
        le_value(le_bytes(x, n)) == x,
    decreases n,
{
    lemma_le_bytes_len(x, n);
    if n > 0 {
        let q = x / 256;
        assert(q < pow256((n - 1) as nat)) by (nonlinear_arith)
            requires
                x < pow256(n),
                pow256(n) == 256 * pow256((n - 1) as nat),
                q == x / 256,
        ;
        lemma_le_value_of_bytes(q, (n - 1) as nat);
        let s = le_bytes(x, n);
        assert(s.drop_first() =~= le_bytes(q, (n - 1) as nat));
        assert(x == (x % 256) + 256 * q) by (nonlinear_arith)
            requires
                q == x / 256,
        ;
    }
}

/// Writing out the value of some bytes gives the same bytes.
pub proof fn lemma_le_bytes_of_value(s: Seq<u8>)
    ensures
        le_bytes(le_value(s), s.len()) == s,
    decreases s.len(),
{
    if s.len() > 0 {
        let r = le_value(s.drop_first());
        lemma_le_bytes_of_value(s.drop_first());
        let x = le_value(s);
        assert(x % 256 == s[0] as nat && x / 256 == r) by (nonlinear_arith)
            requires
                x == (s[0] as nat) + 256 * r,
                (s[0] as nat) < 256,
        ;
        assert(le_bytes(x, s.len()) =~= s);
    }
}

/// The bytes of zero are zero bytes.
pub proof fn lemma_le_bytes_zero(n: nat)
    ensures
        le_bytes(0, n) == zeros(n),
    decreases n,
{
    if n > 0 {
        lemma_le_bytes_zero((n - 1) as nat);
        assert(le_bytes(0, n) =~= zeros(n));
    }
}

/// Appends the `n` little-endian bytes of `x` to `out`.
pub fn push_le(out: &mut Vec<u8>, x: u64, n: usize)
    requires
        n <= 8,
    ensures
        final(out)@ == old(out)@ + le_bytes(x as nat, n as nat),
{
    let ghost start = out@;
    let mut y: u64 = x;
    let mut i: usize = 0;
    while i < n
        invariant
            i <= n,
            n <= 8,
            out@ + le_bytes(y as nat, (n - i) as nat) == start + le_bytes(x as nat, n as nat),
        decreases n - i,
    {
        let ghost before = out@;
        let b: u8 = (y % 256) as u8;
        out.push(b);
        assert(le_bytes(y as nat, (n - i) as nat) == seq![b] + le_bytes(
            (y / 256) as nat,
            (n - i - 1) as nat,
        ));
        assert(before + (seq![b] + le_bytes((y / 256) as nat, (n - i - 1) as nat)) =~= out@
            + le_bytes((y / 256) as nat, (n - i - 1) as nat));
        y = y / 256;
        i = i + 1;
    }
    assert(le_bytes(y as nat, 0) =~= Seq::<u8>::empty());
    assert(out@ =~= start + le_bytes(x as nat, n as nat));
}

/// Reads the number whose `n` little-endian bytes start at `off` in `buf`.
pub fn read_le(buf: &[u8], off: usize, n: usize) -> (r: u64)
    requires
        n <= 8,
        off + n <= buf@.len(),
    ensures
        r as nat == le_value(buf@.subrange(off as int, off + n)),
{
    let len = buf.len();
    let mut acc: u64 = 0;
    let mut i: usize = n;
    proof {
        lemma_pow256_values();
    }
    assert(buf@.subrange(off + n, off + n) =~= Seq::<u8>::empty());
    while i > 0
        invariant
            i <= n,
            n <= 8,
            off + n <= buf@.len(),
            len == buf@.len(),
            acc as nat == le_value(buf@.subrange(off + i, off + n)),
            pow256(8) == 0x1_0000_0000_0000_0000,
        decreases i,
    {
        let ghost tail = buf@.subrange(off + i, off + n);
        let ghost whole = buf@.subrange(off + i - 1, off + n);
        assert(whole.drop_first() =~= tail);
        proof {
            lemma_le_value_bound(whole);
            lemma_pow256_le(whole.len(), 8);
        }
        let b = buf[off + (i - 1)];
        assert(whole[0] == b);
        acc = acc * 256 + b as u64;
        i = i - 1;
    }
    acc
}

pub proof fn lemma_pow256_le(a: nat, b: nat)
    requires
        a <= b,
    ensures
        pow256(a) <= pow256(b),
    decreases b,
{
    if a < b {
        lemma_pow256_le(a, (b - 1) as nat);
        lemma_pow256_pos((b - 1) as nat);
    }
}

} // verus!
