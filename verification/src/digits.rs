//! Numbers as base-256 digits, in both byte orders.
use vstd::prelude::*;

verus! {

/// The number that `s` spells, most significant byte first.
pub open spec fn be_value(s: Seq<u8>) -> nat
    decreases s.len(),
{
    if s.len() == 0 {
        0
    } else {
        be_value(s.drop_last()) * 256 + s.last() as nat
    }
}

/// The big-endian bytes of `v` without leading zeros; zero has none.
pub open spec fn minimal_be(v: nat) -> Seq<u8>
    decreases v,
{
    if v == 0 {
        Seq::empty()
    } else {
        minimal_be(v / 256).push((v % 256) as u8)
    }
}

/// The number that `s` spells, least significant byte first.
pub open spec fn le_value(s: Seq<u8>) -> nat
    decreases s.len(),
{
    if s.len() == 0 {
        0
    } else {
        s.first() as nat + 256 * le_value(s.drop_first())
    }
}

/// The `n` low base-256 digits of `v`, least significant first.
pub open spec fn le_bytes(v: nat, n: nat) -> Seq<u8>
    decreases n,
{
    if n == 0 {
        Seq::empty()
    } else {
        seq![(v % 256) as u8] + le_bytes(v / 256, (n - 1) as nat)
    }
}

/// `n` zero bytes.
pub open spec fn zeros(n: nat) -> Seq<u8> {
    Seq::new(n, |i: int| 0u8)
}

/// 256 to the power of `n`.
pub open spec fn pow256(n: nat) -> nat
    decreases n,
{
    if n == 0 {
        1
    } else {
        256 * pow256((n - 1) as nat)
    }
}

/// Leading zeros do not change what big-endian bytes spell.
pub proof fn lemma_be_value_zeros(n: nat, s: Seq<u8>)
    ensures
        be_value(zeros(n) + s) == be_value(s),
    decreases s.len(), n,
{
    if s.len() > 0 {
        assert((zeros(n) + s).drop_last() =~= zeros(n) + s.drop_last());
        lemma_be_value_zeros(n, s.drop_last());
    } else if n > 0 {
        assert((zeros(n) + s).drop_last() =~= zeros((n - 1) as nat) + s);
        lemma_be_value_zeros((n - 1) as nat, s);
    } else {
        assert(zeros(n) + s =~= s);
    }
}

/// Bytes that start with a nonzero byte are the minimal bytes of what they spell.
pub proof fn lemma_minimal_of_be_value(s: Seq<u8>)
    requires
        s.len() > 0 ==> s[0] != 0,
    ensures
        minimal_be(be_value(s)) == s,
        s.len() > 0 ==> be_value(s) > 0,
    decreases s.len(),
{
    if s.len() > 0 {
        let rest = s.drop_last();
        lemma_minimal_of_be_value(rest);
        let v = be_value(s);
        assert(v / 256 == be_value(rest) && v % 256 == s.last() as nat);
        if rest.len() > 0 {
            assert(rest[0] == s[0]);
        }
        assert(minimal_be(v) =~= s);
    }
}

/// The minimal bytes of a number spell it.
pub proof fn lemma_be_value_of_minimal(v: nat)
    ensures
        be_value(minimal_be(v)) == v,
    decreases v,
{
    if v > 0 {
        lemma_be_value_of_minimal(v / 256);
        assert(minimal_be(v).drop_last() =~= minimal_be(v / 256));
    }
}

/// A number below 256 to the `n` has at most `n` minimal bytes.
pub proof fn lemma_minimal_be_len(v: nat, n: nat)
    requires
        v < pow256(n),
    ensures
        minimal_be(v).len() <= n,
    decreases n,
{
    if v > 0 {
        assert(n > 0);
        assert(v / 256 < pow256((n - 1) as nat));
        lemma_minimal_be_len(v / 256, (n - 1) as nat);
    }
}

/// What `n` bytes spell is below 256 to the `n`.
pub proof fn lemma_be_value_bound(s: Seq<u8>)
    ensures
        be_value(s) < pow256(s.len()),
    decreases s.len(),
{
    if s.len() > 0 {
        lemma_be_value_bound(s.drop_last());
    }
}

/// Little-endian digits have the length asked for, and spell the number they were taken from.
pub proof fn lemma_le_bytes(v: nat, n: nat)
    requires
        v < pow256(n),
    ensures
        le_bytes(v, n).len() == n,
        le_value(le_bytes(v, n)) == v,
    decreases n,
{
    if n > 0 {
        assert(v / 256 < pow256((n - 1) as nat));
        lemma_le_bytes(v / 256, (n - 1) as nat);
        assert(le_bytes(v, n).drop_first() =~= le_bytes(v / 256, (n - 1) as nat));
    }
}

/// Bytes are the little-endian digits of what they spell.
pub proof fn lemma_le_value(s: Seq<u8>)
    ensures
        le_value(s) < pow256(s.len()),
        le_bytes(le_value(s), s.len()) == s,
    decreases s.len(),
{
    if s.len() > 0 {
        let rest = s.drop_first();
        lemma_le_value(rest);
        let v = le_value(s);
        assert(v / 256 == le_value(rest) && v % 256 == s.first() as nat);
        assert(le_bytes(v, s.len()) =~= s);
    }
}

/// The powers that the fixed widths of this library need.
pub proof fn lemma_pow256_values()
    ensures
        pow256(4) == 0x1_0000_0000,
        pow256(8) == 0x1_0000_0000_0000_0000,
{
    reveal_with_fuel(pow256, 9);
}

/// The eight big-endian bytes of `x`.
pub fn u64_to_be(x: u64) -> (bytes: [u8; 8])
    ensures
        be_value(bytes@) == x,
{
    let x1: u64 = x / 256;
    let x2: u64 = x1 / 256;
    let x3: u64 = x2 / 256;
    let x4: u64 = x3 / 256;
    let x5: u64 = x4 / 256;
    let x6: u64 = x5 / 256;
    let x7: u64 = x6 / 256;
    let bytes = [
        x7 as u8,
        (x6 % 256) as u8,
        (x5 % 256) as u8,
        (x4 % 256) as u8,
        (x3 % 256) as u8,
        (x2 % 256) as u8,
        (x1 % 256) as u8,
        (x % 256) as u8,
    ];
    proof {
        let s = bytes@;
        assert(be_value(s.take(1)) == x7) by {
            reveal_with_fuel(be_value, 2);
            assert(s.take(1).drop_last() =~= Seq::empty());
        }
        assert(s.take(2).drop_last() =~= s.take(1));
        assert(s.take(3).drop_last() =~= s.take(2));
        assert(s.take(4).drop_last() =~= s.take(3));
        assert(s.take(5).drop_last() =~= s.take(4));
        assert(s.take(6).drop_last() =~= s.take(5));
        assert(s.take(7).drop_last() =~= s.take(6));
        assert(s.drop_last() =~= s.take(7));
        assert(be_value(s.take(2)) == x6);
        assert(be_value(s.take(3)) == x5);
        assert(be_value(s.take(4)) == x4);
        assert(be_value(s.take(5)) == x3);
        assert(be_value(s.take(6)) == x2);
        assert(be_value(s.take(7)) == x1);
    }
    bytes
}

/// The number that eight big-endian bytes spell.
pub fn u64_from_be(bytes: &[u8; 8]) -> (x: u64)
    ensures
        x == be_value(bytes@),
{
    let mut x: u64 = 0;
    for i in 0..8usize
        invariant
            x == be_value(bytes@.take(i as int)),
    {
        proof {
            lemma_pow256_values();
            lemma_be_value_bound(bytes@.take(i as int));
            lemma_pow256_monotone(i as nat, 7);
            assert(pow256(8) == 256 * pow256(7));
            assert(bytes@.take(i + 1).drop_last() =~= bytes@.take(i as int));
        }
        x = x * 256 + bytes[i] as u64;
    }
    assert(bytes@.take(8) =~= bytes@);
    x
}

/// Powers grow with the exponent.
pub proof fn lemma_pow256_monotone(m: nat, n: nat)
    requires
        m <= n,
    ensures
        pow256(m) <= pow256(n),
    decreases n,
{
    if m < n {
        lemma_pow256_monotone(m, (n - 1) as nat);
    }
}

/// Appends the `n` low base-256 digits of `x` to `out`, least significant first.
pub fn push_le(out: &mut Vec<u8>, x: u64, n: usize)
    ensures
        final(out)@ == old(out)@ + le_bytes(x as nat, n as nat),
{
    let mut rest: u64 = x;
    let mut left: usize = n;
    assert(out@ + le_bytes(rest as nat, left as nat) =~= old(out)@ + le_bytes(x as nat, n as nat));
    while left > 0
        invariant
            out@ + le_bytes(rest as nat, left as nat) == old(out)@ + le_bytes(x as nat, n as nat),
        decreases left,
    {
        let ghost before = out@;
        out.push((rest % 256) as u8);
        assert(before.push((rest % 256) as u8) + le_bytes(rest as nat / 256, (left - 1) as nat)
            =~= before + le_bytes(rest as nat, left as nat));
        rest = rest / 256;
        left = left - 1;
    }
    assert(out@ + le_bytes(rest as nat, 0) =~= out@);
}

/// The number that up to eight little-endian bytes spell.
pub fn read_le(bytes: &[u8]) -> (x: u64)
    requires
        bytes@.len() <= 8,
    ensures
        x == le_value(bytes@),
{
    let mut x: u64 = 0;
    let mut i: usize = bytes.len();
    assert(bytes@.skip(i as int) =~= Seq::empty());
    while i > 0
        invariant
            i <= bytes@.len() <= 8,
            x == le_value(bytes@.skip(i as int)),
        decreases i,
    {
        proof {
            lemma_pow256_values();
            lemma_le_value(bytes@.skip(i as int));
            lemma_pow256_monotone((bytes@.len() - i) as nat, 7);
            assert(pow256(8) == 256 * pow256(7));
            assert(bytes@.skip(i - 1).drop_first() =~= bytes@.skip(i as int));
        }
        i = i - 1;
        x = bytes[i] as u64 + 256 * x;
    }
    assert(bytes@.skip(0) =~= bytes@);
    x
}

/// Big-endian bytes spell a number in base 256: one byte more is one place
/// more, and no bytes spell zero.
pub proof fn law_big_endian_places(s: Seq<u8>, b: u8)
    ensures
        be_value(Seq::empty()) == 0,
        be_value(s.push(b)) == 256 * be_value(s) + b,
{
    assert(s.push(b).drop_last() =~= s);
}

/// Little-endian bytes spell a number in base 256: one byte in front is one
/// place more, and no bytes spell zero.
pub proof fn law_little_endian_places(s: Seq<u8>, b: u8)
    ensures
        le_value(Seq::empty()) == 0,
        le_value(seq![b] + s) == b + 256 * le_value(s),
{
    assert((seq![b] + s).drop_first() =~= s);
}

/// The minimal bytes of a number spell it, and do not start with a zero: no
/// other bytes do both.
pub proof fn law_minimal_bytes(v: nat, s: Seq<u8>)
    ensures
        be_value(minimal_be(v)) == v,
        minimal_be(v).len() > 0 ==> minimal_be(v)[0] != 0,
        be_value(s) == v && (s.len() > 0 ==> s[0] != 0) ==> s == minimal_be(v),
    decreases v,
{
    lemma_be_value_of_minimal(v);
    if v > 0 {
        law_minimal_bytes(v / 256, s);
        if v / 256 == 0 {
            assert(minimal_be(v) =~= seq![(v % 256) as u8]);
        } else {
            assert(minimal_be(v / 256).len() > 0) by {
                lemma_be_value_of_minimal(v / 256);
            }
            assert(minimal_be(v)[0] == minimal_be(v / 256)[0]);
        }
    }
    if be_value(s) == v && (s.len() > 0 ==> s[0] != 0) {
        lemma_minimal_of_be_value(s);
    }
}

/// The little-endian bytes of a number that fits them spell it.
pub proof fn law_little_endian_bytes(v: nat)
    ensures
        v < 0x1_0000_0000_0000_0000 ==> le_bytes(v, 8).len() == 8 && le_value(le_bytes(v, 8)) == v,
        v < 0x1_0000_0000 ==> le_bytes(v, 4).len() == 4 && le_value(le_bytes(v, 4)) == v,
{
    lemma_pow256_values();
    if v < 0x1_0000_0000_0000_0000 {
        lemma_le_bytes(v, 8);
    }
    if v < 0x1_0000_0000 {
        lemma_le_bytes(v, 4);
    }
}

/// Every place is worth 256 times the one before it.
pub proof fn law_places(n: nat)
    ensures
        pow256(0) == 1,
        pow256(n + 1) == 256 * pow256(n),
        zeros(n).len() == n,
        forall|i: int| 0 <= i < n ==> #[trigger] zeros(n)[i] == 0,
{
}

/// However many little-endian bytes are taken of a number, they spell what it
/// leaves when divided by 256 to that many.
pub proof fn law_low_bytes(v: nat, n: nat)
    ensures
        le_bytes(v, n).len() == n,
        le_value(le_bytes(v, n)) == v as int % pow256(n) as int,
    decreases n,
{
    if n > 0 {
        let rest = (n - 1) as nat;
        law_low_bytes(v / 256, rest);
        assert(le_bytes(v, n).drop_first() =~= le_bytes(v / 256, rest));
        lemma_pow256_monotone(0, rest);
        vstd::arithmetic::div_mod::lemma_mod_breakdown(v as int, 256, pow256(rest) as int);
    }
}

} // verus!
