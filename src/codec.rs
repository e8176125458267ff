use vstd::prelude::*;

verus! {

/// `256` raised to `n`: the number of values that `n` bytes can hold.
pub open spec fn pow256(n: nat) -> nat
    decreases n,
{
    if n == 0 {
        1
    } else {
        256 * pow256((n - 1) as nat)
    }
}

/// The last `n` digits of `x` in base 256, most significant first.
pub open spec fn be_bytes(x: nat, n: nat) -> Seq<u8>
    decreases n,
{
    if n == 0 {
        Seq::empty()
    } else {
        be_bytes(x / 256, (n - 1) as nat).push((x % 256) as u8)
    }
}

/// The number that big-endian bytes stand for.
pub open spec fn be_value(s: Seq<u8>) -> nat
    decreases s.len(),
{
    if s.len() == 0 {
        0
    } else {
        (be_value(s.drop_last()) * 256 + s.last()) as nat
    }
}

/// Byte-wise order: `a` sorts strictly before `b`.
pub open spec fn lex_lt(a: Seq<u8>, b: Seq<u8>) -> bool
    decreases a.len(),
{
    if b.len() == 0 {
        false
    } else if a.len() == 0 {
        true
    } else if a[0] != b[0] {
        a[0] < b[0]
    } else {
        lex_lt(a.drop_first(), b.drop_first())
    }
}

/// `p` is a prefix of `s`.
pub open spec fn has_prefix(s: Seq<u8>, p: Seq<u8>) -> bool {
    p.len() <= s.len() && s.subrange(0, p.len() as int) == p
}

pub proof fn lemma_pow256_positive(n: nat)
    ensures
        pow256(n) >= 1,
    decreases n,
{
    if n > 0 {
        lemma_pow256_positive((n - 1) as nat);
    }
}

pub proof fn lemma_pow256_values()
    ensures
        pow256(1) == 0x100,
        pow256(2) == 0x1_0000,
        pow256(4) == 0x1_0000_0000,
        pow256(8) == 0x1_0000_0000_0000_0000,
{
    reveal_with_fuel(pow256, 9);
}

pub proof fn lemma_pow256_monotone(m: nat, n: nat)
    requires
        m <= n,
    ensures
        pow256(m) <= pow256(n),
    decreases n,
{
    if m < n {
        lemma_pow256_monotone(m, (n - 1) as nat);
        lemma_pow256_positive((n - 1) as nat);
    }
}

pub proof fn lemma_be_bytes_len(x: nat, n: nat)
    ensures
        be_bytes(x, n).len() == n,
    decreases n,
{
    if n > 0 {
        lemma_be_bytes_len(x / 256, (n - 1) as nat);
    }
}

/// Decoding what was encoded gives the number back.
pub proof fn lemma_be_round_trip(x: nat, n: nat)
    requires
        x < pow256(n),
    ensures
        be_value(be_bytes(x, n)) == x,
    decreases n,
{
    if n > 0 {
        let s = be_bytes(x, n);
        lemma_be_round_trip(x / 256, (n - 1) as nat);
        assert(s.drop_last() == be_bytes(x / 256, (n - 1) as nat));
    }
}

/// The number that `n` bytes stand for is below `256^n`.
pub proof fn lemma_be_value_bound(s: Seq<u8>)
    ensures
        be_value(s) < pow256(s.len()),
    decreases s.len(),
{
    if s.len() > 0 {
        lemma_be_value_bound(s.drop_last());
        let v = be_value(s.drop_last());
        assert(v * 256 + s.last() < 256 * pow256((s.len() - 1) as nat)) by (nonlinear_arith)
            requires
                v < pow256((s.len() - 1) as nat),
                s.last() < 256,
        ;
    }
}

/// Encoding what was decoded gives the bytes back.
pub proof fn lemma_be_value_round_trip(s: Seq<u8>)
    ensures
        be_bytes(be_value(s), s.len()) == s,
    decreases s.len(),
{
    if s.len() > 0 {
        lemma_be_value_round_trip(s.drop_last());
        let v = be_value(s.drop_last());
        let x = (v * 256 + s.last()) as nat;
        assert(x / 256 == v && x % 256 == s.last()) by (nonlinear_arith)
            requires
                x == v * 256 + s.last(),
                s.last() < 256,
        ;
        assert(be_bytes(x, s.len()) =~= s);
    }
}

/// Comparing two concatenations whose first parts have one length.
pub proof fn lemma_lex_concat(a1: Seq<u8>, b1: Seq<u8>, a2: Seq<u8>, b2: Seq<u8>)
    requires
        a1.len() == a2.len(),
    ensures
        lex_lt(a1, a2) ==> lex_lt(a1 + b1, a2 + b2),
        a1 == a2 ==> (lex_lt(a1 + b1, a2 + b2) == lex_lt(b1, b2)),
    decreases a1.len(),
{
    if a1.len() > 0 {
        assert((a1 + b1).drop_first() =~= a1.drop_first() + b1);
        assert((a2 + b2).drop_first() =~= a2.drop_first() + b2);
        assert((a1 + b1)[0] == a1[0]);
        assert((a2 + b2)[0] == a2[0]);
        lemma_lex_concat(a1.drop_first(), b1, a2.drop_first(), b2);
        if a1 == a2 {
            assert(a1.drop_first() == a2.drop_first());
        }
    } else {
        assert(a1 + b1 =~= b1);
        assert(a2 + b2 =~= b2);
    }
}

/// Fixed-width big-endian encoding keeps numeric order under byte-wise comparison.
pub proof fn lemma_be_order(x: nat, y: nat, n: nat)
    requires
        x < y < pow256(n),
    ensures
        lex_lt(be_bytes(x, n), be_bytes(y, n)),
    decreases n,
{
    let hx = x / 256;
    let hy = y / 256;
    assert(hx <= hy) by (nonlinear_arith)
        requires
            x < y,
            hx == x / 256,
            hy == y / 256,
    ;
    assert(n > 0) by {
        reveal_with_fuel(pow256, 1);
    }
    let m = (n - 1) as nat;
    lemma_be_bytes_len(hx, m);
    lemma_be_bytes_len(hy, m);
    let tx = seq![(x % 256) as u8];
    let ty = seq![(y % 256) as u8];
    assert(be_bytes(x, n) =~= be_bytes(hx, m) + tx);
    assert(be_bytes(y, n) =~= be_bytes(hy, m) + ty);
    lemma_lex_concat(be_bytes(hx, m), tx, be_bytes(hy, m), ty);
    if hx < hy {
        assert(hy < pow256(m)) by (nonlinear_arith)
            requires
                y < 256 * pow256(m),
                hy == y / 256,
        ;
        lemma_be_order(hx, hy, m);
    } else {
        assert(x % 256 < y % 256) by (nonlinear_arith)
            requires
                x < y,
                x / 256 == y / 256,
        ;
        assert(lex_lt(tx, ty)) by {
            assert(tx.drop_first().len() == 0);
            assert(ty.drop_first().len() == 0);
        }
    }
}

/// A key that begins with `p` does not sort before `p`.
pub proof fn lemma_prefix_not_before(s: Seq<u8>, p: Seq<u8>)
    requires
        has_prefix(s, p),
    ensures
        !lex_lt(s, p),
    decreases p.len(),
{
    if p.len() > 0 {
        assert(s[0] == p[0]);
        assert(s.drop_first().subrange(0, p.len() - 1) =~= p.drop_first());
        lemma_prefix_not_before(s.drop_first(), p.drop_first());
    }
}

/// A key at or after `p` that does not begin with `p` sorts after every key that does.
pub proof fn lemma_past_prefix(b: Seq<u8>, c: Seq<u8>, p: Seq<u8>)
    requires
        !lex_lt(b, p),
        !has_prefix(b, p),
        has_prefix(c, p),
    ensures
        lex_lt(c, b),
    decreases p.len(),
{
    if p.len() == 0 {
        assert(b.subrange(0, 0) =~= p);
    } else if b.len() == 0 {
    } else {
        assert(c[0] == p[0]);
        assert(c.drop_first().subrange(0, p.len() - 1) =~= p.drop_first());
        if b[0] == p[0] {
            assert(!has_prefix(b.drop_first(), p.drop_first())) by {
                if has_prefix(b.drop_first(), p.drop_first()) {
                    assert forall|i: int| 0 <= i < p.len() implies b[i] == p[i] by {
                        if i > 0 {
                            assert(b.drop_first().subrange(0, p.len() - 1)[i - 1] == p.drop_first()[i
                                - 1]);
                        }
                    }
                    assert(b.subrange(0, p.len() as int) =~= p);
                }
            }
            lemma_past_prefix(b.drop_first(), c.drop_first(), p.drop_first());
        }
    }
}

/// Byte-wise order is asymmetric.
pub proof fn lemma_lex_asymmetric(a: Seq<u8>, b: Seq<u8>)
    ensures
        !(lex_lt(a, b) && lex_lt(b, a)),
    decreases a.len(),
{
    if a.len() > 0 && b.len() > 0 && a[0] == b[0] {
        lemma_lex_asymmetric(a.drop_first(), b.drop_first());
    }
}

/// Byte-wise order is transitive.
pub proof fn lemma_lex_transitive(a: Seq<u8>, b: Seq<u8>, c: Seq<u8>)
    requires
        lex_lt(a, b),
        lex_lt(b, c),
    ensures
        lex_lt(a, c),
    decreases a.len(),
{
    if a.len() > 0 && b.len() > 0 && c.len() > 0 && a[0] == b[0] && b[0] == c[0] {
        lemma_lex_transitive(a.drop_first(), b.drop_first(), c.drop_first());
    }
}

/// The last `n` bytes of `x` in big-endian order.
pub fn encode_be(x: u64, n: usize) -> (r: Vec<u8>)
    ensures
        r@ == be_bytes(x as nat, n as nat),
    decreases n,
{
    if n == 0 {
        Vec::new()
    } else {
        let mut v = encode_be(x / 256, n - 1);
        v.push((x % 256) as u8);
        v
    }
}

/// The number that the big-endian bytes `bytes[start..end]` stand for.
pub fn decode_be(bytes: &[u8], start: usize, end: usize) -> (r: u64)
    requires
        start <= end <= bytes@.len(),
        end - start <= 8,
    ensures
        r as nat == be_value(bytes@.subrange(start as int, end as int)),
{
    let mut acc: u64 = 0;
    let mut i: usize = start;
    while i < end
        invariant
            start <= i <= end <= bytes@.len(),
            end - start <= 8,
            acc as nat == be_value(bytes@.subrange(start as int, i as int)),
        decreases end - i,
    {
        proof {
            let s = bytes@.subrange(start as int, i as int);
            lemma_be_value_bound(s);
            lemma_pow256_monotone(s.len(), 7);
            reveal_with_fuel(pow256, 8);
            assert(bytes@.subrange(start as int, i + 1).drop_last() =~= s);
        }
        acc = acc * 256 + bytes[i] as u64;
        i = i + 1;
    }
    acc
}

/// A copy of `bytes` that the caller owns.
pub fn copy_bytes(bytes: &[u8]) -> (r: Vec<u8>)
    ensures
        r@ == bytes@,
{
    let mut r: Vec<u8> = Vec::new();
    let mut i: usize = 0;
    while i < bytes.len()
        invariant
            i <= bytes@.len(),
            r@ == bytes@.subrange(0, i as int),
        decreases bytes@.len() - i,
    {
        r.push(bytes[i]);
        i = i + 1;
        assert(r@ =~= bytes@.subrange(0, i as int));
    }
    assert(r@ =~= bytes@);
    r
}

} // verus!
