//! Fixed-width big-endian integer encodings and the lexicographic byte order,
//! with the facts the key codec rests on: the encoding round-trips and its
//! byte order agrees with the numeric order.

use vstd::prelude::*;
use vstd::arithmetic::div_mod::{
    lemma_div_denominator, lemma_fundamental_div_mod, lemma_mod_breakdown,
};

verus! {

/// 256 raised to `w`: the number of distinct byte strings of width `w`.
pub open spec fn pow256(w: nat) -> nat
    decreases w,
{
    if w == 0 {
        1
    } else {
        256 * pow256((w - 1) as nat)
    }
}

pub proof fn lemma_pow256_pos(w: nat)
    ensures
        pow256(w) >= 1,
    decreases w,
{
    if w > 0 {
        lemma_pow256_pos((w - 1) as nat);
    }
}

/// The big-endian bytes of `n` in exactly `w` bytes (most significant first).
pub open spec fn be_bytes(n: nat, w: nat) -> Seq<u8>
    decreases w,
{
    if w == 0 {
        Seq::empty()
    } else {
        be_bytes(n / 256, (w - 1) as nat).push((n % 256) as u8)
    }
}

/// The number a big-endian byte string denotes.
pub open spec fn from_be(b: Seq<u8>) -> nat
    decreases b.len(),
{
    if b.len() == 0 {
        0
    } else {
        from_be(b.drop_last()) * 256 + b.last() as nat
    }
}

/// Strict lexicographic order on byte strings, shorter prefixes first.
pub open spec fn lex_lt(a: Seq<u8>, b: Seq<u8>) -> bool
    decreases a.len(),
{
    b.len() > 0 && (a.len() == 0 || a[0] < b[0] || (a[0] == b[0] && lex_lt(
        a.drop_first(),
        b.drop_first(),
    )))
}

pub proof fn lemma_be_bytes_len(n: nat, w: nat)
    ensures
        be_bytes(n, w).len() == w,
    decreases w,
{
    if w > 0 {
        lemma_be_bytes_len(n / 256, (w - 1) as nat);
    }
}

/// Encoding then decoding returns the number, for numbers that fit the width.
pub proof fn lemma_from_be_be_bytes(n: nat, w: nat)
    requires
        n < pow256(w),
    ensures
        from_be(be_bytes(n, w)) == n,
    decreases w,
{
    if w == 0 {
    } else {
        lemma_pow256_pos((w - 1) as nat);
        assert(n / 256 < pow256((w - 1) as nat)) by {
            lemma_fundamental_div_mod(n as int, 256);
            assert(256 * pow256((w - 1) as nat) == pow256(w));
        };
        lemma_from_be_be_bytes(n / 256, (w - 1) as nat);
        lemma_be_bytes_len(n / 256, (w - 1) as nat);
        let b = be_bytes(n, w);
        assert(b.drop_last() == be_bytes(n / 256, (w - 1) as nat));
        assert(b.last() == (n % 256) as u8);
        lemma_fundamental_div_mod(n as int, 256);
    }
}

/// Decoding then encoding returns the bytes, at the bytes' own width.
pub proof fn lemma_be_bytes_from_be(b: Seq<u8>)
    ensures
        be_bytes(from_be(b), b.len()) == b,
    decreases b.len(),
{
    if b.len() == 0 {
        assert(be_bytes(from_be(b), b.len()) =~= b);
    } else {
        lemma_be_bytes_from_be(b.drop_last());
        let n = from_be(b);
        let hi = from_be(b.drop_last());
        assert(n == hi * 256 + b.last());
        assert(n / 256 == hi && n % 256 == b.last()) by {
            lemma_fundamental_div_mod(n as int, 256);
            assert(n == 256 * (n / 256) + n % 256);
            assert(hi * 256 + b.last() == 256 * (n / 256) + n % 256);
            assert(0 <= n % 256 < 256);
            assert(b.last() < 256);
            assert(hi == n / 256) by (nonlinear_arith)
                requires
                    hi * 256 + (b.last() as int) == 256 * ((n as int) / 256) + (n as int) % 256,
                    0 <= (n as int) % 256 < 256,
                    0 <= b.last() < 256,
            ;
        };
        assert(be_bytes(n, b.len()) == be_bytes(hi, (b.len() - 1) as nat).push(
            (n % 256) as u8,
        ));
        assert(be_bytes(n, b.len()) =~= b);
    }
}

/// Every decoded value fits the byte string's width.
pub proof fn lemma_from_be_bound(b: Seq<u8>)
    ensures
        from_be(b) < pow256(b.len()),
    decreases b.len(),
{
    if b.len() == 0 {
    } else {
        lemma_from_be_bound(b.drop_last());
        let hi = from_be(b.drop_last());
        let p = pow256((b.len() - 1) as nat);
        assert(hi < p);
        assert(hi * 256 + b.last() < 256 * p) by (nonlinear_arith)
            requires
                hi < p,
                0 <= b.last() < 256,
                p >= 1,
        {
        }
        assert(pow256(b.len()) == 256 * p);
    }
}

/// The leading byte and the remainder of a big-endian encoding.
pub proof fn lemma_be_bytes_split(n: nat, w: nat)
    requires
        w >= 1,
        n < pow256(w),
    ensures
        be_bytes(n, w).first() == n / pow256((w - 1) as nat),
        be_bytes(n, w).drop_first() == be_bytes(n % pow256((w - 1) as nat), (w - 1) as nat),
    decreases w,
{
    lemma_be_bytes_len(n, w);
    lemma_pow256_pos((w - 1) as nat);
    if w == 1 {
        assert(be_bytes(n, 1) == be_bytes(n / 256, 0).push((n % 256) as u8));
        assert(n < 256);
        assert(n % 256 == n) by {
            lemma_fundamental_div_mod(n as int, 256);
        };
        assert(n / pow256(0) == n);
        assert(be_bytes(n, 1).first() == n);
        assert(be_bytes(n, 1).drop_first() =~= Seq::<u8>::empty());
        assert(be_bytes(n % pow256(0), 0) == Seq::<u8>::empty());
    } else {
        let p1 = pow256((w - 1) as nat);
        let p2 = pow256((w - 2) as nat);
        lemma_pow256_pos((w - 2) as nat);
        assert(n / 256 < p1) by {
            lemma_fundamental_div_mod(n as int, 256);
            assert(pow256(w) == 256 * p1);
        };
        lemma_be_bytes_split(n / 256, (w - 1) as nat);
        // be_bytes(n, w) = be_bytes(n / 256, w - 1).push(n % 256)
        assert(be_bytes(n, w) == be_bytes(n / 256, (w - 1) as nat).push((n % 256) as u8));
        // first byte
        assert((n / 256) / p2 == n / p1) by {
            lemma_div_denominator(n as int, 256, p2 as int);
            assert(256 * p2 == p1);
        };
        assert(be_bytes(n, w).first() == be_bytes(n / 256, (w - 1) as nat).first());
        // remainder: n % p1 == 256 * ((n / 256) % p2) + n % 256
        assert(n % p1 == 256 * ((n / 256) % p2) + n % 256) by {
            lemma_mod_breakdown(n as int, 256, p2 as int);
            assert(256 * p2 == p1);
        };
        let m = n % p1;
        assert(m / 256 == (n / 256) % p2 && m % 256 == n % 256) by {
            lemma_fundamental_div_mod(m as int, 256);
            assert(m == 256 * (m / 256) + m % 256);
            assert(0 <= n % 256 < 256);
            assert((m / 256) == ((n / 256) % p2) && m % 256 == n % 256) by (nonlinear_arith)
                requires
                    256 * (((n as int) / 256) % (p2 as int)) + (n as int) % 256 == 256 * ((m as int)
                        / 256) + (m as int) % 256,
                    0 <= (n as int) % 256 < 256,
                    0 <= (m as int) % 256 < 256,
            ;
        };
        assert(be_bytes(m, (w - 1) as nat) == be_bytes(m / 256, (w - 2) as nat).push(
            (m % 256) as u8,
        ));
        assert(be_bytes(n, w).drop_first() =~= be_bytes(n / 256, (w - 1) as nat).drop_first().push(
            (n % 256) as u8,
        ));
        assert(be_bytes(n / 256, (w - 1) as nat).drop_first() == be_bytes((n / 256) % p2, (w - 2) as nat));
        assert(be_bytes(m, (w - 1) as nat) =~= be_bytes(n, w).drop_first());
    }
}

/// Equal-width big-endian encodings order exactly as the numbers do.
pub proof fn lemma_be_bytes_order(n1: nat, n2: nat, w: nat)
    requires
        n1 < pow256(w),
        n2 < pow256(w),
    ensures
        lex_lt(be_bytes(n1, w), be_bytes(n2, w)) <==> n1 < n2,
    decreases w,
{
    lemma_be_bytes_len(n1, w);
    lemma_be_bytes_len(n2, w);
    if w == 0 {
    } else {
        let p = pow256((w - 1) as nat);
        lemma_pow256_pos((w - 1) as nat);
        lemma_be_bytes_split(n1, w);
        lemma_be_bytes_split(n2, w);
        let h1 = n1 / p;
        let h2 = n2 / p;
        assert(h1 < 256 && h2 < 256) by (nonlinear_arith)
            requires
                n1 < 256 * p,
                n2 < 256 * p,
                p >= 1,
                h1 == n1 / p,
                h2 == n2 / p,
        {
        }
        lemma_fundamental_div_mod(n1 as int, p as int);
        lemma_fundamental_div_mod(n2 as int, p as int);
        assert(n1 == p * h1 + n1 % p);
        assert(n2 == p * h2 + n2 % p);
        assert(0 <= n1 % p < p && 0 <= n2 % p < p) by (nonlinear_arith)
            requires
                p >= 1,
                n1 % p == n1 - p * (n1 / p),
                n2 % p == n2 - p * (n2 / p),
                0 <= n1 % p < p,
                0 <= n2 % p < p,
        {
        }
        if h1 == h2 {
            lemma_be_bytes_order(n1 % p, n2 % p, (w - 1) as nat);
            assert(n1 < n2 <==> n1 % p < n2 % p);
        } else if h1 < h2 {
            assert(n1 < n2) by (nonlinear_arith)
                requires
                    n1 == p * h1 + n1 % p,
                    n2 == p * h2 + n2 % p,
                    h1 < h2,
                    0 <= n1 % p < p,
                    0 <= n2 % p < p,
                    p >= 1,
            ;
            assert(lex_lt(be_bytes(n1, w), be_bytes(n2, w)));
        } else {
            assert(n2 < n1) by (nonlinear_arith)
                requires
                    n1 == p * h1 + n1 % p,
                    n2 == p * h2 + n2 % p,
                    h2 < h1,
                    0 <= n1 % p < p,
                    0 <= n2 % p < p,
                    p >= 1,
            ;
            assert(!lex_lt(be_bytes(n1, w), be_bytes(n2, w)));
        }
    }
}

/// Lexicographic order is transitive.
pub proof fn lemma_lex_lt_trans(a: Seq<u8>, b: Seq<u8>, c: Seq<u8>)
    requires
        lex_lt(a, b),
        lex_lt(b, c),
    ensures
        lex_lt(a, c),
    decreases a.len(),
{
    if a.len() > 0 && b.len() > 0 && c.len() > 0 && a[0] == b[0] && b[0] == c[0] {
        lemma_lex_lt_trans(a.drop_first(), b.drop_first(), c.drop_first());
    }
}

/// Lexicographic order is irreflexive.
pub proof fn lemma_lex_lt_irrefl(a: Seq<u8>)
    ensures
        !lex_lt(a, a),
    decreases a.len(),
{
    if a.len() > 0 {
        lemma_lex_lt_irrefl(a.drop_first());
    }
}

/// The bounds the widths used by the store need.
pub proof fn lemma_pow256_widths()
    ensures
        pow256(8) == 0x10000000000000000,
        pow256(12) == 0x1000000000000000000000000,
        pow256(16) == 0x100000000000000000000000000000000,
{
    reveal_with_fuel(pow256, 17);
}

/// Writes `n` as exactly `w` big-endian bytes.
pub fn u128_to_be_bytes(n: u128, w: usize) -> (r: Vec<u8>)
    requires
        (n as nat) < pow256(w as nat),
    ensures
        r@ == be_bytes(n as nat, w as nat),
{
    let mut out: Vec<u8> = Vec::new();
    let mut cur: u128 = n;
    let mut i: usize = 0;
    while i < w
        invariant
            i <= w,
            out@.len() == i,
            be_bytes(cur as nat, (w - i) as nat) + out@ =~= be_bytes(n as nat, w as nat),
        decreases w - i,
    {
        let ghost pre = out@;
        let ghost precur = cur as nat;
        out.insert(0, (cur % 256) as u8);
        cur = cur / 256;
        i = i + 1;
        proof {
            assert(out@ =~= seq![(precur % 256) as u8] + pre);
            assert(be_bytes(precur, (w - i + 1) as nat) == be_bytes(precur / 256, (w - i) as nat)
                .push((precur % 256) as u8));
            assert(be_bytes(cur as nat, (w - i) as nat) + out@ =~= be_bytes(
                precur,
                (w - i + 1) as nat,
            ) + pre);
        }
    }
    proof {
        assert(be_bytes(cur as nat, 0) + out@ =~= out@);
    }
    out
}

/// Reads the big-endian bytes `b[start..end]` as a number.
pub fn be_bytes_to_u128(b: &Vec<u8>, start: usize, end: usize) -> (r: u128)
    requires
        start <= end <= b@.len(),
        end - start <= 16,
    ensures
        r as nat == from_be(b@.subrange(start as int, end as int)),
{
    proof {
        lemma_pow256_widths();
    }
    let mut cur: u128 = 0;
    let mut i: usize = start;
    while i < end
        invariant
            start <= i <= end <= b@.len(),
            end - start <= 16,
            cur as nat == from_be(b@.subrange(start as int, i as int)),
            pow256(16) == 0x100000000000000000000000000000000,
        decreases end - i,
    {
        proof {
            let sub = b@.subrange(start as int, i as int);
            lemma_from_be_bound(sub);
            lemma_pow256_increases((i - start) as nat, 15);
            assert(from_be(sub) < pow256(15));
            reveal_with_fuel(pow256, 17);
            let next = b@.subrange(start as int, i + 1 as int);
            assert(next.drop_last() =~= sub);
            assert(next.last() == b@[i as int]);
        }
        cur = cur * 256 + (b[i] as u128);
        i = i + 1;
    }
    proof {
        assert(b@.subrange(start as int, i as int) == b@.subrange(start as int, end as int));
    }
    cur
}

/// Appends all of `b` to `out`.
pub fn push_bytes(out: &mut Vec<u8>, b: &Vec<u8>)
    ensures
        final(out)@ == old(out)@ + b@,
{
    let mut i: usize = 0;
    while i < b.len()
        invariant
            i <= b@.len(),
            out@ =~= old(out)@ + b@.subrange(0, i as int),
        decreases b@.len() - i,
    {
        out.push(b[i]);
        i = i + 1;
    }
    proof {
        assert(b@.subrange(0, b@.len() as int) =~= b@);
    }
}

/// A wider width never shrinks the bound.
pub proof fn lemma_pow256_increases(a: nat, b: nat)
    requires
        a <= b,
    ensures
        pow256(a) <= pow256(b),
    decreases b,
{
    if a < b {
        lemma_pow256_increases(a, (b - 1) as nat);
        lemma_pow256_pos((b - 1) as nat);
    }
}

} // verus!
