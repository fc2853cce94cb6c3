//! The mathematical model of bit streams: a stream is a sequence of booleans,
//! most significant bit first within each byte, and an unsigned value packed
//! into `n` bits contributes exactly its low `n` bits, highest first.

use vstd::arithmetic::div_mod::{
    lemma_div_denominator, lemma_fundamental_div_mod_converse, lemma_mod_breakdown, lemma_mod_mod,
    lemma_small_mod,
};
use vstd::arithmetic::power2::{
    lemma2_to64, lemma2_to64_rest, lemma_pow2_adds, lemma_pow2_pos, lemma_pow2_strictly_increases,
    pow2,
};
use vstd::bits::{lemma_u64_pow2_no_overflow, lemma_u64_shl_is_mul};
use vstd::prelude::*;

verus! {

/// The low `n` bits of `v` as a bit sequence, most significant of the `n` first.
pub open spec fn low_bits(v: nat, n: nat) -> Seq<bool> {
    Seq::new(n, |i: int| (v / pow2((n - 1 - i) as nat)) % 2 == 1)
}

/// The unsigned value that a bit sequence denotes, most significant bit first.
pub open spec fn bits_int(s: Seq<bool>) -> nat
    decreases s.len(),
{
    if s.len() == 0 {
        0
    } else {
        2 * bits_int(s.drop_last()) + (if s.last() {
            1nat
        } else {
            0nat
        })
    }
}

/// The bit sequence that a byte sequence carries.
pub open spec fn bytes_bits(s: Seq<u8>) -> Seq<bool>
    decreases s.len(),
{
    if s.len() == 0 {
        Seq::empty()
    } else {
        low_bits(s[0] as nat, 8) + bytes_bits(s.skip(1))
    }
}

/// A bit sequence denotes a value below two to its length.
pub proof fn lemma_bits_int_bound(s: Seq<bool>)
    ensures
        bits_int(s) < pow2(s.len()),
    decreases s.len(),
{
    if s.len() == 0 {
        lemma2_to64();
    } else {
        lemma_bits_int_bound(s.drop_last());
        lemma_pow2_adds((s.len() - 1) as nat, 1);
        lemma2_to64();
    }
}

/// Concatenation packs the first part into the high positions.
pub proof fn lemma_bits_int_concat(a: Seq<bool>, b: Seq<bool>)
    ensures
        bits_int(a + b) == bits_int(a) * pow2(b.len()) + bits_int(b),
    decreases b.len(),
{
    if b.len() == 0 {
        assert(a + b =~= a);
        lemma2_to64();
        assert(pow2(b.len()) == 1);
        assert(bits_int(a) * pow2(b.len()) == bits_int(a)) by (nonlinear_arith)
            requires
                pow2(b.len()) == 1,
        ;
    } else {
        let e = (b.len() - 1) as nat;
        let bl = bits_int(b.drop_last());
        let bit: nat = if b.last() {
            1
        } else {
            0
        };
        assert((a + b).drop_last() =~= a + b.drop_last());
        lemma_bits_int_concat(a, b.drop_last());
        lemma_pow2_adds(e, 1);
        lemma2_to64();
        assert((a + b).last() == b.last());
        assert(bits_int(a + b) == 2 * bits_int(a + b.drop_last()) + bit);
        assert(bits_int(a + b.drop_last()) == bits_int(a) * pow2(e) + bl);
        assert(bits_int(b) == 2 * bl + bit);
        assert(pow2(b.len()) == 2 * pow2(e));
        assert(bits_int(a + b) == 2 * (bits_int(a) * pow2(e)) + 2 * bl + bit);
        assert(2 * (bits_int(a) * pow2(e)) == bits_int(a) * (2 * pow2(e))) by (nonlinear_arith);
        assert(bits_int(a) * (2 * pow2(e)) == bits_int(a) * pow2(b.len()));
    }
}

/// Bit sequences of one length with one value are the same sequence.
pub proof fn lemma_bits_int_injective(s1: Seq<bool>, s2: Seq<bool>)
    requires
        s1.len() == s2.len(),
        bits_int(s1) == bits_int(s2),
    ensures
        s1 == s2,
    decreases s1.len(),
{
    if s1.len() == 0 {
        assert(s1 =~= s2);
    } else {
        let b1: nat = if s1.last() {
            1
        } else {
            0
        };
        let b2: nat = if s2.last() {
            1
        } else {
            0
        };
        assert(bits_int(s1) == 2 * bits_int(s1.drop_last()) + b1);
        assert(bits_int(s2) == 2 * bits_int(s2.drop_last()) + b2);
        assert(b1 == bits_int(s1) % 2);
        assert(b2 == bits_int(s2) % 2);
        assert(bits_int(s1.drop_last()) == bits_int(s2.drop_last()));
        lemma_bits_int_injective(s1.drop_last(), s2.drop_last());
        assert(s1.last() == s2.last());
        assert forall|i: int| 0 <= i < s1.len() implies s1[i] == s2[i] by {
            if i < s1.len() - 1 {
                assert(s1[i] == s1.drop_last()[i]);
                assert(s2[i] == s2.drop_last()[i]);
            } else {
                assert(s1[i] == s1.last());
                assert(s2[i] == s2.last());
            }
        }
        assert(s1 =~= s2);
    }
}

/// The value of the low `n` bits of `v` is `v` modulo two to the `n`.
pub proof fn lemma_low_bits_int(v: nat, n: nat)
    ensures
        bits_int(low_bits(v, n)) == v % pow2(n),
    decreases n,
{
    if n == 0 {
        assert(low_bits(v, 0) =~= Seq::<bool>::empty());
        lemma2_to64();
    } else {
        assert(low_bits(v, n).drop_last() =~= low_bits(v / 2, (n - 1) as nat)) by {
            assert forall|i: int| 0 <= i < n - 1 implies low_bits(v, n)[i] == low_bits(
                v / 2,
                (n - 1) as nat,
            )[i] by {
                let e = (n - 2 - i) as nat;
                lemma_pow2_pos(e);
                lemma_div_denominator(v as int, 2, pow2(e) as int);
                lemma_pow2_adds(1, e);
                lemma2_to64();
            }
        }
        lemma_low_bits_int(v / 2, (n - 1) as nat);
        lemma2_to64();
        assert(v / pow2(0) == v);
        lemma_pow2_pos((n - 1) as nat);
        lemma_mod_breakdown(v as int, 2, pow2((n - 1) as nat) as int);
        lemma_pow2_adds(1, (n - 1) as nat);
    }
}

/// Only the low `m` bits of the value matter for its low `n` bits, `n <= m`.
pub proof fn lemma_low_bits_mod(v: nat, n: nat, m: nat)
    requires
        n <= m,
    ensures
        low_bits(v % pow2(m), n) == low_bits(v, n),
{
    lemma_low_bits_int(v % pow2(m), n);
    lemma_low_bits_int(v, n);
    lemma_pow2_pos(n);
    lemma_pow2_pos((m - n) as nat);
    lemma_pow2_adds(n, (m - n) as nat);
    lemma_mod_mod(v as int, pow2(n) as int, pow2((m - n) as nat) as int);
    lemma_bits_int_injective(low_bits(v % pow2(m), n), low_bits(v, n));
}

/// The first `k` of the low `n` bits are the low `k` bits of the value shifted down.
pub proof fn lemma_low_bits_take(v: nat, n: nat, k: nat)
    requires
        k <= n,
    ensures
        low_bits(v, n).take(k as int) == low_bits(v / pow2((n - k) as nat), k),
{
    assert forall|i: int| 0 <= i < k implies low_bits(v, n)[i] == low_bits(
        v / pow2((n - k) as nat),
        k,
    )[i] by {
        let e = (k - 1 - i) as nat;
        lemma_pow2_pos(e);
        lemma_pow2_pos((n - k) as nat);
        lemma_div_denominator(v as int, pow2((n - k) as nat) as int, pow2(e) as int);
        lemma_pow2_adds((n - k) as nat, e);
    }
    assert(low_bits(v, n).take(k as int) =~= low_bits(v / pow2((n - k) as nat), k));
}

/// Dropping the first `k` of the low `n` bits leaves the low `n - k` bits.
pub proof fn lemma_low_bits_skip(v: nat, n: nat, k: nat)
    requires
        k <= n,
    ensures
        low_bits(v, n).skip(k as int) == low_bits(v, (n - k) as nat),
{
    assert(low_bits(v, n).skip(k as int) =~= low_bits(v, (n - k) as nat));
}

/// Packing `a` above `k` bits holding `b` concatenates their bit sequences.
pub proof fn lemma_low_bits_combine(a: nat, b: nat, m: nat, k: nat)
    requires
        b < pow2(k),
    ensures
        low_bits(a * pow2(k) + b, (m + k) as nat) == low_bits(a, m) + low_bits(b, k),
{
    let x = a * pow2(k) + b;
    lemma_pow2_pos(k);
    lemma_pow2_pos(m);
    lemma_fundamental_div_mod_converse(x as int, pow2(k) as int, a as int, b as int);
    assert(x / pow2(k) == a && x % pow2(k) == b);
    lemma_pow2_adds(k, m);
    lemma_mod_breakdown(x as int, pow2(k) as int, pow2(m) as int);
    assert(x % pow2((m + k) as nat) == pow2(k) * (a % pow2(m)) + b);
    lemma_low_bits_int(x, (m + k) as nat);
    lemma_low_bits_int(a, m);
    lemma_low_bits_int(b, k);
    lemma_small_mod(b, pow2(k));
    lemma_bits_int_concat(low_bits(a, m), low_bits(b, k));
    assert(bits_int(low_bits(a, m) + low_bits(b, k)) == (a % pow2(m)) * pow2(k) + b);
    assert(pow2(k) * (a % pow2(m)) == (a % pow2(m)) * pow2(k)) by (nonlinear_arith);
    lemma_bits_int_injective(low_bits(x, (m + k) as nat), low_bits(a, m) + low_bits(b, k));
}

/// A byte sequence carries eight bits per byte.
pub proof fn lemma_bytes_bits_len(s: Seq<u8>)
    ensures
        bytes_bits(s).len() == 8 * s.len(),
    decreases s.len(),
{
    if s.len() != 0 {
        lemma_bytes_bits_len(s.skip(1));
    }
}

/// Appending one byte appends its eight bits.
pub proof fn lemma_bytes_bits_push(s: Seq<u8>, b: u8)
    ensures
        bytes_bits(s.push(b)) == bytes_bits(s) + low_bits(b as nat, 8),
    decreases s.len(),
{
    if s.len() == 0 {
        assert(s.push(b).skip(1) =~= Seq::<u8>::empty());
        assert(s.push(b)[0] == b);
        assert(bytes_bits(s.push(b)) == low_bits(b as nat, 8) + bytes_bits(Seq::<u8>::empty()));
        assert(low_bits(b as nat, 8) + Seq::<bool>::empty() =~= low_bits(b as nat, 8));
        assert(bytes_bits(s) + low_bits(b as nat, 8) =~= low_bits(b as nat, 8));
    } else {
        assert(s.push(b).skip(1) =~= s.skip(1).push(b));
        lemma_bytes_bits_push(s.skip(1), b);
        assert(low_bits(s[0] as nat, 8) + (bytes_bits(s.skip(1)) + low_bits(b as nat, 8)) =~= (
        low_bits(s[0] as nat, 8) + bytes_bits(s.skip(1))) + low_bits(b as nat, 8));
    }
}

/// Byte sequences of one length carrying one bit stream are the same bytes:
/// a caller that knows a sink's bit stream knows its bytes exactly.
pub proof fn lemma_bytes_bits_injective(s1: Seq<u8>, s2: Seq<u8>)
    requires
        s1.len() == s2.len(),
        bytes_bits(s1) == bytes_bits(s2),
    ensures
        s1 == s2,
    decreases s1.len(),
{
    if s1.len() == 0 {
        assert(s1 =~= s2);
    } else {
        lemma_bytes_bits_len(s1.skip(1));
        lemma_bytes_bits_len(s2.skip(1));
        assert(low_bits(s1[0] as nat, 8) =~= bytes_bits(s1).take(8));
        assert(low_bits(s2[0] as nat, 8) =~= bytes_bits(s2).take(8));
        lemma_low_bits_int(s1[0] as nat, 8);
        lemma_low_bits_int(s2[0] as nat, 8);
        lemma2_to64();
        lemma_small_mod(s1[0] as nat, pow2(8));
        lemma_small_mod(s2[0] as nat, pow2(8));
        assert(s1[0] == s2[0]);
        assert(bytes_bits(s1.skip(1)) =~= bytes_bits(s1).skip(8));
        assert(bytes_bits(s2.skip(1)) =~= bytes_bits(s2).skip(8));
        lemma_bytes_bits_injective(s1.skip(1), s2.skip(1));
        assert forall|i: int| 0 <= i < s1.len() implies s1[i] == s2[i] by {
            if i > 0 {
                assert(s1[i] == s1.skip(1)[i - 1]);
                assert(s2[i] == s2.skip(1)[i - 1]);
            }
        }
        assert(s1 =~= s2);
    }
}

/// Dropping `m` whole bytes drops their `8 * m` bits.
pub proof fn lemma_bytes_bits_skip(s: Seq<u8>, m: int)
    requires
        0 <= m <= s.len(),
    ensures
        bytes_bits(s.skip(m)) == bytes_bits(s).skip(8 * m),
    decreases m,
{
    lemma_bytes_bits_len(s);
    if m == 0 {
        assert(s.skip(0) =~= s);
        assert(bytes_bits(s).skip(0) =~= bytes_bits(s));
    } else {
        lemma_bytes_bits_skip(s.skip(1), m - 1);
        lemma_bytes_bits_len(s.skip(1));
        assert(s.skip(1).skip(m - 1) =~= s.skip(m));
        assert((low_bits(s[0] as nat, 8) + bytes_bits(s.skip(1))).skip(8 * m) =~= bytes_bits(
            s.skip(1),
        ).skip(8 * (m - 1)));
    }
}

/// Bounds a packed pair: `x` above `b` bits holding `y` stays below `a + b` bits.
pub proof fn lemma_pow2_mul_bound(x: nat, y: nat, a: nat, b: nat)
    requires
        x < pow2(a),
        y < pow2(b),
    ensures
        x * pow2(b) + y < pow2((a + b) as nat),
        pow2((a + b) as nat) == pow2(a) * pow2(b),
{
    lemma_pow2_adds(a, b);
    lemma_pow2_pos(a);
    lemma_pow2_pos(b);
    assert(x * pow2(b) + y < pow2(a) * pow2(b)) by (nonlinear_arith)
        requires
            x < pow2(a),
            y < pow2(b),
            pow2(a) > 0,
            pow2(b) > 0,
    ;
}

/// Two to the `64` is one more than the largest 64-bit value.
pub proof fn lemma_pow2_64_max()
    ensures
        pow2(64) == 0x10000000000000000,
        forall|n: nat| n <= 64 ==> #[trigger] pow2(n) <= 0x10000000000000000,
{
    lemma2_to64();
    lemma2_to64_rest();
    assert forall|n: nat| n <= 64 implies #[trigger] pow2(n) <= 0x10000000000000000 by {
        if n < 64 {
            lemma_pow2_strictly_increases(n, 64);
        }
    }
}

/// Two to the `k`, for exponents that fit a 64-bit value.
pub(crate) fn exec_pow2(k: u8) -> (r: u64)
    requires
        k < 64,
    ensures
        r as nat == pow2(k as nat),
        r >= 1,
{
    proof {
        lemma_u64_pow2_no_overflow(k as nat);
        lemma_u64_shl_is_mul(1u64, k as u64);
    }
    1u64 << k
}

} // verus!
