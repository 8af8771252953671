//! Overflow-safe modular arithmetic and full-width exponentiation.
//!
//! ADDMOD and MULMOD are exact over the unbounded sum and product: the carry
//! of the 256-bit addition is folded back in, and the product is reduced by
//! modular doubling over the multiplier's bits, so no intermediate is ever
//! truncated. EXP walks all 256 bits of the exponent by repeated squaring.
use crate::ops::{
    lemma_bit_decompose, lemma_byte_decompose, lemma_pow256_pow2, op_addmod, op_exp,
    op_mulmod, pow256,
};
use crate::word::{
    byte_at, is_zero_w, lemma_word_val_bound, u256_add, u256_lt, u256_mul,
    u256_overflowing_add, u256_rem, u256_sub, word_from_u64, word_ones, Word,
};
use vstd::arithmetic::div_mod::*;
use vstd::arithmetic::power::*;
use vstd::arithmetic::power2::*;
use vstd::prelude::*;

verus! {

/// Doubling a residue keeps the product congruence.
proof fn lemma_double_step(a: int, m: int, n: int, acc: int, acc2: int)
    requires
        n > 0,
        acc == (a * m) % n,
        acc2 == (acc + acc) % n,
    ensures
        acc2 == (a * (2 * m)) % n,
{
    lemma_add_mod_noop(a * m, a * m, n);
    assert(a * m + a * m == a * (2 * m)) by (nonlinear_arith);
}

/// Adding the reduced multiplicand steps the multiplier by one.
proof fn lemma_add_one_step(a: int, m: int, n: int, acc: int, acc3: int)
    requires
        n > 0,
        acc == (a * m) % n,
        acc3 == (acc + (a % n)) % n,
    ensures
        acc3 == (a * (m + 1)) % n,
{
    lemma_add_mod_noop(a * m, a, n);
    assert(a * m + a == a * (m + 1)) by (nonlinear_arith);
}

/// Squaring a residue doubles the exponent.
proof fn lemma_square_step(a: int, e: nat, p: int, acc: int, acc2: int)
    requires
        p > 0,
        acc == pow(a, e) % p,
        acc2 == (acc * acc) % p,
    ensures
        acc2 == pow(a, e + e) % p,
{
    lemma_pow_adds(a, e, e);
    lemma_mul_mod_noop_general(pow(a, e), pow(a, e), p);
}

/// Multiplying a residue by the reduced base steps the exponent by one.
proof fn lemma_mul_base_step(a: int, e: nat, p: int, acc: int, acc3: int)
    requires
        p > 0,
        0 <= a < p,
        acc == pow(a, e) % p,
        acc3 == (acc * a) % p,
    ensures
        acc3 == pow(a, e + 1) % p,
{
    lemma_pow_adds(a, e, 1);
    lemma_pow1(a);
    lemma_small_mod(a as nat, p as nat);
    lemma_mul_mod_noop_general(pow(a, e), a, p);
}

/// One bit step of the running value `m`: reading bit `bitv` doubles `m`
/// and adds the bit, which matches one more bit consumed from the byte.
proof fn lemma_bits_advance(
    m0: nat,
    m: nat,
    cb: nat,
    c: nat,
    c_rem: nat,
    k: nat,
    bitv: nat,
    cr2: nat,
)
    requires
        k < 8,
        m == m0 * pow2(k) + cb,
        c == cb * pow2((8 - k) as nat) + c_rem,
        c_rem == bitv * pow2((7 - k) as nat) + cr2,
    ensures
        2 * m + bitv == m0 * pow2((k + 1) as nat) + (2 * cb + bitv),
        c == (2 * cb + bitv) * pow2((7 - k) as nat) + cr2,
{
    lemma_pow2_adds(k, 1);
    lemma_pow2_adds((7 - k) as nat, 1);
    lemma2_to64();
    assert(m0 * pow2((k + 1) as nat) == 2 * (m0 * pow2(k))) by (nonlinear_arith)
        requires
            pow2((k + 1) as nat) == pow2(k) * 2,
    ;
    assert(cb * pow2((8 - k) as nat) == 2 * (cb * pow2((7 - k) as nat)))
        by (nonlinear_arith)
        requires
            pow2((8 - k) as nat) == pow2((7 - k) as nat) * 2,
    ;
    assert((2 * cb + bitv) * pow2((7 - k) as nat) == 2 * (cb * pow2((7 - k) as nat))
        + bitv * pow2((7 - k) as nat)) by (nonlinear_arith);
}

/// One byte step of the running value `m`: after all eight bits of byte `c`,
/// `m` has been multiplied by 256 and the byte added.
proof fn lemma_byte_advance(
    x: nat,
    i: int,
    m0: nat,
    m: nat,
    c: nat,
    rest: nat,
    rest_next: nat,
)
    requires
        0 <= i < 32,
        x == m0 * pow256((32 - i) as nat) + rest,
        rest == c * pow256((31 - i) as nat) + rest_next,
        m == m0 * 256 + c,
    ensures
        x == m * pow256((31 - i) as nat) + rest_next,
{
    let p = pow256((31 - i) as nat);
    assert(pow256((32 - i) as nat) == 256 * p);
    assert((m0 * 256 + c) * p == m0 * (256 * p) + c * p) by (nonlinear_arith);
}

/// Addition of two residues below `n@`, reduced modulo `n@`, without any
/// overflow past 2^256.
pub(crate) fn modadd(x: &Word, y: &Word, n: &Word) -> (r: Word)
    requires
        x.wf(),
        y.wf(),
        n.wf(),
        x@ < n@,
        y@ < n@,
    ensures
        r.wf(),
        r@ == (x@ + y@) % n@,
        r@ < n@,
{
    proof {
        lemma_word_val_bound(n);
        lemma_small_mod((n@ - y@) as nat, pow2(256));
    }
    let gap = u256_sub(n, y);
    if u256_lt(x, &gap) {
        proof {
            lemma_small_mod((x@ + y@) as nat, pow2(256));
            lemma_small_mod((x@ + y@) as nat, n@);
        }
        u256_add(x, y)
    } else {
        proof {
            lemma_small_mod((x@ - gap@) as nat, pow2(256));
            lemma_mod_sub_multiples_vanish((x@ + y@) as int, n@ as int);
            lemma_small_mod((x@ + y@ - n@) as nat, n@);
        }
        u256_sub(x, &gap)
    }
}

/// ADDMOD: `(a@ + b@) mod n@` over the unbounded sum, 0 on a zero modulus.
pub(crate) fn addmod_w(a: &Word, b: &Word, n: &Word) -> (r: Word)
    requires
        a.wf(),
        b.wf(),
        n.wf(),
    ensures
        r.wf(),
        r@ == op_addmod(a@, b@, n@),
{
    if is_zero_w(n) {
        return word_from_u64(0);
    }
    let (s, carry) = u256_overflowing_add(a, b);
    let r1 = u256_rem(&s, n);
    proof {
        lemma_mod_bound(s@ as int, n@ as int);
    }
    if !carry {
        return r1;
    }
    // The true sum is 2^256 + s@; fold the weight of the carry back in.
    let ones = word_ones();
    let m = u256_rem(&ones, n);
    proof {
        lemma_word_val_bound(n);
        lemma_mod_bound((pow2(256) - 1) as int, n@ as int);
        lemma_small_mod((m@ + 1) as nat, pow2(256));
    }
    let one = word_from_u64(1);
    let m1 = u256_add(&m, &one);
    let p_mod = if u256_lt(&m1, n) {
        m1
    } else {
        word_from_u64(0)
    };
    proof {
        lemma_add_mod_noop_right(1, (pow2(256) - 1) as int, n@ as int);
        if m@ + 1 < n@ {
            lemma_small_mod((m@ + 1) as nat, n@);
        } else {
            assert(m@ + 1 == n@);
            lemma_mod_self_0(n@ as int);
        }
        assert(p_mod@ == pow2(256) % n@);
        lemma_mod_bound(pow2(256) as int, n@ as int);
    }
    let res = modadd(&r1, &p_mod, n);
    proof {
        lemma_add_mod_noop(pow2(256) as int, s@ as int, n@ as int);
        assert(res@ == (pow2(256) + s@) % n@);
        assert(pow2(256) + s@ == a@ + b@);
    }
    res
}

/// MULMOD: `(a@ * b@) mod n@` over the unbounded product, 0 on a zero
/// modulus. The product is never formed: the multiplier's bits drive
/// modular doubling and addition, every step below `n@`.
pub(crate) fn mulmod_w(a: &Word, b: &Word, n: &Word) -> (r: Word)
    requires
        a.wf(),
        b.wf(),
        n.wf(),
    ensures
        r.wf(),
        r@ == op_mulmod(a@, b@, n@),
{
    if is_zero_w(n) {
        return word_from_u64(0);
    }
    let a_red = u256_rem(a, n);
    proof {
        lemma_mod_bound(a@ as int, n@ as int);
    }
    let mut acc = word_from_u64(0);
    let ghost mut m: nat = 0;
    let ghost mut rest: nat = b@;
    proof {
        lemma_word_val_bound(b);
        lemma_pow256_pow2(32);
        lemma_small_mod(0, n@);
        assert(a@ * 0 == 0) by (nonlinear_arith);
        assert(0 * pow256(32) == 0) by (nonlinear_arith);
    }
    let mut i: usize = 0;
    while i < 32
        invariant
            a.wf(),
            b.wf(),
            n.wf(),
            a_red.wf(),
            acc.wf(),
            n@ > 0,
            i <= 32,
            a_red@ == a@ % n@,
            a_red@ < n@,
            acc@ < n@,
            acc@ == (a@ * m) % n@,
            b@ == m * pow256((32 - i) as nat) + rest,
            rest < pow256((32 - i) as nat),
        decreases 32 - i,
    {
        let c = byte_at(b, i);
        let ghost m0 = m;
        let ghost mut rest_next: nat = 0;
        let ghost mut cb: nat = 0;
        let ghost mut c_rem: nat = c as nat;
        proof {
            let pair = lemma_byte_decompose(b@, i as int, m, rest);
            rest_next = pair.1;
            lemma2_to64();
            assert(0 * pow2(8) == 0) by (nonlinear_arith);
        }
        let mut rb: u8 = c;
        proof {
            assert(rb as nat == c_rem * pow2(0)) by (nonlinear_arith)
                requires
                    rb == c_rem,
                    pow2(0) == 1,
            ;
        }
        let mut k: usize = 0;
        while k < 8
            invariant
                a.wf(),
                b.wf(),
                n.wf(),
                a_red.wf(),
                acc.wf(),
                n@ > 0,
                i < 32,
                k <= 8,
                a_red@ == a@ % n@,
                a_red@ < n@,
                acc@ < n@,
                acc@ == (a@ * m) % n@,
                b@ == m0 * pow256((32 - i) as nat) + rest,
                rest == (c as nat) * pow256((31 - i) as nat) + rest_next,
                rest_next < pow256((31 - i) as nat),
                c as nat == cb * pow2((8 - k) as nat) + c_rem,
                c_rem < pow2((8 - k) as nat),
                rb as nat == c_rem * pow2(k as nat),
                m == m0 * pow2(k as nat) + cb,
            decreases 8 - k,
        {
            let ghost acc0 = acc@;
            let ghost rb0 = rb as nat;
            let acc2 = modadd(&acc, &acc, n);
            let bit = rb / 128;
            rb = (rb % 128) * 2;
            if bit == 1 {
                let acc3 = modadd(&acc2, &a_red, n);
                acc = acc3;
            } else {
                acc = acc2;
            }
            proof {
                let pair = lemma_bit_decompose(c_rem, k as nat, rb0);
                let bitv = pair.0;
                assert(bitv == bit as nat);
                lemma_double_step(a@ as int, m as int, n@ as int, acc0 as int,
                    acc2@ as int);
                if bit == 1 {
                    lemma_add_one_step(a@ as int, (2 * m) as int, n@ as int, acc2@ as int,
                        acc@ as int);
                }
                lemma_bits_advance(m0, m, cb, c as nat, c_rem, k as nat, bitv, pair.1);
                m = 2 * m + bitv;
                cb = 2 * cb + bitv;
                c_rem = pair.1;
            }
            k = k + 1;
        }
        proof {
            lemma2_to64();
            assert(c_rem == 0);
            assert(cb * pow2(0) == cb) by (nonlinear_arith)
                requires
                    pow2(0) == 1,
            ;
            assert(m == m0 * 256 + c);
            lemma_byte_advance(b@, i as int, m0, m, c as nat, rest, rest_next);
            rest = rest_next;
        }
        i = i + 1;
    }
    proof {
        assert(pow256(0) == 1);
        assert(rest == 0);
        assert(m * 1 == m) by (nonlinear_arith);
        assert(m == b@);
    }
    acc
}

/// EXP: `a@` raised to the full 256-bit exponent `b@`, modulo 2^256, by
/// square-and-multiply over every exponent bit.
pub(crate) fn exp_w(a: &Word, b: &Word) -> (r: Word)
    requires
        a.wf(),
        b.wf(),
    ensures
        r.wf(),
        r@ == op_exp(a@, b@),
{
    let mut acc = word_from_u64(1);
    let ghost mut m: nat = 0;
    let ghost mut rest: nat = b@;
    proof {
        lemma_word_val_bound(a);
        lemma_word_val_bound(b);
        lemma_pow256_pow2(32);
        lemma_pow0(a@ as int);
        lemma_pow2_pos(256);
        lemma_small_mod(1, pow2(256));
        assert(0 * pow256(32) == 0) by (nonlinear_arith);
    }
    let mut i: usize = 0;
    while i < 32
        invariant
            a.wf(),
            b.wf(),
            acc.wf(),
            i <= 32,
            acc@ == pow(a@ as int, m) % (pow2(256) as int),
            b@ == m * pow256((32 - i) as nat) + rest,
            rest < pow256((32 - i) as nat),
        decreases 32 - i,
    {
        let c = byte_at(b, i);
        let ghost m0 = m;
        let ghost mut rest_next: nat = 0;
        let ghost mut cb: nat = 0;
        let ghost mut c_rem: nat = c as nat;
        proof {
            let pair = lemma_byte_decompose(b@, i as int, m, rest);
            rest_next = pair.1;
            lemma2_to64();
        }
        let mut rb: u8 = c;
        proof {
            assert(rb as nat == c_rem * pow2(0)) by (nonlinear_arith)
                requires
                    rb == c_rem,
                    pow2(0) == 1,
            ;
        }
        let mut k: usize = 0;
        while k < 8
            invariant
                a.wf(),
                b.wf(),
                acc.wf(),
                i < 32,
                k <= 8,
                acc@ == pow(a@ as int, m) % (pow2(256) as int),
                b@ == m0 * pow256((32 - i) as nat) + rest,
                rest == (c as nat) * pow256((31 - i) as nat) + rest_next,
                rest_next < pow256((31 - i) as nat),
                c as nat == cb * pow2((8 - k) as nat) + c_rem,
                c_rem < pow2((8 - k) as nat),
                rb as nat == c_rem * pow2(k as nat),
                m == m0 * pow2(k as nat) + cb,
            decreases 8 - k,
        {
            let ghost acc0 = acc@;
            let ghost rb0 = rb as nat;
            let acc2 = u256_mul(&acc, &acc);
            let bit = rb / 128;
            rb = (rb % 128) * 2;
            if bit == 1 {
                let acc3 = u256_mul(&acc2, a);
                acc = acc3;
            } else {
                acc = acc2;
            }
            proof {
                let pair = lemma_bit_decompose(c_rem, k as nat, rb0);
                let bitv = pair.0;
                assert(bitv == bit as nat);
                lemma_pow2_pos(256);
                lemma_word_val_bound(a);
                lemma_square_step(a@ as int, m, pow2(256) as int, acc0 as int,
                    acc2@ as int);
                if bit == 1 {
                    lemma_mul_base_step(a@ as int, (m + m) as nat, pow2(256) as int,
                        acc2@ as int, acc@ as int);
                }
                lemma_bits_advance(m0, m, cb, c as nat, c_rem, k as nat, bitv, pair.1);
                m = 2 * m + bitv;
                cb = 2 * cb + bitv;
                c_rem = pair.1;
            }
            k = k + 1;
        }
        proof {
            lemma2_to64();
            assert(c_rem == 0);
            assert(cb * pow2(0) == cb) by (nonlinear_arith)
                requires
                    pow2(0) == 1,
            ;
            assert(m == m0 * 256 + c);
            lemma_byte_advance(b@, i as int, m0, m, c as nat, rest, rest_next);
            rest = rest_next;
        }
        i = i + 1;
    }
    proof {
        assert(pow256(0) == 1);
        assert(rest == 0);
        assert(m * 1 == m) by (nonlinear_arith);
        assert(m == b@);
    }
    acc
}

} // verus!
