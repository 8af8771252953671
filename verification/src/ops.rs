//! Mathematical semantics of 256-bit machine words.
//!
//! A word is modelled as a natural number below 2^256. The meaning of every
//! opcode is given here as a spec function over such numbers; the executable
//! code elsewhere is proved against these definitions.
use vstd::arithmetic::div_mod::*;
use vstd::arithmetic::power::*;
use vstd::arithmetic::power2::*;
use vstd::prelude::*;

verus! {

/// Value of a byte string read as a big-endian unsigned integer.
pub open spec fn be_val(s: Seq<u8>) -> nat
    decreases s.len(),
{
    if s.len() == 0 {
        0
    } else {
        be_val(s.drop_last()) * 256 + (s.last() as nat)
    }
}

/// 256 raised to the power `k`: the weight of `k` bytes.
pub open spec fn pow256(k: nat) -> nat
    decreases k,
{
    if k == 0 {
        1
    } else {
        256 * pow256((k - 1) as nat)
    }
}

/// Byte `i` (0 = most significant of 32) of the word value `x`.
pub open spec fn byte_of(x: nat, i: int) -> u8 {
    (((x / pow256((31 - i) as nat)) % 256) as u8)
}

/// The two's-complement reading of a word value.
pub open spec fn as_signed(x: nat) -> int {
    if x < pow2(255) {
        x as int
    } else {
        x - pow2(256)
    }
}

/// The word bit pattern of a signed value in [-2^255, 2^255).
pub open spec fn to_unsigned(i: int) -> nat {
    if i >= 0 {
        i as nat
    } else {
        (i + pow2(256)) as nat
    }
}

pub open spec fn iabs(a: int) -> nat {
    if a >= 0 {
        a as nat
    } else {
        (-a) as nat
    }
}

/// Division truncating toward zero, as signed hardware division rounds.
pub open spec fn trunc_div(a: int, b: int) -> int {
    if (a >= 0) == (b >= 0) {
        (iabs(a) / iabs(b)) as int
    } else {
        -((iabs(a) / iabs(b)) as int)
    }
}

/// Remainder of truncating division; its sign follows the dividend.
pub open spec fn trunc_rem(a: int, b: int) -> int {
    a - b * trunc_div(a, b)
}

pub open spec fn op_add(x: nat, y: nat) -> nat {
    (x + y) % pow2(256)
}

pub open spec fn op_mul(x: nat, y: nat) -> nat {
    (x * y) % pow2(256)
}

pub open spec fn op_sub(x: nat, y: nat) -> nat {
    (((x - y) % (pow2(256) as int)) as nat)
}

pub open spec fn op_div(x: nat, y: nat) -> nat {
    if y == 0 {
        0
    } else {
        x / y
    }
}

pub open spec fn op_mod(x: nat, y: nat) -> nat {
    if y == 0 {
        0
    } else {
        x % y
    }
}

/// Signed division truncating toward zero; dividing the minimum signed value
/// by -1 wraps back to the same bit pattern.
pub open spec fn op_sdiv(x: nat, y: nat) -> nat {
    if y == 0 {
        0
    } else {
        let q = trunc_div(as_signed(x), as_signed(y));
        if q == pow2(255) {
            pow2(255)
        } else {
            to_unsigned(q)
        }
    }
}

pub open spec fn op_smod(x: nat, y: nat) -> nat {
    if y == 0 {
        0
    } else {
        to_unsigned(trunc_rem(as_signed(x), as_signed(y)))
    }
}

/// Modular addition, exact over the unbounded sum.
pub open spec fn op_addmod(x: nat, y: nat, n: nat) -> nat {
    if n == 0 {
        0
    } else {
        (x + y) % n
    }
}

/// Modular multiplication, exact over the unbounded product.
pub open spec fn op_mulmod(x: nat, y: nat, n: nat) -> nat {
    if n == 0 {
        0
    } else {
        (x * y) % n
    }
}

/// Exponentiation with a full-width 256-bit exponent, modulo 2^256.
pub open spec fn op_exp(x: nat, y: nat) -> nat {
    ((pow(x as int, y) % (pow2(256) as int)) as nat)
}

/// Extend the sign bit of the low `b + 1` bytes across the whole word.
pub open spec fn op_signextend(b: nat, x: nat) -> nat {
    if b >= 31 {
        x
    } else {
        let k = ((b + 1) * 8) as nat;
        let low = x % pow2(k);
        if low >= pow2((k - 1) as nat) {
            ((low + pow2(256)) - pow2(k)) as nat
        } else {
            low
        }
    }
}

pub open spec fn op_lt(x: nat, y: nat) -> nat {
    if x < y {
        1
    } else {
        0
    }
}

pub open spec fn op_gt(x: nat, y: nat) -> nat {
    if x > y {
        1
    } else {
        0
    }
}

pub open spec fn op_slt(x: nat, y: nat) -> nat {
    if as_signed(x) < as_signed(y) {
        1
    } else {
        0
    }
}

pub open spec fn op_sgt(x: nat, y: nat) -> nat {
    if as_signed(x) > as_signed(y) {
        1
    } else {
        0
    }
}

pub open spec fn op_eq(x: nat, y: nat) -> nat {
    if x == y {
        1
    } else {
        0
    }
}

pub open spec fn op_iszero(x: nat) -> nat {
    if x == 0 {
        1
    } else {
        0
    }
}

/// Bytewise AND of the 32-byte big-endian forms of two word values.
pub open spec fn and_bytes(x: nat, y: nat) -> Seq<u8> {
    Seq::new(32, |i: int| byte_of(x, i) & byte_of(y, i))
}

pub open spec fn or_bytes(x: nat, y: nat) -> Seq<u8> {
    Seq::new(32, |i: int| byte_of(x, i) | byte_of(y, i))
}

pub open spec fn xor_bytes(x: nat, y: nat) -> Seq<u8> {
    Seq::new(32, |i: int| byte_of(x, i) ^ byte_of(y, i))
}

pub open spec fn not_bytes(x: nat) -> Seq<u8> {
    Seq::new(32, |i: int| !byte_of(x, i))
}

pub open spec fn op_and(x: nat, y: nat) -> nat {
    be_val(and_bytes(x, y))
}

pub open spec fn op_or(x: nat, y: nat) -> nat {
    be_val(or_bytes(x, y))
}

pub open spec fn op_xor(x: nat, y: nat) -> nat {
    be_val(xor_bytes(x, y))
}

pub open spec fn op_not(x: nat) -> nat {
    be_val(not_bytes(x))
}

/// Byte `i` of `x`, counted from the most significant byte; 0 once `i >= 32`.
pub open spec fn op_byte(i: nat, x: nat) -> nat {
    if i >= 32 {
        0
    } else {
        byte_of(x, i as int) as nat
    }
}

pub open spec fn op_shl(s: nat, x: nat) -> nat {
    if s >= 256 {
        0
    } else {
        (x * pow2(s)) % pow2(256)
    }
}

pub open spec fn op_shr(s: nat, x: nat) -> nat {
    if s >= 256 {
        0
    } else {
        x / pow2(s)
    }
}

/// Arithmetic right shift: floor division of the signed reading by 2^s,
/// saturating to 0 or to the all-ones pattern for shifts of 256 or more.
pub open spec fn op_sar(s: nat, x: nat) -> nat {
    if s >= 256 {
        if as_signed(x) < 0 {
            (pow2(256) - 1) as nat
        } else {
            0
        }
    } else {
        to_unsigned(as_signed(x) / (pow2(s) as int))
    }
}

pub proof fn lemma_pow256_pos(k: nat)
    ensures
        pow256(k) >= 1,
    decreases k,
{
    if k > 0 {
        lemma_pow256_pos((k - 1) as nat);
    }
}

pub proof fn lemma_pow256_adds(a: nat, b: nat)
    ensures
        pow256(a + b) == pow256(a) * pow256(b),
    decreases a,
{
    if a == 0 {
    } else {
        lemma_pow256_adds((a - 1) as nat, b);
        assert((a + b - 1) as nat == ((a - 1) as nat) + b);
        assert(pow256(a + b) == 256 * (pow256((a - 1) as nat) * pow256(b)));
        assert(256 * (pow256((a - 1) as nat) * pow256(b)) == (256 * pow256((a - 1) as nat))
            * pow256(b)) by (nonlinear_arith);
    }
}

pub proof fn lemma_pow256_pow2(k: nat)
    ensures
        pow256(k) == pow2(8 * k),
    decreases k,
{
    if k == 0 {
        lemma2_to64();
    } else {
        lemma_pow256_pow2((k - 1) as nat);
        lemma_pow2_adds(8, 8 * (k - 1) as nat);
        lemma2_to64();
        assert(8 * k == 8 + 8 * ((k - 1) as nat));
    }
}

pub proof fn lemma_be_val_bound(s: Seq<u8>)
    ensures
        be_val(s) < pow256(s.len()),
    decreases s.len(),
{
    if s.len() == 0 {
    } else {
        lemma_be_val_bound(s.drop_last());
        let p = pow256((s.len() - 1) as nat);
        assert(be_val(s.drop_last()) * 256 <= (p - 1) * 256) by (nonlinear_arith)
            requires
                be_val(s.drop_last()) <= p - 1,
        ;
        assert(pow256(s.len()) == 256 * p);
    }
}

/// Splitting a byte string at `m` splits its value by the weight of the tail.
pub proof fn lemma_be_val_split(s: Seq<u8>, m: int)
    requires
        0 <= m <= s.len(),
    ensures
        be_val(s) == be_val(s.take(m)) * pow256((s.len() - m) as nat) + be_val(s.skip(m)),
    decreases s.len(),
{
    if m == s.len() {
        assert(s.take(m) =~= s);
        assert(s.skip(m) =~= Seq::<u8>::empty());
        assert(be_val(s.take(m)) * 1 == be_val(s));
    } else {
        let dl = s.drop_last();
        lemma_be_val_split(dl, m);
        assert(dl.take(m) =~= s.take(m));
        assert(dl.skip(m) =~= s.skip(m).drop_last());
        assert(s.skip(m).last() == s.last());
        assert(s.skip(m).len() == s.len() - m);
        let a = be_val(s.take(m));
        let b = be_val(s.skip(m).drop_last());
        let p = pow256((s.len() - 1 - m) as nat);
        assert(be_val(dl) == a * p + b);
        assert(be_val(s) == be_val(dl) * 256 + (s.last() as nat));
        assert((a * p + b) * 256 == a * (256 * p) + b * 256) by (nonlinear_arith);
        assert(pow256((s.len() - m) as nat) == 256 * p);
        assert(be_val(s.skip(m)) == b * 256 + (s.skip(m).last() as nat));
        assert(be_val(s) == a * (256 * p) + (b * 256 + (s.last() as nat)));
        assert(a * pow256((s.len() - m) as nat) == a * (256 * p));
    }
}

/// The tail of a byte string is its value reduced by the tail's weight, and
/// the head is the quotient.
pub proof fn lemma_be_val_low(s: Seq<u8>, m: int)
    requires
        0 <= m <= s.len(),
    ensures
        be_val(s) % pow256((s.len() - m) as nat) == be_val(s.skip(m)),
        be_val(s) / pow256((s.len() - m) as nat) == be_val(s.take(m)),
{
    lemma_be_val_split(s, m);
    lemma_be_val_bound(s.skip(m));
    lemma_pow256_pos((s.len() - m) as nat);
    lemma_fundamental_div_mod_converse(
        be_val(s) as int,
        pow256((s.len() - m) as nat) as int,
        be_val(s.take(m)) as int,
        be_val(s.skip(m)) as int,
    );
}

/// Each byte of a string is the matching base-256 digit of its value.
pub proof fn lemma_be_val_index(s: Seq<u8>, j: int)
    requires
        0 <= j < s.len(),
    ensures
        s[j] == (be_val(s) / pow256((s.len() - 1 - j) as nat)) % 256,
{
    lemma_be_val_low(s, j + 1);
    let t = s.take(j + 1);
    assert(t.drop_last() =~= s.take(j));
    assert(t.last() == s[j]);
    assert(be_val(t) == be_val(s.take(j)) * 256 + s[j]);
    lemma_mod_multiples_vanish(be_val(s.take(j)) as int, s[j] as int, 256);
    lemma_small_mod(s[j] as nat, 256);
}

pub proof fn lemma_be_val_zero(s: Seq<u8>)
    ensures
        (be_val(s) == 0) <==> (forall|i: int| 0 <= i < s.len() ==> s[i] == 0),
    decreases s.len(),
{
    if s.len() == 0 {
    } else {
        lemma_be_val_zero(s.drop_last());
        assert(be_val(s) == be_val(s.drop_last()) * 256 + (s.last() as nat));
        if be_val(s) == 0 {
            assert(be_val(s.drop_last()) == 0);
            assert forall|i: int| 0 <= i < s.len() implies s[i] == 0 by {
                if i < s.len() - 1 {
                    assert(s.drop_last()[i] == 0);
                    assert(s[i] == s.drop_last()[i]);
                } else {
                    assert(s[i] == s.last());
                }
            }
        } else {
            if forall|i: int| 0 <= i < s.len() ==> s[i] == 0 {
                assert forall|i: int| 0 <= i < s.len() - 1 implies #[trigger] s.drop_last()[i]
                    == 0 by {
                    assert(s.drop_last()[i] == s[i]);
                    assert(s[i] == 0);
                }
                assert(be_val(s.drop_last()) == 0);
                assert(s[s.len() - 1] == 0);
                assert(s.last() == 0);
                assert(false);
            }
        }
    }
}

pub proof fn lemma_be_val_ones(s: Seq<u8>)
    requires
        forall|i: int| 0 <= i < s.len() ==> s[i] == 0xff,
    ensures
        be_val(s) == pow256(s.len()) - 1,
    decreases s.len(),
{
    if s.len() == 0 {
    } else {
        assert(forall|i: int| 0 <= i < s.len() - 1 ==> #[trigger] s.drop_last()[i] == 0xff);
        lemma_be_val_ones(s.drop_last());
        let p = pow256((s.len() - 1) as nat);
        assert(be_val(s) == (p - 1) * 256 + 0xff);
        assert((p - 1) * 256 == 256 * p - 256) by (nonlinear_arith);
        assert(pow256(s.len()) == 256 * p);
    }
}

/// Byte strings of one length with one value are the same string.
pub proof fn lemma_be_val_inj(s1: Seq<u8>, s2: Seq<u8>)
    requires
        s1.len() == s2.len(),
        be_val(s1) == be_val(s2),
    ensures
        s1 =~= s2,
    decreases s1.len(),
{
    if s1.len() == 0 {
    } else {
        let q1 = be_val(s1.drop_last());
        let q2 = be_val(s2.drop_last());
        lemma_fundamental_div_mod_converse(
            be_val(s1) as int,
            256,
            q1 as int,
            s1.last() as int,
        );
        lemma_fundamental_div_mod_converse(
            be_val(s2) as int,
            256,
            q2 as int,
            s2.last() as int,
        );
        lemma_be_val_inj(s1.drop_last(), s2.drop_last());
        assert(s1.last() == s2.last());
        assert forall|i: int| 0 <= i < s1.len() implies s1[i] == s2[i] by {
            if i < s1.len() - 1 {
                assert(s1.drop_last()[i] == s2.drop_last()[i]);
            }
        }
    }
}

/// Splits the head byte off the unread tail of a word value.
///
/// `x` has been read down to `e` (the value of its first `i` bytes) with `r`
/// the value of the rest. The result is byte `i` of `x` together with the
/// value of the bytes after it.
pub proof fn lemma_byte_decompose(x: nat, i: int, e: nat, r: nat) -> (pair: (nat, nat))
    requires
        0 <= i < 32,
        x == e * pow256((32 - i) as nat) + r,
        r < pow256((32 - i) as nat),
    ensures
        pair.0 == byte_of(x, i) as nat,
        pair.0 < 256,
        pair.1 < pow256((31 - i) as nat),
        r == pair.0 * pow256((31 - i) as nat) + pair.1,
{
    let p = pow256((31 - i) as nat);
    lemma_pow256_pos((31 - i) as nat);
    let c = r / p;
    let r2 = r % p;
    lemma_fundamental_div_mod(r as int, p as int);
    lemma_mod_bound(r as int, p as int);
    assert(pow256((32 - i) as nat) == 256 * p);
    assert(c < 256) by (nonlinear_arith)
        requires
            r == p * c + r2,
            0 <= r2 < p,
            r < 256 * p,
            p >= 1,
            c >= 0,
    ;
    assert(x == (e * 256 + c) * p + r2) by (nonlinear_arith)
        requires
            x == e * (256 * p) + r,
            r == p * c + r2,
    ;
    lemma_fundamental_div_mod_converse(x as int, p as int, (e * 256 + c) as int, r2 as int);
    lemma_mod_multiples_vanish(e as int, c as int, 256);
    lemma_small_mod(c, 256);
    assert(byte_of(x, i) as nat == (x / p) % 256);
    assert(r == c * p + r2) by (nonlinear_arith)
        requires
            r == p * c + r2,
    ;
    (c, r2)
}

/// Splits the top bit off the unread low bits of a byte.
///
/// `c_rem` is the value of a byte's unread low bits, `rb` holds them shifted
/// left by the `k` bits already read. The result is the next bit and the
/// value of the bits after it; `rb / 128` reads that bit off the top, and
/// `(rb % 128) * 2` realigns the rest.
pub proof fn lemma_bit_decompose(c_rem: nat, k: nat, rb: nat) -> (pair: (nat, nat))
    requires
        k < 8,
        c_rem < pow2((8 - k) as nat),
        rb == c_rem * pow2(k),
    ensures
        rb < 256,
        pair.0 == rb / 128,
        pair.0 < 2,
        pair.1 < pow2((7 - k) as nat),
        c_rem == pair.0 * pow2((7 - k) as nat) + pair.1,
        (rb % 128) * 2 == pair.1 * pow2((k + 1) as nat),
{
    let pd1 = pow2((7 - k) as nat);
    let pk = pow2(k);
    lemma_pow2_adds((7 - k) as nat, 1);
    lemma_pow2_adds((7 - k) as nat, k);
    lemma_pow2_adds((8 - k) as nat, k);
    lemma_pow2_adds(k, 1);
    lemma2_to64();
    assert(pow2((8 - k) as nat) == pd1 * 2);
    assert(pd1 * pk == 128);
    lemma_pow2_pos((7 - k) as nat);
    lemma_pow2_pos(k);
    let b = c_rem / pd1;
    let r2 = c_rem % pd1;
    lemma_fundamental_div_mod(c_rem as int, pd1 as int);
    lemma_mod_bound(c_rem as int, pd1 as int);
    assert(b < 2) by (nonlinear_arith)
        requires
            c_rem < 2 * pd1,
            pd1 >= 1,
            c_rem == pd1 * b + r2,
            0 <= r2 < pd1,
            b >= 0,
    ;
    assert(rb == b * 128 + r2 * pk) by (nonlinear_arith)
        requires
            rb == (pd1 * b + r2) * pk,
            pd1 * pk == 128,
    ;
    assert(r2 * pk < 128) by (nonlinear_arith)
        requires
            r2 < pd1,
            pd1 * pk == 128,
            pk >= 1,
            r2 >= 0,
    ;
    assert(rb < 256);
    lemma_fundamental_div_mod_converse(rb as int, 128, b as int, (r2 * pk) as int);
    assert((r2 * pk) * 2 == r2 * pow2((k + 1) as nat)) by (nonlinear_arith)
        requires
            pow2((k + 1) as nat) == pk * 2,
    ;
    assert(c_rem == b * pd1 + r2) by (nonlinear_arith)
        requires
            c_rem == pd1 * b + r2,
    ;
    (b, r2)
}

/// Every division-style opcode yields 0 on a zero divisor or modulus, for
/// every dividend: the explicit convention, never a trap.
pub proof fn lemma_zero_divisor_convention(x: nat, y: nat)
    ensures
        op_div(x, 0) == 0,
        op_mod(x, 0) == 0,
        op_sdiv(x, 0) == 0,
        op_smod(x, 0) == 0,
        op_addmod(x, y, 0) == 0,
        op_mulmod(x, y, 0) == 0,
{
}

/// Sign extension from the full word width changes nothing, for every word.
pub proof fn lemma_signextend_full_width(b: nat, x: nat)
    requires
        b >= 31,
    ensures
        op_signextend(b, x) == x,
{
}

} // verus!
