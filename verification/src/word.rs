//! 256-bit machine words, stored as 32 big-endian bytes.
//!
//! The view of a `Word` is its numeric value, a natural number below 2^256.
//! Bitwise and byte-indexed operations are implemented and verified here
//! directly over the bytes; the 256-bit arithmetic itself is delegated to the
//! `ethnum` crate through trusted wrappers whose contracts state the exact
//! numeric result.
use crate::ops::{
    and_bytes, as_signed, be_val, byte_of, lemma_be_val_bound, lemma_be_val_index,
    lemma_be_val_inj, lemma_be_val_low, lemma_be_val_ones, lemma_be_val_split,
    lemma_be_val_zero, lemma_pow256_adds, lemma_pow256_pos, lemma_pow256_pow2, not_bytes,
    op_add, op_and, op_byte, op_mul, op_not, op_or, op_sar, op_sdiv, op_shl, op_shr,
    op_signextend, op_smod, op_sub, op_xor, or_bytes, pow256, to_unsigned, xor_bytes,
};
use ethnum::{I256, U256};
use vstd::arithmetic::div_mod::*;
use vstd::arithmetic::power2::*;
use vstd::prelude::*;

verus! {

/// An unsigned 256-bit word: the unit of data on the operand stack.
pub struct Word {
    bytes: Vec<u8>,
}

impl View for Word {
    type V = nat;

    closed spec fn view(&self) -> nat {
        be_val(self.bytes@)
    }
}

impl Word {
    /// A word is well formed when it holds exactly 32 bytes.
    pub closed spec fn wf(&self) -> bool {
        self.bytes@.len() == 32
    }

    /// The word of a 64-bit value.
    pub fn from_u64(x: u64) -> (r: Word)
        ensures
            r.wf(),
            r@ == x as nat,
    {
        word_from_u64(x)
    }

    /// The big-endian bytes of the word; their value is the word's value.
    pub fn as_bytes(&self) -> (r: &Vec<u8>)
        ensures
            be_val(r@) == self@,
            self.wf() ==> r@.len() == 32,
    {
        &self.bytes
    }
}

/// A well-formed word's value lies below 2^256.
pub proof fn lemma_word_val_bound(w: &Word)
    requires
        w.wf(),
    ensures
        w@ < pow2(256),
{
    lemma_be_val_bound(w.bytes@);
    lemma_pow256_pow2(32);
}

/// A value below 256 sits entirely in the last byte.
proof fn lemma_low_byte(s: Seq<u8>)
    requires
        s.len() == 32,
        be_val(s) < 256,
    ensures
        s[31] == be_val(s),
{
    lemma_be_val_index(s, 31);
    assert(pow256(0) == 1);
    assert(be_val(s) / 1 == be_val(s));
    lemma_small_mod(be_val(s), 256);
}

/// The top bit of the leading byte decides whether the whole value reaches
/// half of its range.
proof fn lemma_top_bit(s: Seq<u8>)
    requires
        s.len() >= 1,
    ensures
        (s[0] >= 128) <==> (be_val(s) >= 128 * pow256((s.len() - 1) as nat)),
{
    lemma_be_val_split(s, 1);
    let t1 = s.take(1);
    assert(t1.len() == 1);
    assert(t1.drop_last() =~= Seq::<u8>::empty());
    assert(t1.last() == s[0]);
    assert(be_val(t1.drop_last()) == 0);
    assert(be_val(t1) == be_val(t1.drop_last()) * 256 + (t1.last() as nat));
    assert(be_val(t1) == s[0]);
    lemma_be_val_bound(s.skip(1));
    let p = pow256((s.len() - 1) as nat);
    lemma_pow256_pos((s.len() - 1) as nat);
    assert(s.skip(1).len() == s.len() - 1);
    if s[0] >= 128 {
        assert(s[0] * p >= 128 * p) by (nonlinear_arith)
            requires
                s[0] >= 128,
                p >= 0,
        ;
    } else {
        assert(s[0] * p + (p - 1) < 128 * p) by (nonlinear_arith)
            requires
                s[0] <= 127,
                p >= 1,
        ;
        assert(be_val(s) <= s[0] * p + (p - 1));
    }
}

/// The sign bit of a 32-byte word is the top bit of its first byte.
proof fn lemma_sign_bit(s: Seq<u8>)
    requires
        s.len() == 32,
    ensures
        (s[0] >= 128) <==> (be_val(s) >= pow2(255)),
{
    lemma_top_bit(s);
    lemma_pow256_pow2(31);
    lemma_pow2_adds(7, 248);
    lemma2_to64();
}

/// Relies on ethnum::U256::new and U256::to_be_bytes: a word whose value is
/// the given 64-bit integer, in big-endian bytes.
#[verifier::external_body]
pub(crate) fn word_from_u64(x: u64) -> (r: Word)
    ensures
        r.wf(),
        r@ == x as nat,
{
    Word { bytes: U256::new(x as u128).to_be_bytes().to_vec() }
}

/// Relies on ethnum::U256::wrapping_add: addition modulo 2^256.
#[verifier::external_body]
pub(crate) fn u256_add(a: &Word, b: &Word) -> (r: Word)
    requires
        a.wf(),
        b.wf(),
    ensures
        r.wf(),
        r@ == op_add(a@, b@),
{
    let x = U256::from_be_bytes(a.bytes.as_slice().try_into().unwrap());
    let y = U256::from_be_bytes(b.bytes.as_slice().try_into().unwrap());
    Word { bytes: x.wrapping_add(y).to_be_bytes().to_vec() }
}

/// Relies on ethnum::U256::wrapping_sub: subtraction modulo 2^256.
#[verifier::external_body]
pub(crate) fn u256_sub(a: &Word, b: &Word) -> (r: Word)
    requires
        a.wf(),
        b.wf(),
    ensures
        r.wf(),
        r@ == op_sub(a@, b@),
{
    let x = U256::from_be_bytes(a.bytes.as_slice().try_into().unwrap());
    let y = U256::from_be_bytes(b.bytes.as_slice().try_into().unwrap());
    Word { bytes: x.wrapping_sub(y).to_be_bytes().to_vec() }
}

/// Relies on ethnum::U256::wrapping_mul: multiplication modulo 2^256.
#[verifier::external_body]
pub(crate) fn u256_mul(a: &Word, b: &Word) -> (r: Word)
    requires
        a.wf(),
        b.wf(),
    ensures
        r.wf(),
        r@ == op_mul(a@, b@),
{
    let x = U256::from_be_bytes(a.bytes.as_slice().try_into().unwrap());
    let y = U256::from_be_bytes(b.bytes.as_slice().try_into().unwrap());
    Word { bytes: x.wrapping_mul(y).to_be_bytes().to_vec() }
}

/// Relies on ethnum::U256::wrapping_div: unsigned floor division; the divisor
/// must be nonzero, else the callee would panic.
#[verifier::external_body]
pub(crate) fn u256_div(a: &Word, b: &Word) -> (r: Word)
    requires
        a.wf(),
        b.wf(),
        b@ != 0,
    ensures
        r.wf(),
        r@ == a@ / b@,
{
    let x = U256::from_be_bytes(a.bytes.as_slice().try_into().unwrap());
    let y = U256::from_be_bytes(b.bytes.as_slice().try_into().unwrap());
    Word { bytes: x.wrapping_div(y).to_be_bytes().to_vec() }
}

/// Relies on ethnum::U256::wrapping_rem: unsigned remainder; the divisor must
/// be nonzero, else the callee would panic.
#[verifier::external_body]
pub(crate) fn u256_rem(a: &Word, b: &Word) -> (r: Word)
    requires
        a.wf(),
        b.wf(),
        b@ != 0,
    ensures
        r.wf(),
        r@ == a@ % b@,
{
    let x = U256::from_be_bytes(a.bytes.as_slice().try_into().unwrap());
    let y = U256::from_be_bytes(b.bytes.as_slice().try_into().unwrap());
    Word { bytes: x.wrapping_rem(y).to_be_bytes().to_vec() }
}

/// Relies on ethnum::I256::wrapping_div: signed division truncating toward
/// zero, with MIN / -1 wrapping back to MIN; panics on a zero divisor, so the
/// divisor must be nonzero.
#[verifier::external_body]
pub(crate) fn i256_div(a: &Word, b: &Word) -> (r: Word)
    requires
        a.wf(),
        b.wf(),
        b@ != 0,
    ensures
        r.wf(),
        r@ == op_sdiv(a@, b@),
{
    let x = U256::from_be_bytes(a.bytes.as_slice().try_into().unwrap()).as_i256();
    let y = U256::from_be_bytes(b.bytes.as_slice().try_into().unwrap()).as_i256();
    Word { bytes: x.wrapping_div(y).as_u256().to_be_bytes().to_vec() }
}

/// Relies on ethnum::I256::wrapping_rem: the remainder of signed truncating
/// division, its sign following the dividend, with MIN % -1 giving 0; panics
/// on a zero divisor, so the divisor must be nonzero.
#[verifier::external_body]
pub(crate) fn i256_rem(a: &Word, b: &Word) -> (r: Word)
    requires
        a.wf(),
        b.wf(),
        b@ != 0,
    ensures
        r.wf(),
        r@ == op_smod(a@, b@),
{
    let x = U256::from_be_bytes(a.bytes.as_slice().try_into().unwrap()).as_i256();
    let y = U256::from_be_bytes(b.bytes.as_slice().try_into().unwrap()).as_i256();
    Word { bytes: x.wrapping_rem(y).as_u256().to_be_bytes().to_vec() }
}

/// Relies on ethnum::U256::overflowing_add: the wrapped sum together with a
/// flag telling whether the true sum overflowed 2^256.
#[verifier::external_body]
pub(crate) fn u256_overflowing_add(a: &Word, b: &Word) -> (r: (Word, bool))
    requires
        a.wf(),
        b.wf(),
    ensures
        r.0.wf(),
        r.0@ + (if r.1 {
            pow2(256)
        } else {
            0
        }) == a@ + b@,
{
    let x = U256::from_be_bytes(a.bytes.as_slice().try_into().unwrap());
    let y = U256::from_be_bytes(b.bytes.as_slice().try_into().unwrap());
    let (s, carry) = x.overflowing_add(y);
    (Word { bytes: s.to_be_bytes().to_vec() }, carry)
}

/// Relies on ethnum::U256's ordering: unsigned comparison of the values.
#[verifier::external_body]
pub(crate) fn u256_lt(a: &Word, b: &Word) -> (r: bool)
    requires
        a.wf(),
        b.wf(),
    ensures
        r == (a@ < b@),
{
    let x = U256::from_be_bytes(a.bytes.as_slice().try_into().unwrap());
    let y = U256::from_be_bytes(b.bytes.as_slice().try_into().unwrap());
    x < y
}

/// Relies on ethnum::I256's ordering: comparison of the two's-complement
/// readings of the values.
#[verifier::external_body]
pub(crate) fn i256_lt(a: &Word, b: &Word) -> (r: bool)
    requires
        a.wf(),
        b.wf(),
    ensures
        r == (as_signed(a@) < as_signed(b@)),
{
    let x = U256::from_be_bytes(a.bytes.as_slice().try_into().unwrap()).as_i256();
    let y = U256::from_be_bytes(b.bytes.as_slice().try_into().unwrap()).as_i256();
    x < y
}

/// Relies on ethnum::U256::wrapping_shl: for a shift below 256, a left shift
/// by `s` bits, which is multiplication by 2^s modulo 2^256.
#[verifier::external_body]
pub(crate) fn u256_shl(x: &Word, s: u32) -> (r: Word)
    requires
        x.wf(),
        s < 256,
    ensures
        r.wf(),
        r@ == (x@ * pow2(s as nat)) % pow2(256),
{
    let v = U256::from_be_bytes(x.bytes.as_slice().try_into().unwrap());
    Word { bytes: v.wrapping_shl(s).to_be_bytes().to_vec() }
}

/// Relies on ethnum::U256::wrapping_shr: for a shift below 256, a logical
/// right shift by `s` bits, which is floor division by 2^s.
#[verifier::external_body]
pub(crate) fn u256_shr(x: &Word, s: u32) -> (r: Word)
    requires
        x.wf(),
        s < 256,
    ensures
        r.wf(),
        r@ == x@ / pow2(s as nat),
{
    let v = U256::from_be_bytes(x.bytes.as_slice().try_into().unwrap());
    Word { bytes: v.wrapping_shr(s).to_be_bytes().to_vec() }
}

/// Relies on ethnum::I256::wrapping_shr: for a shift below 256, an arithmetic
/// right shift by `s` bits, which floors the signed value divided by 2^s.
#[verifier::external_body]
pub(crate) fn i256_shr(x: &Word, s: u32) -> (r: Word)
    requires
        x.wf(),
        s < 256,
    ensures
        r.wf(),
        r@ == to_unsigned(as_signed(x@) / (pow2(s as nat) as int)),
{
    let v = U256::from_be_bytes(x.bytes.as_slice().try_into().unwrap()).as_i256();
    Word { bytes: v.wrapping_shr(s).as_u256().to_be_bytes().to_vec() }
}

/// A fresh word with the same value.
pub(crate) fn dup(w: &Word) -> (r: Word)
    requires
        w.wf(),
    ensures
        r.wf(),
        r@ == w@,
{
    let mut out: Vec<u8> = Vec::new();
    let mut i: usize = 0;
    while i < 32
        invariant
            w.wf(),
            i <= 32,
            out@.len() == i as nat,
            forall|j: int| 0 <= j < i ==> out@[j] == w.bytes@[j],
        decreases 32 - i,
    {
        out.push(w.bytes[i]);
        i = i + 1;
    }
    proof {
        assert(out@ =~= w.bytes@);
    }
    Word { bytes: out }
}

/// The all-ones word, of value 2^256 - 1.
pub(crate) fn word_ones() -> (r: Word)
    ensures
        r.wf(),
        r@ == pow2(256) - 1,
{
    let mut out: Vec<u8> = Vec::new();
    let mut i: usize = 0;
    while i < 32
        invariant
            i <= 32,
            out@.len() == i as nat,
            forall|j: int| 0 <= j < i ==> out@[j] == 0xff,
        decreases 32 - i,
    {
        out.push(0xffu8);
        i = i + 1;
    }
    proof {
        lemma_be_val_ones(out@);
        lemma_pow256_pow2(32);
    }
    Word { bytes: out }
}

/// Whether two words hold one value.
pub(crate) fn eq_w(a: &Word, b: &Word) -> (r: bool)
    requires
        a.wf(),
        b.wf(),
    ensures
        r == (a@ == b@),
{
    let mut i: usize = 0;
    while i < 32
        invariant
            a.wf(),
            b.wf(),
            i <= 32,
            forall|j: int| 0 <= j < i ==> a.bytes@[j] == b.bytes@[j],
        decreases 32 - i,
    {
        if a.bytes[i] != b.bytes[i] {
            proof {
                if a@ == b@ {
                    lemma_be_val_inj(a.bytes@, b.bytes@);
                }
            }
            return false;
        }
        i = i + 1;
    }
    proof {
        assert(a.bytes@ =~= b.bytes@);
    }
    true
}

/// Whether a word's value is zero.
pub(crate) fn is_zero_w(a: &Word) -> (r: bool)
    requires
        a.wf(),
    ensures
        r == (a@ == 0),
{
    let mut i: usize = 0;
    while i < 32
        invariant
            a.wf(),
            i <= 32,
            forall|j: int| 0 <= j < i ==> a.bytes@[j] == 0,
        decreases 32 - i,
    {
        if a.bytes[i] != 0 {
            proof {
                lemma_be_val_zero(a.bytes@);
            }
            return false;
        }
        i = i + 1;
    }
    proof {
        lemma_be_val_zero(a.bytes@);
    }
    true
}

/// Byte `i` of the word, counted from the most significant end.
pub(crate) fn byte_at(w: &Word, i: usize) -> (r: u8)
    requires
        w.wf(),
        i < 32,
    ensures
        r == byte_of(w@, i as int),
{
    proof {
        lemma_be_val_index(w.bytes@, i as int);
    }
    w.bytes[i]
}

/// Bytewise AND of two words.
pub(crate) fn and_w(a: &Word, b: &Word) -> (r: Word)
    requires
        a.wf(),
        b.wf(),
    ensures
        r.wf(),
        r@ == op_and(a@, b@),
{
    let mut out: Vec<u8> = Vec::new();
    let mut i: usize = 0;
    while i < 32
        invariant
            a.wf(),
            b.wf(),
            i <= 32,
            out@.len() == i as nat,
            forall|j: int| 0 <= j < i ==> out@[j] == (a.bytes@[j] & b.bytes@[j]),
        decreases 32 - i,
    {
        let v: u8 = a.bytes[i] & b.bytes[i];
        out.push(v);
        i = i + 1;
    }
    proof {
        assert forall|j: int| 0 <= j < 32 implies out@[j] == and_bytes(a@, b@)[j] by {
            lemma_be_val_index(a.bytes@, j);
            lemma_be_val_index(b.bytes@, j);
        }
        assert(out@ =~= and_bytes(a@, b@));
    }
    Word { bytes: out }
}

/// Bytewise OR of two words.
pub(crate) fn or_w(a: &Word, b: &Word) -> (r: Word)
    requires
        a.wf(),
        b.wf(),
    ensures
        r.wf(),
        r@ == op_or(a@, b@),
{
    let mut out: Vec<u8> = Vec::new();
    let mut i: usize = 0;
    while i < 32
        invariant
            a.wf(),
            b.wf(),
            i <= 32,
            out@.len() == i as nat,
            forall|j: int| 0 <= j < i ==> out@[j] == (a.bytes@[j] | b.bytes@[j]),
        decreases 32 - i,
    {
        let v: u8 = a.bytes[i] | b.bytes[i];
        out.push(v);
        i = i + 1;
    }
    proof {
        assert forall|j: int| 0 <= j < 32 implies out@[j] == or_bytes(a@, b@)[j] by {
            lemma_be_val_index(a.bytes@, j);
            lemma_be_val_index(b.bytes@, j);
        }
        assert(out@ =~= or_bytes(a@, b@));
    }
    Word { bytes: out }
}

/// Bytewise XOR of two words.
pub(crate) fn xor_w(a: &Word, b: &Word) -> (r: Word)
    requires
        a.wf(),
        b.wf(),
    ensures
        r.wf(),
        r@ == op_xor(a@, b@),
{
    let mut out: Vec<u8> = Vec::new();
    let mut i: usize = 0;
    while i < 32
        invariant
            a.wf(),
            b.wf(),
            i <= 32,
            out@.len() == i as nat,
            forall|j: int| 0 <= j < i ==> out@[j] == (a.bytes@[j] ^ b.bytes@[j]),
        decreases 32 - i,
    {
        let v: u8 = a.bytes[i] ^ b.bytes[i];
        out.push(v);
        i = i + 1;
    }
    proof {
        assert forall|j: int| 0 <= j < 32 implies out@[j] == xor_bytes(a@, b@)[j] by {
            lemma_be_val_index(a.bytes@, j);
            lemma_be_val_index(b.bytes@, j);
        }
        assert(out@ =~= xor_bytes(a@, b@));
    }
    Word { bytes: out }
}

/// Bytewise complement of a word.
pub(crate) fn not_w(a: &Word) -> (r: Word)
    requires
        a.wf(),
    ensures
        r.wf(),
        r@ == op_not(a@),
{
    let mut out: Vec<u8> = Vec::new();
    let mut i: usize = 0;
    while i < 32
        invariant
            a.wf(),
            i <= 32,
            out@.len() == i as nat,
            forall|j: int| 0 <= j < i ==> out@[j] == !a.bytes@[j],
        decreases 32 - i,
    {
        let v: u8 = !a.bytes[i];
        out.push(v);
        i = i + 1;
    }
    proof {
        assert forall|j: int| 0 <= j < 32 implies out@[j] == not_bytes(a@)[j] by {
            lemma_be_val_index(a.bytes@, j);
        }
        assert(out@ =~= not_bytes(a@));
    }
    Word { bytes: out }
}

/// The word selected by the BYTE opcode: byte `i@` of `x`, or zero when the
/// index runs past the word.
pub(crate) fn byte_w(i: &Word, x: &Word) -> (r: Word)
    requires
        i.wf(),
        x.wf(),
    ensures
        r.wf(),
        r@ == op_byte(i@, x@),
{
    let w32 = word_from_u64(32);
    if u256_lt(i, &w32) {
        proof {
            lemma_low_byte(i.bytes@);
        }
        let idx = i.bytes[31] as usize;
        proof {
            lemma_be_val_index(x.bytes@, idx as int);
        }
        word_from_u64(x.bytes[idx] as u64)
    } else {
        word_from_u64(0)
    }
}

/// A word built from `n` big-endian bytes of `code`, zero-extended on the
/// left to the full width.
pub(crate) fn from_be_slice(code: &Vec<u8>, start: usize, n: usize) -> (r: Word)
    requires
        1 <= n <= 32,
        start + n <= code@.len(),
    ensures
        r.wf(),
        r@ == be_val(code@.subrange(start as int, (start + n) as int)),
{
    let pad = 32 - n;
    let mut out: Vec<u8> = Vec::new();
    let mut i: usize = 0;
    while i < pad
        invariant
            i <= pad,
            pad == 32 - n,
            1 <= n <= 32,
            out@.len() == i as nat,
            forall|j: int| 0 <= j < i ==> out@[j] == 0,
        decreases pad - i,
    {
        out.push(0u8);
        i = i + 1;
    }
    let cl = code.len();
    let mut k: usize = 0;
    while k < n
        invariant
            k <= n,
            pad == 32 - n,
            1 <= n <= 32,
            start + n <= cl,
            cl == code@.len(),
            out@.len() == pad + k,
            forall|j: int| 0 <= j < pad ==> out@[j] == 0,
            forall|j: int| 0 <= j < k ==> #[trigger] out@[pad + j] == code@[start + j],
        decreases n - k,
    {
        out.push(code[start + k]);
        k = k + 1;
    }
    proof {
        let t = out@;
        lemma_be_val_split(t, pad as int);
        lemma_be_val_zero(t.take(pad as int));
        assert(be_val(t.take(pad as int)) == 0);
        let sub = code@.subrange(start as int, (start + n) as int);
        assert forall|j: int| 0 <= j < n implies t.skip(pad as int)[j] == sub[j] by {
            assert(out@[pad + j] == code@[start + j]);
        }
        assert(t.skip(pad as int) =~= sub);
        assert(be_val(t) == 0 * pow256(n as nat) + be_val(t.skip(pad as int)));
    }
    Word { bytes: out }
}

/// Sign extension: keep the low `b@ + 1` bytes of `x` and spread that
/// field's sign bit across the rest of the word.
pub(crate) fn signextend_w(b: &Word, x: &Word) -> (r: Word)
    requires
        b.wf(),
        x.wf(),
    ensures
        r.wf(),
        r@ == op_signextend(b@, x@),
{
    let w31 = word_from_u64(31);
    if !u256_lt(b, &w31) {
        return dup(x);
    }
    proof {
        lemma_low_byte(b.bytes@);
    }
    let bn = b.bytes[31] as usize;
    let keep = bn + 1;
    let cut = 32 - keep;
    let neg = x.bytes[cut] >= 128;
    let fill: u8 = if neg {
        0xff
    } else {
        0x00
    };
    let mut out: Vec<u8> = Vec::new();
    let mut i: usize = 0;
    while i < cut
        invariant
            i <= cut,
            out@.len() == i as nat,
            forall|j: int| 0 <= j < i ==> out@[j] == fill,
        decreases cut - i,
    {
        out.push(fill);
        i = i + 1;
    }
    let mut k: usize = cut;
    while k < 32
        invariant
            x.wf(),
            cut <= k <= 32,
            cut == 32 - keep,
            out@.len() == k as nat,
            forall|j: int| 0 <= j < cut ==> out@[j] == fill,
            forall|j: int| cut <= j < k ==> out@[j] == x.bytes@[j],
        decreases 32 - k,
    {
        out.push(x.bytes[k]);
        k = k + 1;
    }
    proof {
        let s = x.bytes@;
        let t = out@;
        let k8 = (keep * 8) as nat;
        lemma_be_val_low(s, cut as int);
        let low = be_val(s.skip(cut as int));
        lemma_pow256_pow2(keep as nat);
        assert(low == x@ % pow2(k8));
        lemma_top_bit(s.skip(cut as int));
        assert(s.skip(cut as int)[0] == s[cut as int]);
        lemma_pow256_pow2((keep - 1) as nat);
        lemma_pow2_adds(7, (8 * (keep - 1)) as nat);
        lemma2_to64();
        assert(128 * pow256((keep - 1) as nat) == pow2((k8 - 1) as nat));
        assert(neg <==> (low >= pow2((k8 - 1) as nat)));
        lemma_be_val_split(t, cut as int);
        assert(t.skip(cut as int) =~= s.skip(cut as int));
        if neg {
            assert(forall|j: int| 0 <= j < cut ==> t.take(cut as int)[j] == 0xff);
            lemma_be_val_ones(t.take(cut as int));
            lemma_pow256_adds(cut as nat, keep as nat);
            assert((pow256(cut as nat) - 1) * pow256(keep as nat) == pow256(cut as nat)
                * pow256(keep as nat) - pow256(keep as nat)) by (nonlinear_arith);
            lemma_pow256_pow2(32);
            assert(be_val(t) == (pow2(256) - pow2(k8)) + low);
        } else {
            assert(forall|j: int| 0 <= j < cut ==> t.take(cut as int)[j] == 0);
            lemma_be_val_zero(t.take(cut as int));
            assert(be_val(t) == 0 * pow256(keep as nat) + low);
        }
    }
    Word { bytes: out }
}

/// Left shift of `x@` by `s@` bits; zero once the shift reaches 256.
pub(crate) fn shl_w(s: &Word, x: &Word) -> (r: Word)
    requires
        s.wf(),
        x.wf(),
    ensures
        r.wf(),
        r@ == op_shl(s@, x@),
{
    let w256 = word_from_u64(256);
    if u256_lt(s, &w256) {
        proof {
            lemma_low_byte(s.bytes@);
        }
        let amt = s.bytes[31] as u32;
        u256_shl(x, amt)
    } else {
        word_from_u64(0)
    }
}

/// Logical right shift of `x@` by `s@` bits; zero once the shift reaches 256.
pub(crate) fn shr_w(s: &Word, x: &Word) -> (r: Word)
    requires
        s.wf(),
        x.wf(),
    ensures
        r.wf(),
        r@ == op_shr(s@, x@),
{
    let w256 = word_from_u64(256);
    if u256_lt(s, &w256) {
        proof {
            lemma_low_byte(s.bytes@);
        }
        let amt = s.bytes[31] as u32;
        u256_shr(x, amt)
    } else {
        word_from_u64(0)
    }
}

/// Arithmetic right shift of `x@` by `s@` bits; all zeros or all ones,
/// by sign, once the shift reaches 256.
pub(crate) fn sar_w(s: &Word, x: &Word) -> (r: Word)
    requires
        s.wf(),
        x.wf(),
    ensures
        r.wf(),
        r@ == op_sar(s@, x@),
{
    let w256 = word_from_u64(256);
    if u256_lt(s, &w256) {
        proof {
            lemma_low_byte(s.bytes@);
        }
        let amt = s.bytes[31] as u32;
        i256_shr(x, amt)
    } else {
        let neg = x.bytes[0] >= 128;
        proof {
            lemma_sign_bit(x.bytes@);
            lemma_word_val_bound(x);
        }
        if neg {
            word_ones()
        } else {
            word_from_u64(0)
        }
    }
}

} // verus!
