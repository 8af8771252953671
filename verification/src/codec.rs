//! Hex program text: decoding to bytes and encoding back.
//!
//! A program text is an even number of hexadecimal digits, optionally after
//! a `0x` marker; each digit pair is one byte, most significant nibble
//! first. Encoding produces lowercase digits.
use vstd::prelude::*;
use vstd::string::StringSliceAdditionalSpecFns;

verus! {

/// The text with a leading `0x` marker, if any, stripped.
pub open spec fn strip_marker(t: Seq<u8>) -> Seq<u8> {
    if t.len() >= 2 && t[0] == 0x30u8 && t[1] == 0x78u8 {
        t.skip(2)
    } else {
        t
    }
}

pub open spec fn is_hex_digit(b: u8) -> bool {
    (0x30 <= b && b <= 0x39) || (0x41 <= b && b <= 0x46) || (0x61 <= b && b <= 0x66)
}

pub open spec fn is_lower_hex_digit(b: u8) -> bool {
    (0x30 <= b && b <= 0x39) || (0x61 <= b && b <= 0x66)
}

pub open spec fn hex_val(b: u8) -> nat {
    if 0x30 <= b && b <= 0x39 {
        (b - 0x30) as nat
    } else if 0x41 <= b && b <= 0x46 {
        (b - 0x37) as nat
    } else if 0x61 <= b && b <= 0x66 {
        (b - 0x57) as nat
    } else {
        0
    }
}

/// A decodable digit string: whole bytes only, every position a hex digit.
pub open spec fn valid_hex(t: Seq<u8>) -> bool {
    t.len() % 2 == 0 && (forall|i: int| 0 <= i < t.len() ==> is_hex_digit(#[trigger] t[i]))
}

pub open spec fn hex_decode(t: Seq<u8>) -> Seq<u8> {
    Seq::new(t.len() / 2, |i: int| (hex_val(t[2 * i]) * 16 + hex_val(t[2 * i + 1])) as u8)
}

/// The lowercase digit for a nibble.
pub open spec fn hex_digit_of(n: nat) -> u8 {
    if n < 10 {
        (0x30 + n) as u8
    } else {
        (0x57 + n) as u8
    }
}

pub open spec fn hex_encode(bs: Seq<u8>) -> Seq<u8> {
    Seq::new(
        2 * bs.len(),
        |i: int|
            if i % 2 == 0 {
                hex_digit_of((bs[i / 2] / 16) as nat)
            } else {
                hex_digit_of((bs[i / 2] % 16) as nat)
            },
    )
}

/// The value of one digit byte, or nothing where the byte is no digit.
fn hex_digit_value(b: u8) -> (r: Option<u8>)
    ensures
        match r {
            Some(v) => is_hex_digit(b) && v == hex_val(b),
            None => !is_hex_digit(b),
        },
{
    if 0x30 <= b && b <= 0x39 {
        Some(b - 0x30)
    } else if 0x41 <= b && b <= 0x46 {
        Some(b - 0x37)
    } else if 0x61 <= b && b <= 0x66 {
        Some(b - 0x57)
    } else {
        None
    }
}

/// Decode hex program text to bytes; `None` exactly on malformed text.
pub fn decode_hex(s: &str) -> (r: Option<Vec<u8>>)
    ensures
        match r {
            Some(bs) => valid_hex(strip_marker(s.spec_bytes())) && bs@ == hex_decode(
                strip_marker(s.spec_bytes()),
            ),
            None => !valid_hex(strip_marker(s.spec_bytes())),
        },
{
    let bytes: &[u8] = s.as_bytes();
    let n: usize = bytes.len();
    let off: usize = if n >= 2 && bytes[0] == 0x30 && bytes[1] == 0x78 {
        2
    } else {
        0
    };
    let ghost t = strip_marker(s.spec_bytes());
    proof {
        assert(t =~= bytes@.skip(off as int));
    }
    if (n - off) % 2 != 0 {
        return None;
    }
    let mut out: Vec<u8> = Vec::new();
    let mut i: usize = off;
    while i < n
        invariant
            n == bytes@.len(),
            off <= i <= n,
            (i - off) % 2 == 0,
            (n - off) % 2 == 0,
            t == strip_marker(s.spec_bytes()),
            t =~= bytes@.skip(off as int),
            out@.len() == (i - off) / 2,
            forall|j: int| 0 <= j < (i - off) ==> is_hex_digit(#[trigger] t[j]),
            forall|j: int|
                0 <= j < out@.len() ==> out@[j] == (hex_val(t[2 * j]) * 16 + hex_val(
                    t[2 * j + 1],
                )) as u8,
        decreases n - i,
    {
        let hi = match hex_digit_value(bytes[i]) {
            Some(v) => v,
            None => {
                proof {
                    assert(t[(i - off) as int] == bytes@[i as int]);
                }
                return None;
            },
        };
        let lo = match hex_digit_value(bytes[i + 1]) {
            Some(v) => v,
            None => {
                proof {
                    assert(t[(i + 1 - off) as int] == bytes@[i + 1 as int]);
                }
                return None;
            },
        };
        proof {
            assert(t[(i - off) as int] == bytes@[i as int]);
            assert(t[(i + 1 - off) as int] == bytes@[(i + 1) as int]);
            assert(hi < 16 && lo < 16);
        }
        out.push(hi * 16 + lo);
        i = i + 2;
    }
    proof {
        assert(out@ =~= hex_decode(t));
    }
    Some(out)
}

/// Encode bytes as lowercase hex digits, two per byte.
pub fn encode_hex(bs: &Vec<u8>) -> (r: Vec<u8>)
    ensures
        r@ == hex_encode(bs@),
{
    let mut out: Vec<u8> = Vec::new();
    let mut i: usize = 0;
    while i < bs.len()
        invariant
            i <= bs@.len(),
            out@.len() == 2 * i,
            forall|j: int| 0 <= j < out@.len() ==> out@[j] == hex_encode(bs@)[j],
        decreases bs@.len() - i,
    {
        let b = bs[i];
        let hi = b / 16;
        let lo = b % 16;
        let hc: u8 = if hi < 10 {
            0x30 + hi
        } else {
            0x57 + hi
        };
        let lc: u8 = if lo < 10 {
            0x30 + lo
        } else {
            0x57 + lo
        };
        out.push(hc);
        out.push(lc);
        i = i + 1;
    }
    proof {
        assert(out@ =~= hex_encode(bs@));
    }
    out
}

/// Law: decoding a whole-byte string of lowercase hex digits and encoding
/// the bytes again reproduces the digit string exactly.
pub proof fn lemma_hex_round_trip(t: Seq<u8>)
    requires
        t.len() % 2 == 0,
        forall|i: int| 0 <= i < t.len() ==> is_lower_hex_digit(#[trigger] t[i]),
    ensures
        hex_encode(hex_decode(t)) == t,
{
    let d = hex_decode(t);
    let e = hex_encode(d);
    assert(e.len() == t.len());
    assert forall|i: int| 0 <= i < t.len() implies e[i] == t[i] by {
        let j = i / 2;
        assert(d[j] == (hex_val(t[2 * j]) * 16 + hex_val(t[2 * j + 1])) as u8);
        assert(hex_val(t[2 * j]) < 16 && hex_val(t[2 * j + 1]) < 16);
        if i % 2 == 0 {
            assert(2 * j == i);
            assert(d[j] / 16 == hex_val(t[i]));
        } else {
            assert(2 * j + 1 == i);
            assert(d[j] % 16 == hex_val(t[i]));
        }
    }
    assert(e =~= t);
}

/// Law: encoding any byte string yields a whole-byte string of lowercase
/// hex digits, and decoding it returns the bytes unchanged.
pub proof fn lemma_hex_encode_decode(bs: Seq<u8>)
    ensures
        hex_encode(bs).len() % 2 == 0,
        forall|i: int|
            0 <= i < hex_encode(bs).len() ==> is_lower_hex_digit(#[trigger] hex_encode(bs)[i]),
        hex_decode(hex_encode(bs)) == bs,
{
    let e = hex_encode(bs);
    assert forall|i: int| 0 <= i < e.len() implies is_lower_hex_digit(#[trigger] e[i]) by {
        assert(bs[i / 2] / 16 < 16 && bs[i / 2] % 16 < 16);
    }
    let d = hex_decode(e);
    assert(d.len() == bs.len());
    assert forall|j: int| 0 <= j < bs.len() implies d[j] == bs[j] by {
        assert(e[2 * j] == hex_digit_of((bs[j] / 16) as nat));
        assert(e[2 * j + 1] == hex_digit_of((bs[j] % 16) as nat));
        assert(hex_val(e[2 * j]) == bs[j] / 16);
        assert(hex_val(e[2 * j + 1]) == bs[j] % 16);
    }
    assert(d =~= bs);
}

} // verus!
