use evm_core::codec::{decode_hex, encode_hex};
use evm_core::evm::{EvmError, EVM};
use evm_core::opcode::Opcode;
use evm_core::word::Word;

fn run_ok(hex: &str) -> Vec<Vec<u8>> {
    let mut evm = EVM::new(hex).expect("program text must decode");
    evm.execute().expect("execution must halt");
    evm.get_stack().iter().map(|w| w.as_bytes().clone()).collect()
}

fn run_err(hex: &str) -> EvmError {
    let mut evm = EVM::new(hex).expect("program text must decode");
    evm.execute().expect_err("execution must fail")
}

fn w(x: u128) -> Vec<u8> {
    let mut v = vec![0u8; 16];
    v.extend_from_slice(&x.to_be_bytes());
    v
}

#[test]
fn round_trip_hex() {
    let text = "60ff601f1a";
    let bytes = decode_hex(text).unwrap();
    assert_eq!(bytes, vec![0x60, 0xff, 0x60, 0x1f, 0x1a]);
    let again = encode_hex(&bytes);
    assert_eq!(again, text.as_bytes().to_vec());
}

#[test]
fn round_trip_long_program() {
    let mut text = String::from("7f");
    for _ in 0..32 {
        text.push_str("a5");
    }
    text.push_str("600901");
    let bytes = decode_hex(&text).unwrap();
    assert_eq!(encode_hex(&bytes), text.as_bytes().to_vec());
}

#[test]
fn marker_prefix_is_stripped() {
    assert_eq!(decode_hex("0x6001").unwrap(), vec![0x60, 0x01]);
    assert_eq!(run_ok("0x6001"), vec![w(1)]);
}

#[test]
fn invalid_hex_digit_rejected() {
    let e = match EVM::new("0xg1") {
        Err(e) => e,
        Ok(_) => panic!("bad digit must be rejected"),
    };
    assert_eq!(e, EvmError::InvalidEncoding);
}

#[test]
fn odd_length_rejected() {
    let e = match EVM::new("abc") {
        Err(e) => e,
        Ok(_) => panic!("odd digit count must be rejected"),
    };
    assert_eq!(e, EvmError::InvalidEncoding);
}

#[test]
fn uppercase_hex_accepted() {
    assert_eq!(decode_hex("60FF").unwrap(), vec![0x60, 0xff]);
}

#[test]
fn empty_program_halts_with_empty_stack() {
    assert_eq!(run_ok(""), Vec::<Vec<u8>>::new());
    assert_eq!(run_ok("0x"), Vec::<Vec<u8>>::new());
}

#[test]
fn add_max_and_one_wraps_to_zero() {
    let mut text = String::from("7f");
    for _ in 0..32 {
        text.push_str("ff");
    }
    text.push_str("600101");
    assert_eq!(run_ok(&text), vec![w(0)]);
}

#[test]
fn mul_max_and_two_wraps() {
    let mut text = String::from("7f");
    for _ in 0..32 {
        text.push_str("ff");
    }
    text.push_str("600202");
    let mut expected = vec![0xffu8; 32];
    expected[31] = 0xfe;
    assert_eq!(run_ok(&text), vec![expected]);
}

#[test]
fn sub_is_wrapping_and_ordered() {
    // PUSH1 3, PUSH1 9, SUB: a = 9 popped first, so 9 - 3.
    assert_eq!(run_ok("6003600903"), vec![w(6)]);
    // PUSH1 9, PUSH1 3, SUB: 3 - 9 wraps.
    let mut expected = vec![0xffu8; 32];
    expected[31] = 0xfa;
    assert_eq!(run_ok("6009600303"), vec![expected]);
}

#[test]
fn div_unsigned() {
    assert_eq!(run_ok("6003600704"), vec![w(2)]);
}

#[test]
fn div_by_zero_yields_zero() {
    assert_eq!(run_ok("6000600504"), vec![w(0)]);
}

#[test]
fn mod_nonzero() {
    assert_eq!(run_ok("6003600706"), vec![w(1)]);
}

#[test]
fn addmod_small() {
    assert_eq!(run_ok("60076006600508"), vec![w(4)]);
}

#[test]
fn mulmod_small() {
    assert_eq!(run_ok("60056004600309"), vec![w(2)]);
}

#[test]
fn mod_by_zero_yields_zero() {
    assert_eq!(run_ok("6000600506"), vec![w(0)]);
}

#[test]
fn sdiv_by_zero_yields_zero() {
    assert_eq!(run_ok("6000600505"), vec![w(0)]);
}

#[test]
fn smod_by_zero_yields_zero() {
    assert_eq!(run_ok("6000600507"), vec![w(0)]);
}

#[test]
fn addmod_by_zero_yields_zero() {
    assert_eq!(run_ok("60006002600308"), vec![w(0)]);
}

#[test]
fn mulmod_by_zero_yields_zero() {
    assert_eq!(run_ok("60006002600309"), vec![w(0)]);
}

#[test]
fn sdiv_truncates_toward_zero() {
    // a = -8 (two's complement), b = 3: quotient -2.
    let mut text = String::from("60037f");
    for _ in 0..31 {
        text.push_str("ff");
    }
    text.push_str("f805");
    let mut expected = vec![0xffu8; 32];
    expected[31] = 0xfe;
    assert_eq!(run_ok(&text), vec![expected]);
}

#[test]
fn smod_sign_follows_dividend() {
    // a = -8, b = 3: remainder -2.
    let mut text = String::from("60037f");
    for _ in 0..31 {
        text.push_str("ff");
    }
    text.push_str("f807");
    let mut expected = vec![0xffu8; 32];
    expected[31] = 0xfe;
    assert_eq!(run_ok(&text), vec![expected]);
}

#[test]
fn sdiv_min_by_minus_one_wraps_to_min() {
    let mut text = String::from("7f");
    for _ in 0..32 {
        text.push_str("ff");
    }
    text.push_str("7f80");
    for _ in 0..31 {
        text.push_str("00");
    }
    text.push_str("05");
    let mut expected = vec![0u8; 32];
    expected[0] = 0x80;
    assert_eq!(run_ok(&text), vec![expected]);
}

#[test]
fn smod_min_by_minus_one_is_zero() {
    let mut text = String::from("7f");
    for _ in 0..32 {
        text.push_str("ff");
    }
    text.push_str("7f80");
    for _ in 0..31 {
        text.push_str("00");
    }
    text.push_str("07");
    assert_eq!(run_ok(&text), vec![w(0)]);
}

#[test]
fn addmod_is_exact_over_the_carry() {
    // a = b = 2^256 - 1, n = 7: the true sum mod 7 is 2; the wrapped sum
    // would give 0.
    let mut text = String::from("6007");
    for _ in 0..2 {
        text.push_str("7f");
        for _ in 0..32 {
            text.push_str("ff");
        }
    }
    text.push_str("08");
    assert_eq!(run_ok(&text), vec![w(2)]);
}

#[test]
fn mulmod_is_exact_over_the_double_width_product() {
    // a = 2^255, b = 4, n = 7: the true product 2^257 mod 7 is 4; the
    // wrapped product would give 0.
    let mut text = String::from("600760047f80");
    for _ in 0..31 {
        text.push_str("00");
    }
    text.push_str("09");
    assert_eq!(run_ok(&text), vec![w(4)]);
}

#[test]
fn exp_small() {
    // a = 2, b = 8: 256.
    assert_eq!(run_ok("600860020a"), vec![w(256)]);
}

#[test]
fn exp_zero_exponent_is_one() {
    assert_eq!(run_ok("600060050a"), vec![w(1)]);
    assert_eq!(run_ok("600060000a"), vec![w(1)]);
}

#[test]
fn exp_wraps_modulo_word_size() {
    // 2^256 wraps to 0: a = 2, b = 256 = 0x0100.
    assert_eq!(run_ok("61010060020a"), vec![w(0)]);
}

#[test]
fn exp_full_width_exponent() {
    // The exponent 2^255 does not fit a machine integer; 1 to it is 1.
    let mut text = String::from("7f80");
    for _ in 0..31 {
        text.push_str("00");
    }
    text.push_str("60010a");
    assert_eq!(run_ok(&text), vec![w(1)]);
}

#[test]
fn signextend_full_width_is_identity() {
    let mut text = String::from("7f");
    for i in 0..32 {
        text.push_str(&format!("{:02x}", 0xe0 + i));
    }
    text.push_str("601f0b");
    let expected: Vec<u8> = (0..32u8).map(|i| 0xe0 + i).collect();
    assert_eq!(run_ok(&text), vec![expected]);
}

#[test]
fn signextend_positive_byte() {
    assert_eq!(run_ok("607f60000b"), vec![w(0x7f)]);
}

#[test]
fn signextend_negative_byte() {
    let mut expected = vec![0xffu8; 32];
    expected[31] = 0x80;
    assert_eq!(run_ok("608060000b"), vec![expected]);
}

#[test]
fn scenario_push_push_add() {
    assert_eq!(run_ok("6009600a01"), vec![w(0x13)]);
}

#[test]
fn scenario_byte_of_word() {
    assert_eq!(run_ok("60ff601f1a"), vec![w(0xff)]);
}

#[test]
fn byte_index_past_word_is_zero() {
    assert_eq!(run_ok("60ff60201a"), vec![w(0)]);
}

#[test]
fn unknown_opcode_reports_byte_and_pc() {
    assert_eq!(run_err("20"), EvmError::UnknownOpcode { byte: 0x20, pc: 0 });
    assert_eq!(run_err("600020"), EvmError::UnknownOpcode { byte: 0x20, pc: 2 });
}

#[test]
fn bare_add_underflows() {
    assert_eq!(
        run_err("01"),
        EvmError::StackUnderflow { required: 2, available: 0, pc: 0 }
    );
}

#[test]
fn underflow_reports_depth_and_pc() {
    assert_eq!(
        run_err("600101"),
        EvmError::StackUnderflow { required: 2, available: 1, pc: 2 }
    );
    assert_eq!(
        run_err("600115600108"),
        EvmError::StackUnderflow { required: 3, available: 2, pc: 5 }
    );
    assert_eq!(
        run_err("15"),
        EvmError::StackUnderflow { required: 1, available: 0, pc: 0 }
    );
}

#[test]
fn truncated_immediates() {
    assert_eq!(
        run_err("60"),
        EvmError::TruncatedImmediate { opcode: Opcode::PUSH1, pc: 0 }
    );
    assert_eq!(
        run_err("6100"),
        EvmError::TruncatedImmediate { opcode: Opcode::PUSH2, pc: 0 }
    );
    assert_eq!(
        run_err("620000"),
        EvmError::TruncatedImmediate { opcode: Opcode::PUSH3, pc: 0 }
    );
    assert_eq!(
        run_err("7f00"),
        EvmError::TruncatedImmediate { opcode: Opcode::PUSH32, pc: 0 }
    );
}

#[test]
fn push_widths() {
    assert_eq!(run_ok("610102"), vec![w(0x0102)]);
    assert_eq!(run_ok("62010203"), vec![w(0x010203)]);
    let mut text = String::from("7f");
    for i in 1..33 {
        text.push_str(&format!("{:02x}", i));
    }
    let expected: Vec<u8> = (1..33u8).collect();
    assert_eq!(run_ok(&text), vec![expected]);
}

#[test]
fn stop_halts_early() {
    assert_eq!(run_ok("6001006002"), vec![w(1)]);
}

#[test]
fn lt_gt_unsigned() {
    // Stack (top first) after pushes: 1, 2; LT compares 1 < 2.
    assert_eq!(run_ok("6002600110"), vec![w(1)]);
    assert_eq!(run_ok("6001600210"), vec![w(0)]);
    assert_eq!(run_ok("6002600111"), vec![w(0)]);
    assert_eq!(run_ok("6001600211"), vec![w(1)]);
}

#[test]
fn slt_sgt_signed() {
    // a = -1 (all ones), b = 0: SLT gives 1, SGT gives 0.
    let mut minus_one = String::from("7f");
    for _ in 0..32 {
        minus_one.push_str("ff");
    }
    let slt = format!("6000{}12", minus_one);
    let sgt = format!("6000{}13", minus_one);
    assert_eq!(run_ok(&slt), vec![w(1)]);
    assert_eq!(run_ok(&sgt), vec![w(0)]);
}

#[test]
fn eq_and_iszero() {
    assert_eq!(run_ok("6005600514"), vec![w(1)]);
    assert_eq!(run_ok("6005600414"), vec![w(0)]);
    assert_eq!(run_ok("600015"), vec![w(1)]);
    assert_eq!(run_ok("600115"), vec![w(0)]);
}

#[test]
fn bitwise_ops() {
    assert_eq!(run_ok("600f600316"), vec![w(0x03)]);
    assert_eq!(run_ok("600f600317"), vec![w(0x0f)]);
    assert_eq!(run_ok("600f600318"), vec![w(0x0c)]);
    let mut expected = vec![0xffu8; 32];
    expected[31] = 0xfe;
    assert_eq!(run_ok("600119"), vec![expected]);
}

#[test]
fn shifts_logical() {
    // SHL: value 1 shifted by 4.
    assert_eq!(run_ok("600160041b"), vec![w(0x10)]);
    // SHR: value 0xf0 shifted by 4.
    assert_eq!(run_ok("60f060041c"), vec![w(0x0f)]);
    // Shifts of 256 or more give zero.
    assert_eq!(run_ok("60016101001b"), vec![w(0)]);
    assert_eq!(run_ok("60016101001c"), vec![w(0)]);
}

#[test]
fn shift_arithmetic_right() {
    // value = -16, shift = 2: -4.
    let mut text = String::from("7f");
    for _ in 0..31 {
        text.push_str("ff");
    }
    text.push_str("f060021d");
    let mut expected = vec![0xffu8; 32];
    expected[31] = 0xfc;
    assert_eq!(run_ok(&text), vec![expected]);
}

#[test]
fn shift_arithmetic_right_saturates() {
    // Negative value, shift 256: all ones.
    let mut text = String::from("7f");
    for _ in 0..32 {
        text.push_str("ff");
    }
    text.push_str("6101001d");
    assert_eq!(run_ok(&text), vec![vec![0xffu8; 32]]);
    // Positive value, shift 256: zero.
    assert_eq!(run_ok("60076101001d"), vec![w(0)]);
}

#[test]
fn stack_order_is_bottom_first() {
    let stack = run_ok("600160026003");
    assert_eq!(stack, vec![w(1), w(2), w(3)]);
}

#[test]
fn word_from_u64_round_trips_bytes() {
    let word = Word::from_u64(0x1234_5678_9abc_def0);
    let mut expected = vec![0u8; 24];
    expected.extend_from_slice(&0x1234_5678_9abc_def0u64.to_be_bytes());
    assert_eq!(word.as_bytes(), &expected);
}
