use dtk_pal::util::parsing::{parse_dec_or_hex, NumberError};

#[test]
fn decimal_numbers() {
    assert_eq!(parse_dec_or_hex("0"), Ok(0));
    assert_eq!(parse_dec_or_hex("42"), Ok(42));
    assert_eq!(parse_dec_or_hex("4294967295"), Ok(u32::MAX));
    assert_eq!(parse_dec_or_hex("+7"), Ok(7));
    assert_eq!(parse_dec_or_hex("007"), Ok(7));
}

#[test]
fn hexadecimal_numbers() {
    assert_eq!(parse_dec_or_hex("0x20"), Ok(32));
    assert_eq!(parse_dec_or_hex("0X20"), Ok(32));
    assert_eq!(parse_dec_or_hex("0xFfFf"), Ok(0xffff));
    assert_eq!(parse_dec_or_hex("0xffffffff"), Ok(u32::MAX));
    assert_eq!(parse_dec_or_hex("0x+a"), Ok(10));
}

#[test]
fn empty_text_is_empty_error() {
    assert_eq!(parse_dec_or_hex(""), Err(NumberError::Empty));
    assert_eq!(parse_dec_or_hex("0x"), Err(NumberError::Empty));
}

#[test]
fn stray_characters_are_invalid_digits() {
    assert_eq!(parse_dec_or_hex("12a"), Err(NumberError::InvalidDigit));
    assert_eq!(parse_dec_or_hex("-1"), Err(NumberError::InvalidDigit));
    assert_eq!(parse_dec_or_hex("+"), Err(NumberError::InvalidDigit));
    assert_eq!(parse_dec_or_hex("0xg"), Err(NumberError::InvalidDigit));
    assert_eq!(parse_dec_or_hex(" 1"), Err(NumberError::InvalidDigit));
    assert_eq!(parse_dec_or_hex("0x0x1"), Err(NumberError::InvalidDigit));
}

#[test]
fn values_above_u32_overflow() {
    assert_eq!(parse_dec_or_hex("4294967296"), Err(NumberError::PosOverflow));
    assert_eq!(parse_dec_or_hex("0x100000000"), Err(NumberError::PosOverflow));
    assert_eq!(parse_dec_or_hex("99999999999x"), Err(NumberError::PosOverflow));
}

#[test]
fn numbers_read_back_in_both_radixes() {
    for n in [0u32, 1, 9, 10, 255, 4096, 123456789, u32::MAX] {
        assert_eq!(parse_dec_or_hex(&n.to_string()), Ok(n));
        assert_eq!(parse_dec_or_hex(&format!("0x{n:x}")), Ok(n));
        assert_eq!(parse_dec_or_hex(&format!("0X{n:x}")), Ok(n));
    }
}

/// What std reads from the same text, in the same two radixes.
fn std_dec_or_hex(s: &str) -> Result<u32, NumberError> {
    let r = match s.strip_prefix("0x").or_else(|| s.strip_prefix("0X")) {
        Some(h) => u32::from_str_radix(h, 16),
        None => s.parse::<u32>(),
    };
    r.map_err(|e| match e.kind() {
        std::num::IntErrorKind::Empty => NumberError::Empty,
        std::num::IntErrorKind::PosOverflow => NumberError::PosOverflow,
        _ => NumberError::InvalidDigit,
    })
}

#[test]
fn numbers_agree_with_std_on_generated_text() {
    let pieces = [
        "0", "1", "9", "a", "f", "F", "x", "X", "+", "-", " ", "4294967295", "4294967296", "0x", "0X",
        "ffffffff", "z",
    ];
    let mut state: u64 = 3;
    let mut next = move || {
        state = state.wrapping_mul(6364136223846793005).wrapping_add(1442695040888963407);
        (state >> 33) as usize
    };
    for _ in 0..5000 {
        let n = next() % 5;
        let mut s = String::new();
        for _ in 0..n {
            s.push_str(pieces[next() % pieces.len()]);
        }
        assert_eq!(parse_dec_or_hex(&s), std_dec_or_hex(&s), "input {:?}", s);
    }
}

#[test]
fn upper_case_hex_reads_back() {
    for n in [0u32, 9, 10, 0xabcdef, 0x80003100, u32::MAX] {
        assert_eq!(parse_dec_or_hex(&format!("0X{:X}", n)), Ok(n));
        assert_eq!(parse_dec_or_hex(&format!("{:#X}", n)), Ok(n));
    }
}
