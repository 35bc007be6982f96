use cboe_pitch_parser::base36::{decimal, encode, encode_padded};
use cboe_pitch_parser::{ExecutionId, OrderId, Price, Side, Timestamp, TradingStatus};

#[test]
fn order_id_renders_in_base36_without_padding() {
    assert_eq!(OrderId(1079067412513217551).to_base36(), "874XH1UZEHOV");
}

#[test]
fn execution_id_renders_in_base36_padded_to_nine() {
    assert_eq!(ExecutionId(91001734436).to_base36(), "015T02ZOK");
}

#[test]
fn zero_renders_as_single_digit() {
    assert_eq!(OrderId(0).to_base36(), "0");
    assert_eq!(encode(0), "0");
}

#[test]
fn execution_id_zero_is_nine_zeros() {
    assert_eq!(ExecutionId(0).to_base36(), "000000000");
}

#[test]
fn execution_id_longer_than_nine_is_not_cut() {
    assert_eq!(ExecutionId(u64::MAX).to_base36(), "3W5E11264SGSF");
    assert_eq!(ExecutionId(36u64.pow(9)).to_base36(), "1000000000");
    assert_eq!(ExecutionId(36u64.pow(9) - 1).to_base36(), "ZZZZZZZZZ");
}

#[test]
fn base36_digits_run_from_0_to_z() {
    assert_eq!(encode(9), "9");
    assert_eq!(encode(10), "A");
    assert_eq!(encode(35), "Z");
    assert_eq!(encode(36), "10");
    assert_eq!(encode(36 * 36 - 1), "ZZ");
    assert_eq!(encode(u64::MAX), "3W5E11264SGSF");
}

#[test]
fn base36_padding_fills_on_the_left() {
    assert_eq!(encode_padded(35, 3), "00Z");
    assert_eq!(encode_padded(35, 1), "Z");
    assert_eq!(encode_padded(35, 0), "Z");
}

#[test]
fn decimal_rendering() {
    assert_eq!(decimal(0), "0");
    assert_eq!(decimal(88), "88");
    assert_eq!(decimal(255), "255");
    assert_eq!(decimal(u64::MAX), "18446744073709551615");
}

#[test]
fn price_keeps_its_raw_value() {
    assert_eq!(Price::from_raw(100_100_000), Price(100_100_000));
    assert_eq!(Price::from_raw(0).0, 0);
}

#[test]
fn side_bytes() {
    assert_eq!(Side::from_byte(b'B'), Some(Side::Buy));
    assert_eq!(Side::from_byte(b'S'), Some(Side::Sell));
    assert_eq!(Side::from_byte(b'X'), None);
    assert_eq!(Side::from_byte(b'b'), None);
    assert_eq!(Side::Buy.to_byte(), b'B');
    assert_eq!(Side::Sell.to_byte(), b'S');
}

#[test]
fn trading_status_bytes() {
    let table = [
        (b'C', TradingStatus::Closed),
        (b'A', TradingStatus::PreMarket),
        (b'T', TradingStatus::Trading),
        (b'M', TradingStatus::MocTrading),
        (b'P', TradingStatus::PostMarket),
        (b'H', TradingStatus::Halted),
        (b'S', TradingStatus::TradingSuspended),
        (b'O', TradingStatus::PreOpen),
        (b'E', TradingStatus::PreClose),
    ];
    for (byte, status) in table {
        assert_eq!(TradingStatus::from_byte(byte), Some(status));
        assert_eq!(status.to_byte(), byte);
    }
}

#[test]
fn every_other_byte_is_no_trading_status() {
    let known = b"CATMPHSOE";
    for byte in 0..=255u8 {
        if !known.contains(&byte) {
            assert_eq!(TradingStatus::from_byte(byte), None);
        }
    }
}

#[test]
fn every_other_byte_is_no_side() {
    for byte in 0..=255u8 {
        if byte != b'B' && byte != b'S' {
            assert_eq!(Side::from_byte(byte), None);
        }
    }
}

#[test]
fn timestamp_splits_into_seconds_and_nanoseconds() {
    let t = Timestamp::from_nanos(1_700_000_000_123_456_789);
    assert_eq!(t.as_nanos(), 1_700_000_000_123_456_789);
    assert_eq!(t.seconds(), 1_700_000_000);
    assert_eq!(t.subsec_nanos(), 123_456_789);
    assert_eq!(Timestamp::from_parts(1_700_000_000, 123_456_789), Some(t));
}

#[test]
fn timestamp_parts_out_of_range() {
    assert_eq!(Timestamp::from_parts(0, 1_000_000_000), None);
    assert_eq!(Timestamp::from_parts(u64::MAX, 0), None);
    assert_eq!(Timestamp::from_parts(18_446_744_073, 709_551_616), None);
    assert_eq!(
        Timestamp::from_parts(18_446_744_073, 709_551_615),
        Some(Timestamp(u64::MAX))
    );
    assert_eq!(Timestamp::from_parts(0, 0), Some(Timestamp(0)));
}
