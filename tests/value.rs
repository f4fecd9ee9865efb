use tile_merge::direction::Direction;
use tile_merge::tile::value::{Value, MAX_TILE_VALUE};

#[test]
fn value_test_tile_exponent_conversion() {
    let tile = Value::Number(512);
    assert_eq!(tile.to_exponent(), 9);
}

#[test]
fn value_test_tile_display() {
    let tile = Value::Number(2048);
    assert_eq!(tile.to_string(), "B");
}

#[test]
fn value_test_tile_from_str() {
    let tile: Value = "B".parse().unwrap();
    assert_eq!(tile, Value::Number(2048));
}

#[test]
fn empty_value_encodes_as_zero() {
    assert_eq!(Value::Empty.to_exponent(), 0);
    assert_eq!(Value::Empty.to_string(), "0");
    assert_eq!(Value::Number(2).to_string(), "1");
    assert_eq!(Value::Number(1024).to_string(), "A");
}

#[test]
fn every_digit_decodes_and_encodes_back() {
    let digits = "0123456789AB";
    for c in digits.chars() {
        let v = Value::from_char(c).unwrap();
        assert_eq!(v.to_char(), c);
    }
    assert_eq!(Value::from_char('3'), Some(Value::Number(8)));
    assert_eq!(Value::from_char('C'), None);
    assert_eq!(Value::from_char('a'), None);
}

#[test]
fn parsing_rejects_bad_text() {
    assert!("C".parse::<Value>().is_err());
    assert!("".parse::<Value>().is_err());
    assert!("12".parse::<Value>().is_err());
    assert_eq!("0".parse::<Value>(), Ok(Value::Empty));
}

#[test]
fn merge_adds_numbers_and_fills_empty() {
    assert_eq!(Value::Number(4).merge(Value::Number(4)), Value::Number(8));
    assert_eq!(Value::Empty.merge(Value::Number(16)), Value::Number(16));
    assert_eq!(Value::Number(32).merge(Value::Empty), Value::Number(32));
    assert_eq!(Value::Number(1024).merge(Value::Number(1024)), Value::Number(MAX_TILE_VALUE));
}

#[test]
fn exponent_counts_trailing_zero_bits() {
    assert_eq!(Value::Number(2).to_exponent(), 1);
    assert_eq!(Value::Number(2048).to_exponent(), 11);
    assert_eq!(Value::Number(12).to_exponent(), 2);
    assert_eq!(Value::Number(0).to_exponent(), 32);
}

#[test]
fn direction_letters() {
    assert_eq!(Direction::Left.to_string(), "L");
    assert_eq!(Direction::Right.to_string(), "R");
    assert_eq!(Direction::Up.to_string(), "U");
    assert_eq!(Direction::Down.to_string(), "D");
}

#[test]
fn text_value_shows_decimal_number() {
    assert_eq!(Value::Empty.text_value(), "");
    assert_eq!(Value::Number(2).text_value(), "2");
    assert_eq!(Value::Number(2048).text_value(), "2048");
    assert_eq!(Value::Number(128).text_value(), "128");
}
