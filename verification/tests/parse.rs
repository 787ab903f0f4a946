use thermometer::parse::{find_field_end, parse_amount, parse_number, parse_rgba};

#[test]
fn amount_is_a_plain_number() {
    assert_eq!(parse_amount(String::from("10000")), Some(10000));
    assert_eq!(parse_amount(String::from("0")), Some(0));
    assert_eq!(parse_amount(String::from("0007")), Some(7));
}

#[test]
fn amount_may_follow_a_dollar_sign() {
    assert_eq!(parse_amount(String::from("$4500")), Some(4500));
    assert_eq!(parse_amount(String::from("$+5")), Some(5));
}

#[test]
fn amount_may_follow_a_plus_sign() {
    assert_eq!(parse_amount(String::from("+5")), Some(5));
}

#[test]
fn amount_must_fit_thirty_two_bits() {
    assert_eq!(parse_amount(String::from("4294967295")), Some(4294967295));
    assert_eq!(parse_amount(String::from("4294967296")), None);
    assert_eq!(parse_amount(String::from("99999999999999999999999")), None);
}

#[test]
fn amount_rejects_what_is_no_number() {
    assert_eq!(parse_amount(String::new()), None);
    assert_eq!(parse_amount(String::from("$")), None);
    assert_eq!(parse_amount(String::from("+")), None);
    assert_eq!(parse_amount(String::from("abc")), None);
    assert_eq!(parse_amount(String::from("-5")), None);
    assert_eq!(parse_amount(String::from("$$5")), None);
    assert_eq!(parse_amount(String::from("++5")), None);
    assert_eq!(parse_amount(String::from(" 5")), None);
    assert_eq!(parse_amount(String::from("5 ")), None);
    assert_eq!(parse_amount(String::from("4500$")), None);
    assert_eq!(parse_amount(String::from("12.5")), None);
    assert_eq!(parse_amount(String::from("€5")), None);
}

#[test]
fn amount_agrees_with_the_standard_parser() {
    for text in ["1", "+1", "-1", "", "+", "007", "4294967295", "4294967296", "1e3", "١٢"] {
        let expected: Option<u32> = text.parse().ok();
        assert_eq!(parse_amount(String::from(text)), expected);
    }
}

#[test]
fn colour_of_three_channels_is_opaque() {
    assert_eq!(parse_rgba(String::from("255,40,105")), Some([255, 40, 105, 255]));
}

#[test]
fn colour_of_four_channels() {
    assert_eq!(parse_rgba(String::from("200,0,0,100")), Some([200, 0, 0, 100]));
    assert_eq!(parse_rgba(String::from("0,0,0,0")), Some([0, 0, 0, 0]));
}

#[test]
fn colour_ignores_fields_after_the_fourth() {
    assert_eq!(parse_rgba(String::from("1,2,3,4,5")), Some([1, 2, 3, 4]));
    assert_eq!(parse_rgba(String::from("1,2,3,4,x")), Some([1, 2, 3, 4]));
    assert_eq!(parse_rgba(String::from("1,2,3,4,")), Some([1, 2, 3, 4]));
}

#[test]
fn colour_needs_three_channels() {
    assert_eq!(parse_rgba(String::new()), None);
    assert_eq!(parse_rgba(String::from("1")), None);
    assert_eq!(parse_rgba(String::from("1,2")), None);
    assert_eq!(parse_rgba(String::from("1,2,")), None);
}

#[test]
fn colour_rejects_bad_channels() {
    assert_eq!(parse_rgba(String::from("256,0,0")), None);
    assert_eq!(parse_rgba(String::from("0,256,0")), None);
    assert_eq!(parse_rgba(String::from("0,0,256")), None);
    assert_eq!(parse_rgba(String::from("0,0,0,256")), None);
    assert_eq!(parse_rgba(String::from("1,2,3,")), None);
    assert_eq!(parse_rgba(String::from("a,b,c")), None);
    assert_eq!(parse_rgba(String::from("1, 2, 3")), None);
    assert_eq!(parse_rgba(String::from(",2,3")), None);
    assert_eq!(parse_rgba(String::from("1,,3")), None);
    assert_eq!(parse_rgba(String::from("-1,2,3")), None);
}

#[test]
fn colour_channels_may_carry_a_plus_sign() {
    assert_eq!(parse_rgba(String::from("+1,+2,+3,+4")), Some([1, 2, 3, 4]));
}

#[test]
fn number_within_a_range_of_bytes() {
    let bytes = "ab123cd".as_bytes();
    assert_eq!(parse_number(bytes, 2, 5, 255), Some(123));
    assert_eq!(parse_number(bytes, 2, 5, 122), None);
    assert_eq!(parse_number(bytes, 2, 2, 255), None);
    assert_eq!(parse_number(bytes, 1, 5, 255), None);
    assert_eq!(parse_number(bytes, 2, 6, 255), None);
}

#[test]
fn field_ends_at_the_next_comma_or_at_the_end() {
    let bytes = "12,3,,45".as_bytes();
    assert_eq!(find_field_end(bytes, 0), 2);
    assert_eq!(find_field_end(bytes, 2), 2);
    assert_eq!(find_field_end(bytes, 3), 4);
    assert_eq!(find_field_end(bytes, 5), 5);
    assert_eq!(find_field_end(bytes, 6), 8);
    assert_eq!(find_field_end(bytes, 8), 8);
}
