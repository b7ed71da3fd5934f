use avm1_parser::avm1::{
    parse_action, parse_action_header, parse_get_url2_action, parse_push_action,
    parse_set_target_action, parse_try_action, ActionHeader, ParseError,
};
use avm1_parser::raw::{Action, CatchTarget, GotoFrame, PushValue, Push, Raw};

#[test]
fn test_parse_push_action() {
    {
        let input = vec![0x04, 0x00, 0x07, 0x01, 0x00, 0x00, 0x00, 0x08, 0x02];
        let actual = parse_push_action(&input[..]);
        let expected = Ok((
            &[][..],
            Push {
                values: vec![PushValue::Register(0), PushValue::Sint32(1), PushValue::Constant(2)],
            },
        ));
        assert_eq!(actual, expected);
    }
    {
        let input = vec![0x00, 0x00];
        let actual = parse_push_action(&input[..]);
        let expected = Ok((&[][..], Push { values: vec![PushValue::String(String::from(""))] }));
        assert_eq!(actual, expected);
    }
    {
        let input = vec![0x00, 0x01, 0x00];
        let actual = parse_push_action(&input[..]);
        let expected = Ok((&[][..], Push { values: vec![PushValue::String(String::from("\x01"))] }));
        assert_eq!(actual, expected);
    }
}

#[test]
fn test_parse_action_header() {
    {
        let input = vec![0b00000000, 0b00000000, 0b00000000, 0b00000000];
        assert_eq!(
            parse_action_header(&input[..]),
            Ok((&input[1..], ActionHeader { code: 0x00, length: 0 }))
        );
    }
    {
        let input = vec![0b00000001, 0b00000000, 0b00000000, 0b00000000];
        assert_eq!(
            parse_action_header(&input[..]),
            Ok((&input[1..], ActionHeader { code: 0x01, length: 0 }))
        );
    }
    {
        let input = vec![0b00010000, 0b00000000, 0b00000000, 0b00000000];
        assert_eq!(
            parse_action_header(&input[..]),
            Ok((&input[1..], ActionHeader { code: 0x10, length: 0 }))
        );
    }
    {
        let input = vec![0b10000000, 0b00000000, 0b00000000, 0b00000000];
        assert_eq!(
            parse_action_header(&input[..]),
            Ok((&input[3..], ActionHeader { code: 0x80, length: 0 }))
        );
    }
    {
        let input = vec![0b10000000, 0b00000001, 0b00000000, 0b00000000];
        assert_eq!(
            parse_action_header(&input[..]),
            Ok((&input[3..], ActionHeader { code: 0x80, length: 1 }))
        );
    }
    {
        let input = vec![0b10000000, 0b00000000, 0b00000001, 0b00000000];
        assert_eq!(
            parse_action_header(&input[..]),
            Ok((&input[3..], ActionHeader { code: 0x80, length: 256 }))
        );
    }
}

#[test]
fn test_parse_action() {
    {
        let input = vec![0b00000001, 0b00000000, 0b00000000, 0b00000000];
        assert_eq!(
            parse_action(&input),
            Ok((&input[1..], Action::Raw(Raw { code: 0x01, data: Vec::new() })))
        );
    }
    {
        let input = vec![0b10000000, 0b00000001, 0b00000000, 0b00000011];
        assert_eq!(
            parse_action(&input[..]),
            Ok((&input[4..], Action::Raw(Raw { code: 0x80, data: vec![0x03] })))
        );
    }
    {
        let input = vec![0b10000000, 0b00000010, 0b00000000, 0b00000011];
        assert_eq!(parse_action(&input[..]), Err(ParseError::Incomplete(5)));
    }
}

#[test]
fn header_of_long_action_consumes_three_bytes() {
    let input = vec![0x81, 0x02, 0x00, 0xAB, 0xCD];
    let (rest, header) = parse_action_header(&input).unwrap();
    assert_eq!(rest, &[0xAB, 0xCD][..]);
    assert_eq!(header, ActionHeader { code: 0x81, length: 2 });
}

#[test]
fn truncated_header_is_incomplete() {
    assert_eq!(parse_action_header(&[]), Err(ParseError::Incomplete(1)));
    assert_eq!(parse_action_header(&[0x96, 0x01]), Err(ParseError::Incomplete(3)));
    assert_eq!(parse_action(&[]), Err(ParseError::Incomplete(1)));
}

#[test]
fn unknown_code_keeps_its_body() {
    let input = vec![0x80, 0x01, 0x00, 0x03];
    let (rest, action) = parse_action(&input).unwrap();
    assert!(rest.is_empty());
    assert_eq!(action, Action::Raw(Raw { code: 0x80, data: vec![0x03] }));
}

#[test]
fn every_unknown_code_becomes_raw_with_its_body() {
    let known: Vec<u8> = vec![
        0x00, 0x04, 0x05, 0x06, 0x07, 0x08, 0x09, 0x0a, 0x0b, 0x0c, 0x0d, 0x0e, 0x0f, 0x10, 0x11,
        0x12, 0x13, 0x14, 0x15, 0x17, 0x18, 0x1c, 0x1d, 0x20, 0x21, 0x22, 0x23, 0x24, 0x25, 0x26,
        0x27, 0x28, 0x29, 0x2a, 0x2b, 0x2c, 0x2d, 0x30, 0x31, 0x32, 0x33, 0x34, 0x35, 0x36, 0x37,
        0x3a, 0x3b, 0x3c, 0x3d, 0x3e, 0x3f, 0x40, 0x41, 0x42, 0x43, 0x44, 0x45, 0x46, 0x47, 0x48,
        0x49, 0x4a, 0x4b, 0x4c, 0x4d, 0x4e, 0x4f, 0x50, 0x51, 0x52, 0x53, 0x54, 0x55, 0x60, 0x61,
        0x62, 0x63, 0x64, 0x65, 0x66, 0x67, 0x68, 0x69, 0x81, 0x83, 0x87, 0x88, 0x89, 0x8a, 0x8b,
        0x8c, 0x8d, 0x8e, 0x8f, 0x94, 0x96, 0x99, 0x9a, 0x9b, 0x9d, 0x9e, 0x9f,
    ];
    for code in 0u8..=255 {
        if known.contains(&code) {
            continue;
        }
        let input: Vec<u8> = if code < 0x80 { vec![code] } else { vec![code, 0x02, 0x00, 0x11, 0x22] };
        let (rest, action) = parse_action(&input).unwrap();
        assert!(rest.is_empty());
        let expected_data: Vec<u8> = if code < 0x80 { vec![] } else { vec![0x11, 0x22] };
        assert_eq!(action, Action::Raw(Raw { code, data: expected_data }));
    }
}

#[test]
fn consumed_length_matches_header() {
    let input = vec![0x81, 0x04, 0x00, 0x05, 0x00, 0xff, 0xff, 0x07];
    let (rest, action) = parse_action(&input).unwrap();
    assert_eq!(input.len() - rest.len(), 1 + 2 + 4);
    assert_eq!(action, Action::GotoFrame(GotoFrame { frame: 5 }));
    let (rest, action) = parse_action(rest).unwrap();
    assert!(rest.is_empty());
    assert_eq!(action, Action::Stop);
}

#[test]
fn body_too_short_gives_error_and_resynchronizes() {
    let input = vec![0x81, 0x01, 0x00, 0x05, 0x06];
    let (rest, action) = parse_action(&input).unwrap();
    assert_eq!(rest, &[0x06][..]);
    assert!(matches!(action, Action::Error(ref e) if e.error.is_none()));
}

#[test]
fn empty_push_is_an_error() {
    assert_eq!(parse_push_action(&[]), Err(ParseError::Invalid));
    let input = vec![0x96, 0x00, 0x00];
    let (_, action) = parse_action(&input).unwrap();
    assert!(matches!(action, Action::Error(_)));
}

#[test]
fn push_with_unknown_tag_is_invalid() {
    assert_eq!(parse_push_action(&[0x0a]), Err(ParseError::Invalid));
}

#[test]
fn push_float64_reads_swapped_halves() {
    let input = vec![0x06, 0x00, 0x00, 0xf0, 0x3f, 0x00, 0x00, 0x00, 0x00];
    let (_, push) = parse_push_action(&input).unwrap();
    match push.values[0] {
        PushValue::Float64(bits) => assert_eq!(f64::from_bits(bits), 1.0),
        ref other => panic!("unexpected value {:?}", other),
    }
}

#[test]
fn push_float64_round_trip_on_bits() {
    let value: f64 = -1234.5678;
    let bits = value.to_bits();
    let high = ((bits >> 32) as u32).to_le_bytes();
    let low = (bits as u32).to_le_bytes();
    let mut input = vec![0x06];
    input.extend_from_slice(&high);
    input.extend_from_slice(&low);
    let (_, push) = parse_push_action(&input).unwrap();
    assert_eq!(push.values, vec![PushValue::Float64(bits)]);
}

#[test]
fn get_url2_with_reserved_method_is_invalid() {
    assert_eq!(parse_get_url2_action(&[0xc0]), Err(ParseError::Invalid));
    let (_, x) = parse_get_url2_action(&[0x83]).unwrap();
    assert!(x.load_variables && x.load_target);
}

#[test]
fn c_strings_are_checked_for_utf8() {
    let (rest, x) = parse_set_target_action(&[0x61, 0x62, 0x00, 0x09]).unwrap();
    assert_eq!(x.target_name, "ab");
    assert_eq!(rest, &[0x09][..]);
    assert_eq!(parse_set_target_action(&[0xff, 0xfe, 0x00]), Err(ParseError::Invalid));
    assert_eq!(parse_set_target_action(&[0x61, 0x62]), Err(ParseError::Invalid));
}

#[test]
fn try_with_catch_in_register() {
    let input = vec![0x07, 0x03, 0x00, 0x04, 0x00, 0x05, 0x00, 0x02];
    let (rest, x) = parse_try_action(&input).unwrap();
    assert!(rest.is_empty());
    assert_eq!(x.try_size, 3);
    let catch = x.catch.unwrap();
    assert_eq!(catch.size, 4);
    assert_eq!(catch.target, CatchTarget::Register(2));
    assert_eq!(x.finally, Some(5));
}
