use query_trace::{TraceParent, TraceParentError};

const SAMPLED: &str = "00-4bf92f3577b34da6a3ce929d0e0e4736-00f067aa0ba902b7-01";

#[test]
fn parse_reads_each_part() {
    let tp = TraceParent::parse(SAMPLED).unwrap();
    assert_eq!(tp.trace_id, 0x4bf92f3577b34da6a3ce929d0e0e4736);
    assert_eq!(tp.span_id, 0x00f067aa0ba902b7);
    assert_eq!(tp.flags, 1);
    assert!(tp.sampled());
}

#[test]
fn from_str_agrees_with_parse() {
    let a: TraceParent = SAMPLED.parse().unwrap();
    assert_eq!(Ok(a), TraceParent::parse(SAMPLED));
}

#[test]
fn unsampled_when_lowest_flag_bit_clear() {
    let tp = TraceParent::parse("00-4bf92f3577b34da6a3ce929d0e0e4736-00f067aa0ba902b7-02").unwrap();
    assert!(!tp.sampled());
    let tp = TraceParent::parse("00-4bf92f3577b34da6a3ce929d0e0e4736-00f067aa0ba902b7-03").unwrap();
    assert!(tp.sampled());
}

#[test]
fn rendering_pads_with_zeros() {
    let tp = TraceParent::new(1, 2, 3);
    assert_eq!(
        tp.to_string(),
        "00-00000000000000000000000000000001-0000000000000002-03"
    );
}

#[test]
fn parse_of_rendered_text_gives_the_same_context() {
    for tp in [
        TraceParent::new(0, 0, 0),
        TraceParent::new(u128::MAX, u64::MAX, u8::MAX),
        TraceParent::new(0x0123456789abcdef0123456789abcdef, 0xfedcba9876543210, 0x5a),
    ] {
        assert_eq!(TraceParent::parse(&tp.to_string()), Ok(tp));
    }
}

#[test]
fn parsed_text_renders_back_exactly() {
    assert_eq!(TraceParent::parse(SAMPLED).unwrap().to_string(), SAMPLED);
}

#[test]
fn wrong_length_is_rejected() {
    assert_eq!(TraceParent::parse(""), Err(TraceParentError::InvalidLength));
    assert_eq!(
        TraceParent::parse("00-4bf92f3577b34da6a3ce929d0e0e4736-00f067aa0ba902b7-1"),
        Err(TraceParentError::InvalidLength)
    );
}

#[test]
fn missing_separator_is_rejected() {
    assert_eq!(
        TraceParent::parse("00-4bf92f3577b34da6a3ce929d0e0e4736_00f067aa0ba902b7-01"),
        Err(TraceParentError::MissingSeparator)
    );
}

#[test]
fn other_version_is_rejected() {
    assert_eq!(
        TraceParent::parse("01-4bf92f3577b34da6a3ce929d0e0e4736-00f067aa0ba902b7-01"),
        Err(TraceParentError::UnsupportedVersion)
    );
}

#[test]
fn non_lowercase_hex_is_rejected() {
    assert_eq!(
        TraceParent::parse("00-4BF92F3577B34DA6A3CE929D0E0E4736-00f067aa0ba902b7-01"),
        Err(TraceParentError::InvalidHex)
    );
    assert_eq!(
        TraceParent::parse("00-4bf92f3577b34da6a3ce929d0e0e4736-00f067aa0ba902b7-0g"),
        Err(TraceParentError::InvalidHex)
    );
}

#[test]
fn non_ascii_text_of_the_right_length_is_rejected() {
    let s = "00-4bf92f3577b34da6a3ce929d0e0e473é-00f067aa0ba902b7-01";
    assert_eq!(TraceParent::parse(s), Err(TraceParentError::InvalidHex));
}
