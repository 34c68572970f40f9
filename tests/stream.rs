use ascii_video::stream::{parse_stream, serialize_frames};

fn frames(k: usize) -> Vec<String> {
    (0..k).map(|i| format!("{}{}\n{}{}\n", i, i, i + 1, i + 1)).collect()
}

#[test]
fn serializer_puts_a_blank_line_after_each_frame() {
    let s = serialize_frames(&vec!["ab\n".to_string(), "cd\nef\n".to_string()]);
    assert_eq!(s, "ab\n\ncd\nef\n\n");
}

#[test]
fn round_trip_of_zero_frames() {
    let s = serialize_frames(&frames(0));
    assert_eq!(s, "");
    assert_eq!(parse_stream(&s).len(), 0);
}

#[test]
fn round_trip_of_one_frame() {
    let parsed = parse_stream(&serialize_frames(&frames(1)));
    assert_eq!(parsed, vec!["00\n11".to_string()]);
}

#[test]
fn round_trip_of_five_frames_keeps_order() {
    let fs = frames(5);
    let parsed = parse_stream(&serialize_frames(&fs));
    assert_eq!(parsed.len(), 5);
    for (p, f) in parsed.iter().zip(fs.iter()) {
        assert_eq!(p.as_str(), &f[..f.len() - 1]);
    }
}

#[test]
fn empty_stream_has_no_frames() {
    assert!(parse_stream("").is_empty());
}

#[test]
fn carriage_returns_become_three_spaces() {
    let parsed = parse_stream("a\rb\n\n\rc\r\n\n");
    assert_eq!(parsed, vec!["a   b".to_string(), "   c   ".to_string()]);
    for p in &parsed {
        assert!(!p.contains('\r'));
    }
    let raw = "xy\r\nzw\r\n";
    let one = parse_stream(raw);
    assert_eq!(one.len(), 1);
    assert_eq!(one[0].chars().count(), raw.chars().count() + 2 * 2);
}

#[test]
fn stream_without_final_blank_line_keeps_last_frame() {
    assert_eq!(parse_stream("a\n\nb"), vec!["a".to_string(), "b".to_string()]);
}
