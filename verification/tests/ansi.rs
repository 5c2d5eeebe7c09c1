use boost::ansi::{AnsiStripper, strip_ansi};

#[test]
fn plain_text_passes_through() {
    assert_eq!(strip_ansi(b"hello world\n"), b"hello world\n".to_vec());
}

#[test]
fn csi_color_sequences_are_dropped() {
    assert_eq!(strip_ansi(b"\x1b[31mred\x1b[0m plain"), b"red plain".to_vec());
}

#[test]
fn csi_with_parameters_is_dropped() {
    assert_eq!(strip_ansi(b"\x1b[1;32;44mbold\x1b[m"), b"bold".to_vec());
}

#[test]
fn osc_title_is_dropped_with_bel() {
    assert_eq!(strip_ansi(b"\x1b]0;my title\x07text"), b"text".to_vec());
}

#[test]
fn osc_is_dropped_with_st() {
    assert_eq!(strip_ansi(b"\x1b]8;;link\x1b\\text"), b"text".to_vec());
}

#[test]
fn single_shift_consumes_one_byte() {
    assert_eq!(strip_ansi(b"\x1bNXafter"), b"after".to_vec());
    assert_eq!(strip_ansi(b"\x1bOYafter"), b"after".to_vec());
}

#[test]
fn control_bytes_pass_through() {
    assert_eq!(strip_ansi(b"a\tb\r\nc"), b"a\tb\r\nc".to_vec());
}

#[test]
fn state_carries_across_chunks() {
    // the same escape split over two chunks strips like the whole stream
    let mut s = AnsiStripper::new();
    let mut out = s.feed(b"before \x1b[3");
    out.extend_from_slice(&s.feed(b"1mred\x1b[0m after"));
    assert_eq!(out, b"before red after".to_vec());
}

#[test]
fn chunking_matches_whole_stream() {
    let stream = b"\x1b]0;t\x07a\x1b[31mb\x1b[0mc";
    let whole = strip_ansi(stream);
    for cut in 0..stream.len() {
        let mut s = AnsiStripper::new();
        let mut out = s.feed(&stream[..cut]);
        out.extend_from_slice(&s.feed(&stream[cut..]));
        assert_eq!(out, whole, "differs when cut at {}", cut);
    }
}
