use kodachi::processing::ansi::{Ansi, AnsiMut};

#[test]
fn strip_ansi() {
    let mut ansi = Ansi::from_str("\x1b[32mColorful\x1b[m");
    assert_eq!(ansi.strip_ansi().to_string(), "Colorful");
}

#[test]
fn but_only_strip_ansi() {
    let mut ansi = Ansi::from_str("say ['anything']");
    assert_eq!(ansi.strip_ansi().to_string(), "say ['anything']");
}

#[test]
fn trim_trailing_newlines() {
    let ansi = Ansi::from_str("grayskull\r\n");
    assert_eq!(ansi.trim_trailing_newlines().to_string(), "grayskull");

    let ansi = Ansi::from_str("grayskull\n");
    assert_eq!(ansi.trim_trailing_newlines().to_string(), "grayskull");

    let ansi = Ansi::from_str("grayskull\r\r\n");
    assert_eq!(ansi.trim_trailing_newlines().to_string(), "grayskull");
}

#[test]
fn detect_incomplete_ansi_codes() {
    assert_eq!(AnsiMut::from_str("grayskull\x1b").has_incomplete_code(), true);
    assert_eq!(AnsiMut::from_str("grayskull\x1b[").has_incomplete_code(), true);
    assert_eq!(AnsiMut::from_str("grayskull\x1b[3").has_incomplete_code(), true);
    assert_eq!(AnsiMut::from_str("grayskull\x1b[32").has_incomplete_code(), true);
    assert_eq!(AnsiMut::from_str("grayskull\x1b[32m").has_incomplete_code(), false);
}

#[test]
fn deref_ansi_mut_utf8_safely() {
    let bytes: &[u8] = b"\r\xe2";
    let mut ansi_mut = AnsiMut::from_bytes(bytes.to_vec());
    assert!(ansi_mut.has_incomplete_code());

    let ansi = ansi_mut.take();
    assert!(ansi.to_string().starts_with("\r"));

    // The AnsiMut keeps the bytes that are not valid UTF-8 yet
    assert_eq!(ansi_mut.as_bytes().as_slice(), b"\xe2");

    // Once the sequence is finished, it can be taken
    ansi_mut.put_slice(b"\x96\x84");
    let remainder = ansi_mut.take();
    assert_eq!(remainder.as_bytes().as_slice(), b"\xe2\x96\x84");

    assert!(ansi_mut.into_inner().is_empty());
}

#[test]
fn maps_back_to_original_at_ansi() {
    let mut ansi = Ansi::from_str("\x1b[32mEverything\x1b[m is \x1b[32mFine\x1b[m");
    let stripped = ansi.strip_ansi();
    assert_eq!(stripped.get_original_range(0..10), 0..18);

    let original = stripped.get_original(0..10);
    assert_eq!(original.to_string(), "\x1b[32mEverything\x1b[m");
}

#[test]
fn maps_back_to_original_after_ansi() {
    let mut ansi = Ansi::from_str("\x1b[32mEverything\x1b[m is \x1b[32mFine\x1b[m");
    let stripped = ansi.strip_ansi();
    assert_eq!(stripped.get_original_range(1..10), 6..18);

    let original = stripped.get_original(1..10);
    assert_eq!(original.to_string(), "verything\x1b[m");
}

#[test]
fn fully_maps_back_to_original() {
    let mut ansi = Ansi::from_str("\x1b[32mEverything\x1b[m is \x1b[32mFine\x1b[m");
    let stripped = ansi.strip_ansi();
    assert_eq!(stripped.to_string(), "Everything is Fine");
    assert_eq!(stripped.get_original_range(0..18), 0..34);

    let original = stripped.get_original(0..18);
    assert_eq!(
        original.to_string(),
        "\x1b[32mEverything\x1b[m is \x1b[32mFine\x1b[m"
    );
}

#[test]
fn lossy_bytes_are_replaced() {
    let ansi = Ansi::from_lossy_bytes(b"ok\xff".to_vec());
    assert_eq!(ansi.to_string(), "ok\u{fffd}");
}

#[test]
fn without_match_keeps_the_rest() {
    let mut ansi = Ansi::from_str("just \x1b[32mhi\x1b[m there");
    let stripped = ansi.strip_ansi();
    let rest = ansi.without_stripped_match_range(&stripped, 5..7);
    assert_eq!(rest.to_string(), "just  there");
}

#[test]
fn trim_only_newlines_leaves_nothing() {
    let ansi = Ansi::from_str("\r\n");
    assert_eq!(ansi.trim_trailing_newlines().to_string(), "");
    let ansi = Ansi::from_str("\n\n\r");
    assert_eq!(ansi.trim_trailing_newlines().to_string(), "");
}

#[test]
fn characters_that_only_look_like_escapes_are_kept() {
    // U+011B ends in the byte 0x1B, U+015B in 0x5B ('['), U+016D in 0x6D ('m').
    let mut ansi = Ansi::from_str("p\u{11b}\u{15b}\u{16d}ed");
    assert_eq!(ansi.strip_ansi().to_string(), "p\u{11b}\u{15b}\u{16d}ed");

    let mut ansi = Ansi::from_str("\x1b[32m\u{11b}\x1b[m done");
    assert_eq!(ansi.strip_ansi().to_string(), "\u{11b} done");
    assert!(!AnsiMut::from_str("\u{11b}").has_incomplete_code());
}
