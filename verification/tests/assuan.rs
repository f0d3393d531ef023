use ward::assuan::{
    escape_byte, is_sent, percent_decode, percent_encode, transcript_entry, unescape, LineError, Reader,
    Writer, ERR_CANCELLED, ERR_NOT_CONFIRMED, ERR_NO_PIN_ENTRY, MAX_LINE, SECRET_LINE,
};
use ward::secret::Secret;

#[test]
fn decodes_the_escapes_the_protocol_defines() {
    assert_eq!(percent_decode("a%20b"), "a b");
    assert_eq!(percent_decode("100%25"), "100%");
    assert_eq!(percent_decode("one%0Atwo"), "one\ntwo");
}

#[test]
fn decodes_multibyte_utf8_split_across_escapes() {
    // "па" as %-escaped UTF-8: the two halves of each character arrive separately.
    assert_eq!(percent_decode("%D0%BF%D0%B0"), "па");
}

#[test]
fn keeps_a_malformed_escape_rather_than_dropping_it() {
    assert_eq!(percent_decode("50% off"), "50% off");
    assert_eq!(percent_decode("%zz"), "%zz");
    assert_eq!(percent_decode("trailing%"), "trailing%");
}

#[test]
fn encode_and_decode_round_trip() {
    for s in ["plain", "with %", "with \n newline", "кирилица", "%25%0A"] {
        assert_eq!(percent_decode(&percent_encode(s)), s);
    }
}

#[test]
fn escapes_only_what_must_be_escaped() {
    let mut out = [0u8; 3];
    assert_eq!(escape_byte(b'a', &mut out), 1);
    assert_eq!(escape_byte(b'%', &mut out), 3);
    assert_eq!(&out, b"%25");
    assert_eq!(escape_byte(b'\n', &mut out), 3);
    assert_eq!(&out, b"%0A");
}

#[test]
fn a_carriage_return_is_escaped_and_a_letter_is_itself() {
    let mut out = [0u8; 3];
    assert_eq!(escape_byte(b'a', &mut out), 1);
    assert_eq!(out, [b'a', 0, 0]);
    assert_eq!(escape_byte(b'\r', &mut out), 3);
    assert_eq!(&out, b"%0D");
    assert_eq!(escape_byte(b'x', &mut out), 1);
    assert_eq!(out[0], b'x');
}

#[test]
fn bytes_that_are_no_text_are_shown_as_replacements() {
    assert_eq!(percent_decode("a%FFb"), "a\u{FFFD}b");
    assert_eq!(percent_decode("%D0"), "\u{FFFD}");
}

#[test]
fn escapes_are_read_in_either_case_and_only_when_whole() {
    assert_eq!(unescape(b"%0a%0A%4"), b"\n\n%4");
    assert_eq!(unescape(b"%%25"), b"%%");
    assert_eq!(unescape(b""), b"");
    assert_eq!(percent_decode("%+5"), "%+5");
    assert_eq!(percent_decode("100%+5"), "100%+5");
}

#[test]
fn unescaping_undoes_escaping() {
    let text = "100% \r\n тайна";
    assert_eq!(percent_encode(text), "100%25 %0D%0A тайна");
    assert_eq!(unescape(percent_encode(text).as_bytes()), text.as_bytes());
}

#[test]
fn a_text_without_a_percent_sign_is_itself() {
    assert_eq!(percent_decode("просто текст"), "просто текст");
}

#[test]
fn replies_are_written_as_the_protocol_has_them() {
    let mut w = Writer::stdout();
    w.ok("");
    w.ok("Pleased to meet you");
    w.err(ERR_CANCELLED, "Operation cancelled");
    w.status("PIN_REPEATED");
    w.data_str("5% of\nтова");
    assert_eq!(
        w.take(),
        "OK\nOK Pleased to meet you\nERR 83886179 Operation cancelled\nS PIN_REPEATED\nD 5%25 of%0Aтова\n"
    );
    assert_eq!(w.take(), "");
}

#[test]
fn the_error_codes_are_those_of_a_pinentry() {
    assert_eq!(ERR_CANCELLED, (5 << 24) | 99);
    assert_eq!(ERR_NOT_CONFIRMED, (5 << 24) | 114);
    assert_eq!(ERR_NO_PIN_ENTRY, (5 << 24) | 67);
}

fn sent(secret: &Secret) -> Vec<Vec<u8>> {
    let mut lines = Vec::new();
    let mut window = [0u8; SECRET_LINE];
    let mut from = 0;
    loop {
        let (n, next) = Writer::data_secret(secret, from, &mut window);
        lines.push(window[..n].to_vec());
        from = next;
        if is_sent(secret, from) {
            return lines;
        }
    }
}

#[test]
fn a_short_passphrase_is_one_line() {
    let mut region = [0u8; 64];
    let mut s = Secret::with_capacity(&mut region, true);
    s.push("50% тайна".as_bytes());
    assert_eq!(sent(&s), vec!["D 50%25 тайна\n".as_bytes().to_vec()]);
}

#[test]
fn a_long_passphrase_takes_several_lines_and_arrives_whole() {
    let mut region = vec![0u8; 8192];
    let mut s = Secret::with_capacity(&mut region, true);
    let text: String = "тайна%".chars().cycle().take(2048).collect();
    s.push(text.as_bytes());
    let mut payload = Vec::new();
    let lines = sent(&s);
    assert!(lines.len() > 1);
    for l in &lines {
        assert!(l.len() <= MAX_LINE);
        assert_eq!(&l[..2], b"D ");
        assert_eq!(l[l.len() - 1], b'\n');
        payload.extend_from_slice(&l[2..l.len() - 1]);
    }
    assert_eq!(unescape(&payload), text.as_bytes());
}

#[test]
fn an_escape_is_never_split_across_two_lines() {
    let mut region = vec![0u8; 1024];
    let mut s = Secret::with_capacity(&mut region, true);
    s.push(&vec![b'a'; 510]);
    s.push(b"%z");
    let lines = sent(&s);
    assert_eq!(lines.len(), 2);
    assert_eq!(lines[0].len(), 2 + 510 + 1);
    assert_eq!(lines[1], b"D %25z\n");
}

#[test]
fn lines_are_read_one_by_one() {
    let mut r = Reader::new();
    assert_eq!(r.line(), Err(LineError::Incomplete));
    r.feed(b"GETPIN\r\nBY");
    assert_eq!(r.line(), Ok(Some("GETPIN".to_string())));
    assert_eq!(r.line(), Err(LineError::Incomplete));
    r.feed(b"E");
    r.close();
    assert_eq!(r.line(), Ok(Some("BYE".to_string())));
    assert_eq!(r.line(), Ok(None));
}

#[test]
fn a_line_longer_than_the_protocol_allows_is_refused() {
    let mut r = Reader::default();
    r.feed(&vec![b'a'; MAX_LINE + 1]);
    assert_eq!(r.line(), Err(LineError::TooLong));
    let mut r = Reader::default();
    let mut longest = vec![b'a'; MAX_LINE - 1];
    longest.push(b'\n');
    r.feed(&longest);
    assert_eq!(r.line(), Ok(Some("a".repeat(MAX_LINE - 1))));
}

#[test]
fn a_line_that_is_no_text_is_refused() {
    let mut r = Reader::new();
    r.feed(b"SETDESC \xff\n");
    assert_eq!(r.line(), Err(LineError::NotText));
}

#[test]
fn a_line_that_was_sent_is_read_back() {
    let mut r = Reader::new();
    r.feed("SETDESC отключи\n".as_bytes());
    r.feed(b"NOP\n");
    assert_eq!(r.line(), Ok(Some("SETDESC отключи".to_string())));
    assert_eq!(r.line(), Ok(Some("NOP".to_string())));
}

#[test]
fn the_transcript_tells_who_spoke() {
    assert_eq!(transcript_entry("-->", "GETPIN"), "--> GETPIN\n");
}
