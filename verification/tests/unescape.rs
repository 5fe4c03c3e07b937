use xml_unescape::escape::{unescape, Error, Unescaped};

fn ok_bytes(input: &[u8]) -> Vec<u8> {
    match unescape(input) {
        Ok(out) => out.as_bytes().to_vec(),
        Err((e, pos)) => panic!("unexpected error {:?} at {}", e, pos),
    }
}

#[test]
fn identity_when_no_amp() {
    let input = b"hello world, no escapes here";
    let out = unescape(input).unwrap();
    assert!(matches!(out, Unescaped::Borrowed(_)));
    assert_eq!(out.as_bytes(), &input[..]);
}

#[test]
fn identity_empty_input() {
    let out = unescape(b"").unwrap();
    assert!(matches!(out, Unescaped::Borrowed(_)));
    assert_eq!(out.as_bytes(), &b""[..]);
}

#[test]
fn owned_when_escapes_present() {
    let out = unescape(b"a&lt;b").unwrap();
    assert!(matches!(out, Unescaped::Owned(_)));
    assert_eq!(out.as_bytes(), &b"a<b"[..]);
}

#[test]
fn named_escapes_spaced() {
    assert_eq!(ok_bytes(b"a &lt;b&gt; c"), b"a <b> c".to_vec());
}

#[test]
fn named_escapes_adjacent() {
    assert_eq!(ok_bytes(b"&amp;&apos;&quot;"), b"&'\"".to_vec());
}

#[test]
fn numeric_hex() {
    assert_eq!(ok_bytes(b"&#x41;"), b"A".to_vec());
}

#[test]
fn hex_null_is_refused() {
    let (e, pos) = unescape(b"&#x0;").unwrap_err();
    assert_eq!(e, Error::NullCharacter);
    assert_eq!(pos, 0);
}

#[test]
fn octal_null_is_refused() {
    let (e, pos) = unescape(b"&#0;").unwrap_err();
    assert_eq!(e, Error::NullCharacter);
    assert_eq!(pos, 0);
}

#[test]
fn numeric_without_x_reads_octal() {
    // 101 read in base eight is 65, the letter A; base ten would give 'e'.
    assert_eq!(ok_bytes(b"&#101;"), b"A".to_vec());
}

#[test]
fn unterminated_entity_offset() {
    let (e, pos) = unescape(b"a & b").unwrap_err();
    assert_eq!(e, Error::Unterminated);
    assert_eq!(pos, 2);
}

#[test]
fn unterminated_at_buffer_end() {
    let (e, pos) = unescape(b"abc&").unwrap_err();
    assert_eq!(e, Error::Unterminated);
    assert_eq!(pos, 3);
    let (e, pos) = unescape(b"&lt").unwrap_err();
    assert_eq!(e, Error::Unterminated);
    assert_eq!(pos, 0);
}

#[test]
fn empty_entity() {
    let (e, pos) = unescape(b"&;").unwrap_err();
    assert_eq!(e, Error::Empty);
    assert_eq!(pos, 0);
    assert_eq!(e.message(), "Encountered empty entity");
}

#[test]
fn unknown_entity_name() {
    let (e, pos) = unescape(b"&foo;").unwrap_err();
    assert_eq!(e, Error::Unexpected(b"foo".to_vec()));
    assert_eq!(pos, 0);
    assert_eq!(e.message(), "Unexpected entity: foo");
}

#[test]
fn error_offset_after_earlier_escape() {
    let (e, pos) = unescape(b"ab&gt;cd&bad;").unwrap_err();
    assert_eq!(e, Error::Unexpected(b"bad".to_vec()));
    assert_eq!(pos, 8);
}

#[test]
fn multiple_escapes_and_sizing() {
    let input = b"&lt;&gt;x&amp;";
    let out = ok_bytes(input);
    assert_eq!(out, b"<>x&".to_vec());
    // The output shrinks by each escape span's length, counting from the
    // `&` up to but not including the `;`: here 3, 3 and 4 bytes.
    assert_eq!(out.len(), input.len() - (3 + 3 + 4));
}

#[test]
fn trailing_bytes_are_copied() {
    assert_eq!(ok_bytes(b"&lt;x"), b"<x".to_vec());
    assert_eq!(ok_bytes(b"a &lt;b&gt; c tail"), b"a <b> c tail".to_vec());
}

#[test]
fn single_pass_never_redecodes_output() {
    // One pass resumes after the `;`, so the `&` that `&amp;` produces is
    // emitted as a literal byte, not rescanned as the start of an entity.
    assert_eq!(ok_bytes(b"&amp;lt;"), b"&lt;".to_vec());
    let first = ok_bytes(b"&amp; b");
    assert_eq!(first, b"& b".to_vec());
    // Decoding again is not a no-op: the emitted `&` now starts a (here
    // unterminated) entity of its own.
    let (e, pos) = unescape(&first).unwrap_err();
    assert_eq!(e, Error::Unterminated);
    assert_eq!(pos, 0);
}

#[test]
fn invalid_hex_digits() {
    let (e, pos) = unescape(b"&#xZZ;").unwrap_err();
    assert_eq!(e, Error::InvalidHexadecimal(b"ZZ".to_vec()));
    assert_eq!(pos, 0);
    assert_eq!(
        e.message(),
        "Invalid hexadecimal character number in an entity: ZZ"
    );
}

#[test]
fn invalid_octal_digit() {
    // 9 is a numeral, but not one of base eight.
    let (e, pos) = unescape(b"&#9;").unwrap_err();
    assert_eq!(e, Error::InvalidDecimal(b"9".to_vec()));
    assert_eq!(pos, 0);
    assert_eq!(
        e.message(),
        "Invalid decimal character number in an entity: 9"
    );
}

#[test]
fn empty_numeral_strings() {
    let (e, pos) = unescape(b"&#x;").unwrap_err();
    assert_eq!(e, Error::InvalidHexadecimal(b"".to_vec()));
    assert_eq!(pos, 0);
    assert_eq!(
        e.message(),
        "Invalid hexadecimal character number in an entity: "
    );
}

#[test]
fn lone_hash_is_unexpected() {
    let (e, pos) = unescape(b"&#;").unwrap_err();
    assert_eq!(e, Error::Unexpected(b"#".to_vec()));
    assert_eq!(pos, 0);
}

#[test]
fn code_point_out_of_range() {
    let (e, _) = unescape(b"&#x110000;").unwrap_err();
    assert_eq!(e, Error::InvalidHexadecimal(b"110000".to_vec()));
    let (e, _) = unescape(b"&#xFFFFFFFFF;").unwrap_err();
    assert_eq!(e, Error::InvalidHexadecimal(b"FFFFFFFFF".to_vec()));
}

#[test]
fn surrogate_code_point_is_refused() {
    let (e, _) = unescape(b"&#xD800;").unwrap_err();
    assert_eq!(e, Error::InvalidHexadecimal(b"D800".to_vec()));
}

#[test]
fn code_point_narrows_to_low_byte() {
    // 0x141 is a valid character; the decoded byte keeps its low eight bits.
    assert_eq!(ok_bytes(b"&#x141;"), b"A".to_vec());
}

#[test]
fn leading_plus_sign_is_read() {
    // u32::from_str_radix accepts one leading plus, so the numeral does too.
    assert_eq!(ok_bytes(b"&#+101;"), b"A".to_vec());
}

#[test]
fn padded_null_evades_the_guard() {
    // Only the literal spellings #0 and #x0 are refused; 00 still reads as
    // zero and decodes to a null byte, exactly as the guard's narrowness asks.
    assert_eq!(ok_bytes(b"&#00;"), vec![0u8]);
    assert_eq!(ok_bytes(b"&#x00;"), vec![0u8]);
}

#[test]
fn lowercase_hex_digits() {
    assert_eq!(ok_bytes(b"&#x6a;"), b"j".to_vec());
    assert_eq!(ok_bytes(b"&#x6A;"), b"j".to_vec());
}

#[test]
fn message_of_fixed_errors() {
    assert_eq!(Error::Unterminated.message(), "Cannot find ';' after '&'");
    assert_eq!(
        Error::NullCharacter.message(),
        "Null character entity is not allowed"
    );
}
