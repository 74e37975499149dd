use load_harness::verify::{comparable_form, verify};

fn text(s: &str) -> Option<String> {
    Some(s.to_string())
}

#[test]
fn text_is_its_own_comparable_form() {
    assert_eq!(comparable_form(b"hello"), text("hello"));
    assert_eq!(comparable_form(b""), text(""));
    assert_eq!(comparable_form("gr\u{fc}\u{df}e \u{2713}".as_bytes()), text("gr\u{fc}\u{df}e \u{2713}"));
}

#[test]
fn bytes_that_are_no_text_become_base64() {
    assert_eq!(comparable_form(&[0xff]), text("/w=="));
    assert_eq!(comparable_form(&[0x80]), text("gA=="));
    assert_eq!(comparable_form(&[0xff, 0xfe]), text("//4="));
    assert_eq!(comparable_form(&[0xc3, 0x28]), text("wyg="));
    assert_eq!(comparable_form(&[0xff, 0xfe, 0xfd]), text("//79"));
    assert_eq!(comparable_form(&[0xfb, 0xef, 0xbe, 0x00]), text("++++AA=="));
}

#[test]
fn base64_uses_every_part_of_the_alphabet() {
    // 0x00 0x10 0x83 -> A B C D; 0x69 0xb7 0x1d -> a b c d; 0xd3 0x5d 0xb7 -> 0 1 2 3
    assert_eq!(comparable_form(&[0x00, 0x10, 0x83, 0xff]), text("ABCD/w=="));
    assert_eq!(comparable_form(&[0xff, 0x69, 0xb7, 0x1d]), text("/2m3HQ=="));
    assert_eq!(comparable_form(&[0xfb, 0xff, 0xbf]), text("+/+/"));
    assert_eq!(comparable_form(&[0xd3, 0x5d, 0xb7, 0xe3, 0x9e, 0xbb, 0xf3, 0xdf, 0xbf]), text("0123456789+/"));
}

#[test]
fn base64_fallback_decodes_back_to_the_bytes() {
    let mut bytes: Vec<u8> = Vec::new();
    let mut n: usize = 0;
    while n < 40 {
        bytes.push(0xff);
        bytes.push((n * 7 % 256) as u8);
        let form = comparable_form(&bytes).unwrap();
        assert_eq!(form.len(), 4 * ((bytes.len() + 2) / 3));
        assert!(!form.contains('\n'));
        assert_eq!(base64::decode(&form).unwrap(), bytes);
        n += 1;
    }
    bytes.pop();
    let form = comparable_form(&bytes).unwrap();
    assert_eq!(base64::decode(&form).unwrap(), bytes);
}

#[test]
fn base64_fallback_of_every_single_byte_that_is_no_text() {
    let mut b: u16 = 0x80;
    while b < 0x100 {
        let bytes = vec![b as u8];
        let form = comparable_form(&bytes).unwrap();
        assert_eq!(form, base64::encode(&bytes));
        assert_eq!(base64::decode(&form).unwrap(), bytes);
        b += 1;
    }
}

#[test]
fn verify_without_expectation_says_nothing() {
    assert_eq!(verify(b"hello", &None), None);
    assert_eq!(verify(&[0xff], &None), None);
}

#[test]
fn verify_compares_text_exactly() {
    assert_eq!(verify(b"hello", &text("hello")), Some(true));
    assert_eq!(verify(b"hello", &text("world")), Some(false));
    assert_eq!(verify(b"hello", &text("hello ")), Some(false));
    assert_eq!(verify(b"Hello", &text("hello")), Some(false));
    assert_eq!(verify(b"", &text("")), Some(true));
    assert_eq!(verify(b"", &text("x")), Some(false));
}

#[test]
fn verify_compares_other_bytes_as_base64() {
    assert_eq!(verify(&[0xff, 0xfe], &text("//4=")), Some(true));
    assert_eq!(verify(&[0xff, 0xfe], &text("//4")), Some(false));
    assert_eq!(verify(&[0xff, 0xfe], &text("\u{fffd}\u{fffd}")), Some(false));
}

#[test]
fn text_that_looks_like_base64_is_still_text() {
    assert_eq!(comparable_form(b"/w=="), text("/w=="));
    assert_eq!(verify(b"/w==", &text("/w==")), Some(true));
}
