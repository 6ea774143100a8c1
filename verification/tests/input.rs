use minishell::input::{InputData, KeyDecoder, Utf8Decoder};

fn decode(bytes: &[u8]) -> Vec<char> {
    let mut d = Utf8Decoder::new();
    bytes.iter().filter_map(|&b| d.push(b)).collect()
}

#[test]
fn ascii_and_multibyte() {
    assert_eq!(decode("aé€😀".as_bytes()), ['a', 'é', '€', '😀']);
}

#[test]
fn stray_bytes_are_dropped() {
    assert_eq!(decode(&[0xC3, 0x41]), ['A']);
    assert_eq!(decode(&[0xFF, 0xFF, 0xFF, 0xFF, 0x42]), ['B']);
    assert_eq!(decode(&[0xE2, 0x82]), Vec::<char>::new());
}

fn events(s: &str) -> Vec<String> {
    let mut d = KeyDecoder::new();
    let mut out = vec![];
    for c in s.chars() {
        out.extend(d.feed(c));
    }
    out.extend(d.finish());
    out.into_iter()
        .map(|e| match e {
            InputData::Char(c) => format!("char {c:?}"),
            InputData::CsiSeq(s) => format!("csi {s}"),
        })
        .collect()
}

#[test]
fn control_sequences() {
    assert_eq!(events("a\x1b[Cb"), ["char 'a'", "csi C", "char 'b'"]);
    assert_eq!(events("\x1b[3~"), ["csi 3~"]);
    assert_eq!(events("\x1bx"), ["char '\\u{1b}'", "char 'x'"]);
    assert_eq!(events("\x1b\x1b[D"), ["char '\\u{1b}'", "csi D"]);
    assert_eq!(events("\x1b"), ["char '\\u{1b}'"]);
    assert_eq!(events("\x1b[12"), Vec::<String>::new());
}

#[test]
fn the_bytes_of_a_text_decode_to_the_text() {
    let text = "ls -l ~/Données ✓ 😀";
    let got: String = decode(text.as_bytes()).into_iter().collect();
    assert_eq!(got, text);
    let got: String = decode(b"a\xC3\xA9\xFFb").into_iter().collect();
    assert_eq!(got, "a\u{e9}b");
}
