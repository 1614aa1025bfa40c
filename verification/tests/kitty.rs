use base64::Engine;
use schematic_diff::kitty::{supported, write_png, Surroundings};

fn nowhere() -> Surroundings {
    Surroundings { kitty_window: false, konsole: false, term: None, program: None }
}

#[test]
fn the_user_decides_before_the_environment() {
    let kitty = Surroundings { kitty_window: true, ..nowhere() };
    assert!(!supported(Some(false), &kitty));
    assert!(supported(Some(true), &nowhere()));
    assert!(supported(None, &kitty));
    assert!(!supported(None, &nowhere()));
}

#[test]
fn terminals_are_recognised() {
    assert!(supported(None, &Surroundings { konsole: true, ..nowhere() }));
    let term = |text: &str| Surroundings { term: Some(text.to_string()), ..nowhere() };
    assert!(supported(None, &term("xterm-kitty")));
    assert!(!supported(None, &term("xterm-256color")));
    let program = |text: &str| Surroundings { program: Some(text.to_string()), ..nowhere() };
    assert!(supported(None, &program("Ghostty")));
    assert!(supported(None, &program("KONSOLE")));
    assert!(!supported(None, &program("ghostty2")));
}

/// The control data and payload of each escape sequence.
fn parts(bytes: &[u8]) -> Vec<(String, String)> {
    let text = String::from_utf8(bytes.to_vec()).unwrap();
    text.split("\x1b_G")
        .skip(1)
        .map(|part| {
            let body = part.strip_suffix("\x1b\\").unwrap();
            let (control, payload) = body.split_once(';').unwrap();
            (control.to_string(), payload.to_string())
        })
        .collect()
}

fn sample(length: usize) -> Vec<u8> {
    (0..length).map(|i| (i * 7 % 256) as u8).collect()
}

#[test]
fn one_chunk_is_sent_at_once() {
    let mut out = Vec::new();
    write_png(&mut out, b"png", 80, 24, false);
    assert_eq!(out, b"\x1b_Ga=T,f=100,c=80,r=24,C=1,q=2,m=0;cG5n\x1b\\");
    let mut none = vec![1];
    write_png(&mut none, b"", 80, 24, false);
    assert_eq!(none, vec![1]);
}

#[test]
fn chunks_carry_the_whole_image() {
    for length in [1, 3071, 3072, 3073, 6144, 10_000] {
        let png = sample(length);
        let mut out = Vec::new();
        write_png(&mut out, &png, 5, 6, false);
        let parts = parts(&out);
        assert_eq!(parts.len(), (length + 3071) / 3072);
        let mut whole = String::new();
        for (i, (control, payload)) in parts.iter().enumerate() {
            let more = u8::from(i + 1 < parts.len());
            let expected = if i == 0 {
                format!("a=T,f=100,c=5,r=6,C=1,q=2,m={more}")
            } else {
                format!("m={more}")
            };
            assert_eq!(*control, expected);
            assert!(!payload.is_empty() && payload.len() <= 4096);
            whole.push_str(payload);
        }
        let back = base64::engine::general_purpose::STANDARD.decode(whole).unwrap();
        assert_eq!(back, png);
    }
}

#[test]
fn through_tmux_each_escape_is_doubled() {
    let mut plain = Vec::new();
    write_png(&mut plain, b"png", 1, 2, false);
    let mut wrapped = Vec::new();
    write_png(&mut wrapped, b"png", 1, 2, true);
    let inner = wrapped
        .strip_prefix(b"\x1bPtmux;".as_slice())
        .and_then(|rest| rest.strip_suffix(b"\x1b\\".as_slice()))
        .unwrap();
    let mut undone = Vec::new();
    let mut bytes = inner.iter();
    while let Some(byte) = bytes.next() {
        undone.push(*byte);
        if *byte == 0x1b {
            assert_eq!(bytes.next(), Some(&0x1b));
        }
    }
    assert_eq!(undone, plain);
}
