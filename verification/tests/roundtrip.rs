//! The escaped literal decodes back to exactly the input: strip the
//! surrounding quotes and undo each escape.
use json_escape::escape;

/// Decodes the part of a JSON string literal between the quotes.
fn unescape_bytes(t: &[u8]) -> Option<Vec<u8>> {
    let mut out = Vec::new();
    let mut i = 0;
    while i < t.len() {
        let b = t[i];
        if b == b'\\' {
            if i + 1 >= t.len() {
                return None;
            }
            let c = t[i + 1];
            let mn = match c {
                b'b' => Some(0x08),
                b't' => Some(0x09),
                b'n' => Some(0x0A),
                b'f' => Some(0x0C),
                b'r' => Some(0x0D),
                b'"' => Some(0x22),
                b'\\' => Some(0x5C),
                _ => None,
            };
            if let Some(v) = mn {
                out.push(v);
                i += 2;
            } else if c == b'u' && i + 5 < t.len() && t[i + 2] == b'0' && t[i + 3] == b'0' {
                let hex = |d: u8| -> Option<u8> {
                    match d {
                        b'0'..=b'9' => Some(d - b'0'),
                        b'a'..=b'f' => Some(d - b'a' + 10),
                        _ => None,
                    }
                };
                let hi = hex(t[i + 4])?;
                let lo = hex(t[i + 5])?;
                out.push(hi * 16 + lo);
                i += 6;
            } else {
                return None;
            }
        } else if b == b'"' || b < 0x20 {
            return None;
        } else {
            out.push(b);
            i += 1;
        }
    }
    Some(out)
}

fn check_round_trip(s: &str) {
    let lit = escape(s);
    let bytes = lit.as_bytes();
    assert!(bytes.len() >= 2, "literal shorter than two quotes: {:?}", lit);
    assert_eq!(bytes[0], b'"', "literal does not start with a quote");
    assert_eq!(bytes[bytes.len() - 1], b'"', "literal does not end with a quote");
    let inner = &bytes[1..bytes.len() - 1];
    assert_eq!(
        unescape_bytes(inner).as_deref(),
        Some(s.as_bytes()),
        "unescaping did not give back the input for {:?}",
        s
    );
}

#[test]
fn round_trip_simple() {
    check_round_trip("");
    check_round_trip("a");
    check_round_trip("hello world");
    check_round_trip("\"");
    check_round_trip("\\");
    check_round_trip("\x00");
    check_round_trip("\t\r\n\x08\x0C");
    check_round_trip("中文 English 🚀 𝄞");
}

#[test]
fn round_trip_every_control_byte() {
    for i in 0u8..32 {
        let s = String::from_utf8(vec![i]).unwrap();
        check_round_trip(&s);
        let mixed = format!("ab{}cd", s);
        check_round_trip(&mixed);
    }
}

#[test]
fn round_trip_varied_lengths() {
    for len in 0..300 {
        let mut s = String::new();
        while s.len() < len {
            match s.len() % 11 {
                0 => s.push('\\'),
                3 => s.push('"'),
                5 => s.push('\x1F'),
                8 => s.push('ß'),
                _ => s.push('x'),
            }
        }
        check_round_trip(&s);
    }
}
