//! Every scan path must produce byte-identical output to a reference
//! JSON encoder, over the lengths that exercise each width's main loop,
//! tail, and boundary handling, at every alignment of the content.
use json_escape::generic::{escape_generic, escape_into_generic};
use json_escape::{escape, escape_into, v128, v256, v512};

fn all_paths(s: &str) -> Vec<Vec<u8>> {
    let mut outs = Vec::new();
    outs.push(escape(s).into_bytes());
    outs.push(escape_generic(s).into_bytes());
    let mut b = Vec::new();
    escape_into(s, &mut b);
    outs.push(b);
    let mut b = Vec::new();
    escape_into_generic(s, &mut b);
    outs.push(b);
    let mut b = Vec::new();
    v128::format_string(s, &mut b);
    outs.push(b);
    let mut b = Vec::new();
    v256::format_string(s, &mut b);
    outs.push(b);
    let mut b = Vec::new();
    v512::format_string(s, &mut b);
    outs.push(b);
    outs
}

fn check_all_paths(s: &str) {
    let expected = serde_json::to_string(s).unwrap().into_bytes();
    for (i, got) in all_paths(s).into_iter().enumerate() {
        assert_eq!(got, expected, "path {} differs on {:?}", i, s);
    }
}

/// A string of the given length whose content mixes clean bytes with
/// escapes at varying positions.
fn sample(len: usize, phase: usize) -> String {
    let mut s = String::new();
    while s.len() < len {
        let k = (s.len() + phase) % 23;
        match k {
            0 => s.push('"'),
            7 => s.push('\\'),
            11 => s.push('\n'),
            13 => s.push('\x01'),
            17 => s.push('é'),
            _ => s.push((b'a' + (k as u8)) as char),
        }
    }
    while s.len() > len {
        s.pop();
    }
    while s.len() < len {
        s.push('z');
    }
    s
}

#[test]
fn equivalence_across_paths_short() {
    for len in 0..200 {
        check_all_paths(&sample(len, 0));
        check_all_paths(&sample(len, 5));
    }
}

#[test]
fn equivalence_across_paths_long() {
    for len in (200..600).step_by(7) {
        check_all_paths(&sample(len, 0));
        check_all_paths(&sample(len, 3));
    }
    check_all_paths(&"a".repeat(600));
    check_all_paths(&"\"".repeat(600));
}

#[test]
fn boundary_exact_window_widths() {
    for w in [16usize, 32, 64] {
        for len in [w - 1, w, w + 1, 2 * w - 1, 2 * w, 2 * w + 1] {
            check_all_paths(&"a".repeat(len));
            // an escape at the very last byte
            let mut s = "a".repeat(len - 1);
            s.push('\\');
            check_all_paths(&s);
            // an escape at the very first byte
            let mut s = String::from("\t");
            s.push_str(&"a".repeat(len - 1));
            check_all_paths(&s);
            check_all_paths(&sample(len, 1));
        }
    }
}

#[test]
fn alignment_independence() {
    let content = "test\nstring\"with\\escapes and some length to it";
    let expected = serde_json::to_string(content).unwrap().into_bytes();
    for offset in 0..128 {
        let padded = format!("{}{}", " ".repeat(offset), content);
        let sliced = &padded[offset..];
        for (i, got) in all_paths(sliced).into_iter().enumerate() {
            assert_eq!(got, expected, "path {} differs at offset {}", i, offset);
        }
    }
}

#[test]
fn escape_into_appends() {
    let mut buf = b"prefix:".to_vec();
    escape_into("a\"b", &mut buf);
    assert_eq!(buf, b"prefix:\"a\\\"b\"".to_vec());
    escape_into("x", &mut buf);
    assert_eq!(buf, b"prefix:\"a\\\"b\"\"x\"".to_vec());
}

#[test]
fn escape_into_generic_appends() {
    let mut buf = b"p".to_vec();
    escape_into_generic("\u{1F600} ok", &mut buf);
    let mut expected = b"p".to_vec();
    expected.extend_from_slice(serde_json::to_string("\u{1F600} ok").unwrap().as_bytes());
    assert_eq!(buf, expected);
}
