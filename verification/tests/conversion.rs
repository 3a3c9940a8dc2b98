use base64::Engine;
use regex::Regex;
use unbox::crc::crc32;
use unbox::txt_converter::{convert_line, convert_lines, cuts_cleanly, CrcStats, Message};

/// The conversion of one line as the `regex` crate finds its header.
fn reference(line: &str) -> Option<(u64, u64, u64, bool, String)> {
    let re =
        Regex::new(r"\{\s*timestamp:\s*(\d+)\s*,\s*len:\s*(\d+)\s*,\s*crc:\s*(\d+)\s*,\s*data:\s*\{")
            .unwrap();
    let line = line.trim();
    if line.is_empty() {
        return None;
    }
    let caps = re.captures(line)?;
    let timestamp: u64 = caps[1].parse().unwrap_or(0);
    let len: u64 = caps[2].parse().unwrap_or(0);
    let crc: u64 = caps[3].parse().unwrap_or(0);
    let start = caps.get(0).unwrap().end();
    let raw = if start < line.len() {
        let rest = &line[start..];
        let take = (len as usize).min(rest.len());
        &rest[..take]
    } else {
        ""
    };
    let bytes = raw.as_bytes();
    let valid = crc32(bytes) as u64 == crc;
    let data = base64::engine::general_purpose::STANDARD.encode(bytes);
    Some((timestamp, len, crc, valid, data))
}

fn fields(m: &Message) -> (u64, u64, u64, bool, String) {
    (m.timestamp, m.len, m.crc, m.crc_valid, m.data.clone())
}

fn check_against_reference(line: &str) {
    assert!(cuts_cleanly(line));
    let ours = convert_line(line).map(|m| fields(&m));
    assert_eq!(ours, reference(line), "line: {line:?}");
}

#[test]
fn crc32_check_value() {
    assert_eq!(crc32(b"123456789"), 0xCBF4_3926);
    assert_eq!(crc32(b""), 0);
    assert_eq!(crc32(b"a"), 0xE8B7_BE43);
}

#[test]
fn readme_line() {
    let line = "{ timestamp: 947021796826019136, len: 170, crc: 4248255101, data: {ChassisReport { speed: 0.000000, ... }} }";
    let m = convert_line(line).unwrap();
    assert_eq!(m.timestamp, 947021796826019136);
    assert_eq!(m.len, 170);
    assert_eq!(m.crc, 4248255101);
    assert!(!m.crc_valid);
    assert_eq!(m.data, "Q2hhc3Npc1JlcG9ydCB7IHNwZWVkOiAwLjAwMDAwMCwgLi4uIH19IH0=");
    check_against_reference(line);
}

#[test]
fn payload_is_cut_to_len_and_checked() {
    // "hello" has CRC-32 907060870
    let line = "{timestamp:1,len:5,crc:907060870,data:{hello world}}";
    let m = convert_line(line).unwrap();
    assert_eq!(m.data, "aGVsbG8=");
    assert!(m.crc_valid);
    check_against_reference(line);
}

#[test]
fn base64_padding() {
    for (len, data) in [(0, ""), (1, "aA=="), (2, "aGU="), (3, "aGVs"), (4, "aGVsbA==")] {
        let line = format!("{{timestamp:1,len:{len},crc:0,data:{{hello");
        let m = convert_line(&line).unwrap();
        assert_eq!(m.data, data);
        check_against_reference(&line);
    }
}

#[test]
fn lines_without_header() {
    for line in ["", "   \t  ", "hello", "{ timestamp: x, len: 1, crc: 2, data: {a}", "{timestamp:1,len:2,crc:3,data:", "{timestamp:1 len:2,crc:3,data:{a"] {
        assert!(convert_line(line).is_none(), "line: {line:?}");
        check_against_reference(line);
    }
}

#[test]
fn header_with_unicode_space_and_digits() {
    // U+3000 is white space; U+0663 is an Arabic-Indic digit, which the
    // pattern accepts and the number parser does not.
    let lines = [
        "\u{3000}{\u{3000}timestamp:\u{2003}12 ,len:3,crc:\u{a0}4,data:\u{85}{abcdef}\u{2029}",
        "{timestamp:\u{663}\u{664},len:2,crc:7,data:{xyz",
        "{timestamp:1,len:99999999999999999999,crc:7,data:{xyz",
        "noise {timestamp:5,len:1,crc:9} {timestamp:6,len:2,crc:1,data:{pq} {timestamp:7,len:1,crc:1,data:{z",
        "{ TIMESTAMP: 1, len: 1, crc: 1, data: {a}",
        "\u{feff}{timestamp:1,len:1,crc:1,data:{a",
    ];
    for line in lines {
        check_against_reference(line);
    }
    let m = convert_line(lines[1]).unwrap();
    assert_eq!(m.timestamp, 0);
    let m = convert_line(lines[2]).unwrap();
    assert_eq!(m.len, 0);
    assert_eq!(m.data, "");
    let m = convert_line(lines[3]).unwrap();
    assert_eq!(m.timestamp, 6);
}

#[test]
fn multibyte_payload() {
    // 'é' takes two bytes: a cut after three bytes ends inside it
    let clean = "{timestamp:1,len:3,crc:0,data:{aé}";
    check_against_reference(clean);
    let unclean = "{timestamp:1,len:2,crc:0,data:{aé}";
    assert!(!cuts_cleanly(unclean));
    let before_data = "{timestamp:1,len:1,crc:0,data:{é}";
    assert!(!cuts_cleanly(before_data));
    assert!(cuts_cleanly("no header é"));
}

#[test]
fn file_statistics() {
    let lines: Vec<String> = vec![
        "{timestamp:1,len:5,crc:907060870,data:{hello}".to_string(),
        "".to_string(),
        "garbage".to_string(),
        "{timestamp:2,len:5,crc:1,data:{hello}".to_string(),
        "  {timestamp:3,len:0,crc:0,data:{}  ".to_string(),
    ];
    let (messages, stats) = convert_lines(&lines);
    assert_eq!(messages.len(), 3);
    assert_eq!((stats.total, stats.passed, stats.failed), (3, 2, 1));
    assert_eq!(messages[0].timestamp, 1);
    assert_eq!(messages[1].timestamp, 2);
    assert_eq!(messages[2].timestamp, 3);
    assert!(messages[2].crc_valid);
    let _: CrcStats = stats.clone();
}

#[test]
fn no_lines_no_messages() {
    let (messages, stats) = convert_lines(&Vec::new());
    assert!(messages.is_empty());
    assert_eq!((stats.total, stats.passed, stats.failed), (0, 0, 0));
}

#[test]
fn lines_are_converted_independently() {
    let a = vec!["{timestamp:1,len:1,crc:0,data:{a".to_string(), "x".to_string()];
    let b = vec!["{timestamp:2,len:1,crc:0,data:{b".to_string()];
    let ab: Vec<String> = a.iter().chain(b.iter()).cloned().collect();
    let (ma, sa) = convert_lines(&a);
    let (mb, sb) = convert_lines(&b);
    let (mab, sab) = convert_lines(&ab);
    let joined: Vec<_> = ma.iter().chain(mb.iter()).map(fields).collect();
    assert_eq!(mab.iter().map(fields).collect::<Vec<_>>(), joined);
    assert_eq!(sab.total, sa.total + sb.total);
    assert_eq!(sab.passed, sa.passed + sb.passed);
}

#[test]
fn character_classes_agree_with_std_and_regex() {
    let digit = Regex::new(r"^\d$").unwrap();
    let space = Regex::new(r"^\s$").unwrap();
    let mut buf = [0u8; 4];
    for c in (0u32..=0x10FFFF).filter_map(char::from_u32) {
        let s: &str = c.encode_utf8(&mut buf);
        assert_eq!(unbox::unicode::white_space(c), c.is_whitespace(), "char {c:?}");
        assert_eq!(unbox::unicode::white_space(c), space.is_match(s), "char {c:?}");
        assert_eq!(unbox::unicode::decimal_number(c), digit.is_match(s), "char {c:?}");
    }
}

#[test]
fn crc32_laws_on_values() {
    let a = b"timestamp".to_vec();
    let b = b"0123456789"[..9].to_vec();
    let c = b"CRC-32 ok".to_vec();
    let x: Vec<u8> = (0..9).map(|i| a[i] ^ b[i] ^ c[i]).collect();
    assert_eq!(crc32(&x), crc32(&a) ^ crc32(&b) ^ crc32(&c));
    for k in 0..a.len() {
        for j in 0..8 {
            let mut flipped = a.clone();
            flipped[k] ^= 1 << j;
            assert_ne!(crc32(&flipped), crc32(&a));
        }
    }
}

#[test]
fn lines_without_message_change_nothing() {
    let plain = vec!["{timestamp:1,len:1,crc:0,data:{a".to_string(), "{timestamp:2,len:1,crc:0,data:{b".to_string()];
    let padded = vec![
        "".to_string(),
        "{timestamp:1,len:1,crc:0,data:{a".to_string(),
        "  ".to_string(),
        "no header here".to_string(),
        "{timestamp:2,len:1,crc:0,data:{b".to_string(),
        "{timestamp:x}".to_string(),
    ];
    let (m1, s1) = convert_lines(&plain);
    let (m2, s2) = convert_lines(&padded);
    assert_eq!(m1.iter().map(fields).collect::<Vec<_>>(), m2.iter().map(fields).collect::<Vec<_>>());
    assert_eq!((s1.total, s1.passed, s1.failed), (s2.total, s2.passed, s2.failed));
}
