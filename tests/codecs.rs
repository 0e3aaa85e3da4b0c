use irep_binary::atom_codec::{read_escaped_text, write_escaped_text};
use irep_binary::error::FormatError;
use irep_binary::varint::{encode_usize, read_usize_varenc, write_usize_varenc};

#[test]
fn varint_of_300() {
    assert_eq!(encode_usize(300), vec![0xAC, 0x02]);
    assert_eq!(read_usize_varenc(&[0xAC, 0x02], 0), Ok((300, 2)));
}

#[test]
fn varint_edges_round_trip() {
    for x in [0usize, 1, 127, 128, 16383, 16384, usize::MAX - 1, usize::MAX] {
        let mut buf = vec![9u8];
        write_usize_varenc(&mut buf, x);
        buf.push(7);
        let (v, end) = read_usize_varenc(&buf, 1).unwrap();
        assert_eq!(v, x);
        assert_eq!(buf[end], 7);
    }
    assert_eq!(encode_usize(0), vec![0]);
    assert_eq!(encode_usize(usize::MAX).len(), 10);
}

#[test]
fn varint_truncated_and_overlong_fail() {
    let bytes = encode_usize(usize::MAX);
    for k in 0..bytes.len() {
        assert_eq!(read_usize_varenc(&bytes[..k], 0), Err(FormatError::UnexpectedEnd));
    }
    let overlong = vec![0x80u8; 11];
    assert_eq!(read_usize_varenc(&overlong, 0), Err(FormatError::VarintOverflow));
    let mut eleven = vec![0x80u8; 10];
    eleven.push(0);
    assert_eq!(read_usize_varenc(&eleven, 0), Err(FormatError::VarintOverflow));
}

#[test]
fn atom_escapes_only_terminator_and_backslash() {
    let mut buf = Vec::new();
    write_escaped_text(&mut buf, "a\u{0}b\\0");
    assert_eq!(buf, vec![b'a', b'\\', 0, b'b', b'\\', b'\\', b'0', 0]);
}

#[test]
fn atom_text_round_trips() {
    let texts = ["", "plain", "nul\u{0}inside", "back\\slash\\\\", "é漢字🎉\u{0}\\", "\u{0}\u{0}"];
    let mut buf = Vec::new();
    for t in texts.iter() {
        write_escaped_text(&mut buf, t);
    }
    let mut pos = 0;
    for t in texts.iter() {
        let (back, next) = read_escaped_text(&buf, pos).unwrap();
        assert_eq!(back, *t);
        pos = next;
    }
    assert_eq!(pos, buf.len());
}

#[test]
fn atom_read_errors() {
    assert_eq!(read_escaped_text(b"abc", 0), Err(FormatError::UnexpectedEnd));
    assert_eq!(read_escaped_text(b"ab\\", 0), Err(FormatError::UnexpectedEnd));
    assert_eq!(read_escaped_text(&[0xc3, 0x28, 0], 0), Err(FormatError::InvalidText));
}
