//! Encoding of atom text: the UTF-8 bytes of the text with the terminator
//! byte `0x00` and the escape byte `\` each preceded by `\`, then one
//! unescaped `0x00`.
use crate::error::FormatError;
use vstd::prelude::*;
use vstd::utf8::*;

verus! {

/// The byte that announces that the next byte is taken literally.
pub const ESCAPE: u8 = 0x5c;

/// The byte that ends an encoded atom.
pub const TERMINATOR: u8 = 0;

/// How one content byte is written.
pub open spec fn escaped_byte(c: u8) -> Seq<u8> {
    if c == TERMINATOR || c == ESCAPE {
        seq![ESCAPE, c]
    } else {
        seq![c]
    }
}

/// How a sequence of content bytes is written, before the terminator.
pub open spec fn escape(b: Seq<u8>) -> Seq<u8>
    decreases b.len(),
{
    if b.len() == 0 {
        Seq::empty()
    } else {
        escaped_byte(b[0]) + escape(b.drop_first())
    }
}

/// The bytes that stand for the atom `text` when its contents are written.
pub open spec fn atom_encoding(text: Seq<char>) -> Seq<u8> {
    escape(encode_utf8(text)).push(TERMINATOR)
}

/// Reading escaped bytes from the start of `s` up to the first unescaped
/// terminator: the content bytes and the number of bytes read, terminator
/// included; `None` where the input ends first.
pub open spec fn unescape(s: Seq<u8>) -> Option<(Seq<u8>, nat)>
    decreases s.len(),
{
    if s.len() == 0 {
        None
    } else if s[0] == TERMINATOR {
        Some((Seq::empty(), 1))
    } else if s[0] == ESCAPE {
        if s.len() < 2 {
            None
        } else {
            match unescape(s.skip(2)) {
                Some((c, n)) => Some((seq![s[1]] + c, n + 2)),
                None => None,
            }
        }
    } else {
        match unescape(s.drop_first()) {
            Some((c, n)) => Some((seq![s[0]] + c, n + 1)),
            None => None,
        }
    }
}

/// What reading an atom's contents at the start of `s` yields: its text and
/// the number of bytes read.
pub open spec fn atom_decode(s: Seq<u8>) -> Result<(Seq<char>, nat), FormatError> {
    match unescape(s) {
        None => Err(FormatError::UnexpectedEnd),
        Some((b, n)) => if valid_utf8(b) {
            Ok((decode_utf8(b), n))
        } else {
            Err(FormatError::InvalidText)
        },
    }
}

/// `r` with `c` put before its content and `k` added to its length.
pub open spec fn prefixed(c: Seq<u8>, k: nat, r: Option<(Seq<u8>, nat)>) -> Option<(Seq<u8>, nat)> {
    match r {
        Some((c2, n)) => Some((c + c2, n + k)),
        None => None,
    }
}

proof fn lemma_escape_push(b: Seq<u8>, c: u8)
    ensures
        escape(b.push(c)) == escape(b) + escaped_byte(c),
    decreases b.len(),
{
    if b.len() == 0 {
        assert(b.push(c).drop_first() =~= b);
        assert(escape(b.push(c)) =~= escaped_byte(c) + Seq::<u8>::empty());
        assert(escape(b) + escaped_byte(c) =~= escaped_byte(c));
    } else {
        assert(b.push(c).drop_first() =~= b.drop_first().push(c));
        assert(b.push(c)[0] == b[0]);
        lemma_escape_push(b.drop_first(), c);
        assert(escape(b.push(c)) =~= escape(b) + escaped_byte(c));
    }
}

/// Appends the encoding of the atom `text` to `buf`.
pub fn write_escaped_text(buf: &mut Vec<u8>, text: &str)
    ensures
        final(buf)@ == old(buf)@ + atom_encoding(text@),
{
    let bytes: &[u8] = text.as_bytes();
    let ghost start = buf@;
    let mut i: usize = 0;
    while i < bytes.len()
        invariant
            i <= bytes@.len(),
            bytes@ == encode_utf8(text@),
            buf@ == start + escape(bytes@.take(i as int)),
        decreases bytes@.len() - i,
    {
        let c: u8 = bytes[i];
        if c == TERMINATOR || c == ESCAPE {
            buf.push(ESCAPE);
        }
        buf.push(c);
        proof {
            assert(bytes@.take(i + 1) =~= bytes@.take(i as int).push(c));
            lemma_escape_push(bytes@.take(i as int), c);
        }
        i = i + 1;
    }
    buf.push(TERMINATOR);
    proof {
        assert(bytes@.take(i as int) =~= bytes@);
        assert(buf@ =~= old(buf)@ + atom_encoding(text@));
    }
}

/// Relies on `String::from_utf8`: it succeeds exactly on well-formed UTF-8,
/// and then holds the characters those bytes encode.
#[verifier::external_body]
fn string_from_utf8(bytes: Vec<u8>) -> (r: Option<String>)
    ensures
        r is Some <==> valid_utf8(bytes@),
        r is Some ==> r->0@ == decode_utf8(bytes@),
{
    String::from_utf8(bytes).ok()
}

/// Reads the contents of an atom that start at byte `pos` of `bytes`; on
/// success returns its text and the position just past its terminator.
pub fn read_escaped_text(bytes: &[u8], pos: usize) -> (r: Result<(String, usize), FormatError>)
    requires
        pos <= bytes@.len(),
    ensures
        match atom_decode(bytes@.skip(pos as int)) {
            Ok((t, n)) => r is Ok && r->Ok_0.0@ == t && r->Ok_0.1 == pos + n,
            Err(e) => r == Err::<(String, usize), FormatError>(e),
        },
        r is Ok ==> pos < r->Ok_0.1 <= bytes@.len(),
{
    let ghost whole = bytes@.skip(pos as int);
    let mut content: Vec<u8> = Vec::new();
    let mut i: usize = pos;
    loop
        invariant
            pos <= i <= bytes@.len(),
            whole == bytes@.skip(pos as int),
            unescape(whole) == prefixed(content@, (i - pos) as nat, unescape(bytes@.skip(i as int))),
        decreases bytes@.len() - i,
    {
        let ghost rest = bytes@.skip(i as int);
        if i >= bytes.len() {
            return Err(FormatError::UnexpectedEnd);
        }
        let c: u8 = bytes[i];
        assert(rest[0] == c);
        if c == TERMINATOR {
            proof {
                assert(content@ + Seq::<u8>::empty() =~= content@);
            }
            match string_from_utf8(content) {
                Some(t) => {
                    return Ok((t, i + 1));
                },
                None => {
                    return Err(FormatError::InvalidText);
                },
            }
        } else if c == ESCAPE {
            if i + 1 >= bytes.len() {
                return Err(FormatError::UnexpectedEnd);
            }
            let d: u8 = bytes[i + 1];
            proof {
                assert(rest[1] == d);
                assert(rest.skip(2) =~= bytes@.skip(i + 2));
                let old_content = content@;
                assert(old_content + (seq![d] + Seq::<u8>::empty()) =~= old_content.push(d));
                match unescape(bytes@.skip(i + 2)) {
                    Some((c2, n)) => {
                        assert(old_content + (seq![d] + c2) =~= old_content.push(d) + c2);
                    },
                    None => {},
                }
            }
            content.push(d);
            i = i + 2;
        } else {
            proof {
                assert(rest.drop_first() =~= bytes@.skip(i + 1));
                let old_content = content@;
                match unescape(bytes@.skip(i + 1)) {
                    Some((c2, n)) => {
                        assert(old_content + (seq![c] + c2) =~= old_content.push(c) + c2);
                    },
                    None => {},
                }
            }
            content.push(c);
            i = i + 1;
        }
    }
}

proof fn lemma_unescape_escape(b: Seq<u8>, rest: Seq<u8>)
    ensures
        unescape(escape(b) + seq![TERMINATOR] + rest) == Some::<(Seq<u8>, nat)>(
            (b, escape(b).len() + 1),
        ),
    decreases b.len(),
{
    let s = escape(b) + seq![TERMINATOR] + rest;
    if b.len() == 0 {
        assert(escape(b) =~= Seq::<u8>::empty());
        assert(s[0] == TERMINATOR);
        assert(b =~= Seq::<u8>::empty());
    } else {
        let c = b[0];
        let t = b.drop_first();
        lemma_unescape_escape(t, rest);
        let tail = escape(t) + seq![TERMINATOR] + rest;
        let k = escaped_byte(c).len() as int;
        assert(s =~= escaped_byte(c) + tail);
        assert(s.skip(k) =~= tail);
        if c == TERMINATOR || c == ESCAPE {
            assert(s[0] == ESCAPE && s[1] == c);
        } else {
            assert(s[0] == c);
            assert(s.drop_first() =~= tail);
        }
        assert(seq![c] + t =~= b);
    }
}

/// Text law: the contents written for any atom read back as that atom, and
/// reading consumes exactly the bytes written, whatever follows them.
pub proof fn lemma_atom_round_trip(text: Seq<char>, rest: Seq<u8>)
    ensures
        atom_decode(atom_encoding(text) + rest) == Ok::<(Seq<char>, nat), FormatError>(
            (text, atom_encoding(text).len()),
        ),
{
    let b = encode_utf8(text);
    lemma_unescape_escape(b, rest);
    assert(atom_encoding(text) + rest =~= escape(b) + seq![TERMINATOR] + rest);
    encode_utf8_valid_utf8(text);
    encode_utf8_decode_utf8(text);
}

} // verus!
