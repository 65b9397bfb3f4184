//! Renderers for byte buffers: every byte as a `\xNN` escape, or printable
//! ASCII passed through and everything else escaped.

use vstd::prelude::*;

verus! {

/// The sixteen lower-case hexadecimal digits, by value.
pub open spec fn hex_digits() -> Seq<char> {
    seq!['0', '1', '2', '3', '4', '5', '6', '7', '8', '9', 'a', 'b', 'c', 'd', 'e', 'f']
}

/// The digit that stands for `n`, for `n < 16`.
pub open spec fn hex_digit(n: u8) -> char {
    hex_digits()[n as int]
}

/// The escape `\xNN` of one byte: a backslash, an `x`, and the byte's two
/// hexadecimal digits, high one first.
pub open spec fn hex_escape(b: u8) -> Seq<char> {
    seq!['\\', 'x', hex_digit(b / 16), hex_digit(b % 16)]
}

/// Whether `b` is a printable ASCII character other than the space:
/// `!` (0x21) up to `~` (0x7e).
pub open spec fn is_graphic(b: u8) -> bool {
    0x21 <= b <= 0x7e
}

/// How `hexbuf_str` writes one byte: a backslash and a double quote get a
/// backslash in front, any other printable ASCII character stands for itself,
/// and every other byte is escaped as `\xNN`.
pub open spec fn str_escape(b: u8) -> Seq<char> {
    if b == 0x5c {
        seq!['\\', '\\']
    } else if b == 0x22 {
        seq!['\\', '"']
    } else if is_graphic(b) {
        seq![b as char]
    } else {
        hex_escape(b)
    }
}

/// The escapes of all bytes of `bytes`, one after the other.
pub open spec fn hex_body(bytes: Seq<u8>) -> Seq<char>
    decreases bytes.len(),
{
    if bytes.len() == 0 {
        Seq::empty()
    } else {
        hex_body(bytes.drop_last()) + hex_escape(bytes.last())
    }
}

/// What `hexbuf_str` writes for all bytes of `bytes`, one after the other.
pub open spec fn str_body(bytes: Seq<u8>) -> Seq<char>
    decreases bytes.len(),
{
    if bytes.len() == 0 {
        Seq::empty()
    } else {
        str_body(bytes.drop_last()) + str_escape(bytes.last())
    }
}

/// The text of a buffer in `\xNN` notation: `b"`, the escapes, `"`.
pub open spec fn hexbuf_text(bytes: Seq<u8>) -> Seq<char> {
    seq!['b', '"'] + hex_body(bytes) + seq!['"']
}

/// The text of a buffer with printable ASCII passed through: `b"`, the
/// bytes as `str_escape` writes them, `"`.
pub open spec fn hexbuf_str_text(bytes: Seq<u8>) -> Seq<char> {
    seq!['b', '"'] + str_body(bytes) + seq!['"']
}

/// A buffer of `n` bytes takes `4 * n + 3` characters in `\xNN` notation.
pub proof fn lemma_hexbuf_text_len(bytes: Seq<u8>)
    ensures
        hex_body(bytes).len() == 4 * bytes.len(),
        hexbuf_text(bytes).len() == 4 * bytes.len() + 3,
    decreases bytes.len(),
{
    if bytes.len() > 0 {
        lemma_hexbuf_text_len(bytes.drop_last());
    }
}

/// `String::push` appends the character to the end of the string and leaves
/// what was there untouched.
pub assume_specification[ String::push ](s: &mut String, ch: char)
    ensures
        final(s)@ == old(s)@.push(ch),
;

fn hex_digit_of(n: u8) -> (c: char)
    requires
        n < 16,
    ensures
        c == hex_digit(n),
{
    if n < 10 {
        (48u8 + n) as char
    } else {
        (87u8 + n) as char
    }
}

fn push_hex_escape(out: &mut String, b: u8)
    ensures
        final(out)@ == old(out)@ + hex_escape(b),
{
    out.push('\\');
    out.push('x');
    out.push(hex_digit_of(b / 16));
    out.push(hex_digit_of(b % 16));
    assert(out@ =~= old(out)@ + hex_escape(b));
}

fn push_str_escape(out: &mut String, b: u8)
    ensures
        final(out)@ == old(out)@ + str_escape(b),
{
    if b == 0x5c {
        out.push('\\');
        out.push('\\');
    } else if b == 0x22 {
        out.push('\\');
        out.push('"');
    } else if 0x21 <= b && b <= 0x7e {
        out.push(b as char);
    } else {
        push_hex_escape(out, b);
    }
    assert(out@ =~= old(out)@ + str_escape(b));
}

/// Formats a buffer as hex using `\xNN` notation.
pub fn hexbuf(v: &[u8]) -> (out: String)
    ensures
        out@ == hexbuf_text(v@),
{
    let mut out = String::new();
    out.push('b');
    out.push('"');
    let mut i: usize = 0;
    while i < v.len()
        invariant
            i <= v.len(),
            out@ == seq!['b', '"'] + hex_body(v@.take(i as int)),
        decreases v.len() - i,
    {
        push_hex_escape(&mut out, v[i]);
        proof {
            assert(v@.take(i + 1).drop_last() =~= v@.take(i as int));
            assert(out@ =~= seq!['b', '"'] + hex_body(v@.take(i + 1)));
        }
        i += 1;
    }
    out.push('"');
    proof {
        assert(v@.take(i as int) =~= v@);
        assert(out@ =~= hexbuf_text(v@));
    }
    out
}

/// Formats a buffer as hex using `\xNN` notation, except for printable ASCII
/// characters.
pub fn hexbuf_str(v: &[u8]) -> (out: String)
    ensures
        out@ == hexbuf_str_text(v@),
{
    let mut out = String::new();
    out.push('b');
    out.push('"');
    let mut i: usize = 0;
    while i < v.len()
        invariant
            i <= v.len(),
            out@ == seq!['b', '"'] + str_body(v@.take(i as int)),
        decreases v.len() - i,
    {
        push_str_escape(&mut out, v[i]);
        proof {
            assert(v@.take(i + 1).drop_last() =~= v@.take(i as int));
            assert(out@ =~= seq!['b', '"'] + str_body(v@.take(i + 1)));
        }
        i += 1;
    }
    out.push('"');
    proof {
        assert(v@.take(i as int) =~= v@);
        assert(out@ =~= hexbuf_str_text(v@));
    }
    out
}

} // verus!
