//! Length-prefixed text views and their rendering.

use vstd::prelude::*;
use vstd::string::StringExecFns;

use crate::bin_decode::{ParseError, Reader};
use crate::format::p_str;
use crate::text::{cesu8_decode, java_cesu8_of};

verus! {

/// What the std Debug formatting of text yields; it depends on the
/// characters alone.
pub uninterp spec fn debug_quoted_of(s: Seq<char>) -> Seq<char>;

/// Relies on the std Debug formatting of `str`: the quoted, escaped
/// rendering of the characters, a function of the characters alone.
#[verifier::external_body]
fn debug_quoted(s: &str) -> (r: String)
    ensures
        r@ == debug_quoted_of(s@),
{
    format!("{:?}", s)
}

/// Relies on char's ToString: the string holding exactly that
/// character.
#[verifier::external_body]
fn char_to_string(c: char) -> (r: String)
    ensures
        r@ == seq![c],
{
    c.to_string()
}

/// A lowercase hex digit, for values below 16.
pub open spec fn hex_lower_digit(n: u8) -> char {
    if n < 10 {
        (0x30 + n) as char
    } else {
        (0x57 + n) as char
    }
}

/// An uppercase hex digit, for values below 16.
pub open spec fn hex_upper_digit(n: u8) -> char {
    if n < 10 {
        (0x30 + n) as char
    } else {
        (0x37 + n) as char
    }
}

/// The decimal digits of a number, most significant first.
pub open spec fn dec_digits(n: nat) -> Seq<char>
    decreases n,
{
    if n < 10 {
        seq![hex_lower_digit(n as u8)]
    } else {
        dec_digits(n / 10).push(hex_lower_digit((n % 10) as u8))
    }
}

/// The lowercase hex digits of a number, most significant first.
pub open spec fn hex_digits(n: nat) -> Seq<char>
    decreases n,
{
    if n < 16 {
        seq![hex_lower_digit(n as u8)]
    } else {
        hex_digits(n / 16).push(hex_lower_digit((n % 16) as u8))
    }
}

/// Renders a number in decimal.
pub(crate) fn dec_string(n: u64) -> (r: String)
    ensures
        r@ == dec_digits(n as nat),
    decreases n,
{
    if n < 10 {
        char_to_string(hex_digit_lower(n as u8))
    } else {
        let mut s = dec_string(n / 10);
        let d = char_to_string(hex_digit_lower((n % 10) as u8));
        s.append(d.as_str());
        proof {
            assert(dec_digits((n / 10) as nat) + seq![hex_lower_digit((n % 10) as u8)]
                =~= dec_digits(n as nat));
        }
        s
    }
}

/// Renders a number in lowercase hex.
pub(crate) fn hex_string(n: u64) -> (r: String)
    ensures
        r@ == hex_digits(n as nat),
    decreases n,
{
    if n < 16 {
        char_to_string(hex_digit_lower(n as u8))
    } else {
        let mut s = hex_string(n / 16);
        let d = char_to_string(hex_digit_lower((n % 16) as u8));
        s.append(d.as_str());
        proof {
            assert(hex_digits((n / 16) as nat) + seq![hex_lower_digit((n % 16) as u8)]
                =~= hex_digits(n as nat));
        }
        s
    }
}

/// How one raw byte is rendered when text does not decode: NUL as a
/// two-character escape, ASCII as the default char escape, and bytes
/// past ASCII as an uppercase hex escape.
pub open spec fn escape_byte(b: u8) -> Seq<char> {
    if b == 0 {
        seq!['\\', '0']
    } else if b == 0x09 {
        seq!['\\', 't']
    } else if b == 0x0a {
        seq!['\\', 'n']
    } else if b == 0x0d {
        seq!['\\', 'r']
    } else if b == 0x22 {
        seq!['\\', '"']
    } else if b == 0x27 {
        seq!['\\', '\'']
    } else if b == 0x5c {
        seq!['\\', '\\']
    } else if 0x20 <= b && b < 0x7f {
        seq![b as char]
    } else if b < 0x80 {
        if b < 0x10 {
            seq!['\\', 'u', '{', hex_lower_digit(b), '}']
        } else {
            seq!['\\', 'u', '{', hex_lower_digit(b / 16), hex_lower_digit(b % 16), '}']
        }
    } else {
        seq!['\\', 'x', hex_upper_digit(b / 16), hex_upper_digit(b % 16)]
    }
}

pub open spec fn escape_bytes(bs: Seq<u8>) -> Seq<char>
    decreases bs.len(),
{
    if bs.len() == 0 {
        Seq::empty()
    } else {
        escape_byte(bs.first()) + escape_bytes(bs.drop_first())
    }
}

/// A borrowed view of one length-prefixed run of modified-UTF-8 text.
/// Decoding to native text is a separate, fallible operation that no
/// structural parse depends on.
#[derive(Copy, Clone)]
pub struct NbtString<'a> {
    data: &'a [u8],
}

impl<'a> View for NbtString<'a> {
    type V = Seq<u8>;

    closed spec fn view(&self) -> Seq<u8> {
        self.data@
    }
}

impl<'a> NbtString<'a> {
    /// Wraps raw text bytes.
    pub fn new(data: &'a [u8]) -> (r: NbtString<'a>)
        ensures
            r@ == data@,
    {
        NbtString { data }
    }

    /// Reads a 2-byte big-endian length, then that many raw bytes.
    pub fn read(reader: &mut Reader<'a>) -> (r: Result<NbtString<'a>, ParseError>)
        requires
            old(reader).wf(),
        ensures
            final(reader).wf(),
            final(reader).data() == old(reader).data(),
            match r {
                Ok(s) => {
                    &&& p_str(old(reader).data(), old(reader).pos()) == Ok::<_, ParseError>(
                        (s@, final(reader).pos()),
                    )
                    &&& old(reader).pos() < final(reader).pos() <= final(reader).data().len()
                },
                Err(e) => p_str(old(reader).data(), old(reader).pos()) == Err::<
                    (Seq<u8>, int),
                    _,
                >(e),
            },
    {
        let prefix = match reader.advance(2) {
            Ok(s) => s,
            Err(e) => {
                return Err(e);
            },
        };
        assert(prefix@.len() == 2);
        let n: u16 = (prefix[0] as u16) * 0x100 + (prefix[1] as u16);
        let data = match reader.advance(n as usize) {
            Ok(s) => s,
            Err(e) => {
                return Err(e);
            },
        };
        Ok(NbtString { data })
    }

    /// The raw bytes of the text.
    pub fn as_bytes(&self) -> (r: &[u8])
        ensures
            r@ == self@,
    {
        self.data
    }

    /// Attempts to decode the text to native form; fails exactly when
    /// the bytes are not valid modified UTF-8.
    pub fn decode(&self) -> (r: Result<String, cesu8::Cesu8DecodingError>)
        ensures
            match r {
                Ok(s) => java_cesu8_of(self@) == Some(s@),
                Err(_) => java_cesu8_of(self@) is None,
            },
    {
        cesu8_decode(self.data)
    }

    /// The quoted rendering of the text: decoded and escaped as native
    /// text where it decodes, and byte-by-byte escapes otherwise.
    pub fn debug_string(&self) -> (r: String)
        ensures
            match java_cesu8_of(self@) {
                Some(s) => r@ == debug_quoted_of(s),
                None => r@ == seq!['"'] + escape_bytes(self@) + seq!['"'],
            },
    {
        match self.decode() {
            Ok(s) => debug_quoted(s.as_str()),
            Err(_) => {
                let mut out = String::new();
                proof {
                    reveal_strlit("\"");
                }
                out.append("\"");
                let mut i: usize = 0;
                assert(out@ =~= seq!['"'] + escape_bytes(self@.subrange(0, 0)));
                while i < self.data.len()
                    invariant
                        i <= self.data@.len(),
                        out@ == seq!['"'] + escape_bytes(self@.subrange(0, i as int)),
                    decreases self.data@.len() - i,
                {
                    let b = self.data[i];
                    append_escaped(&mut out, b);
                    proof {
                        let pre = self@.subrange(0, i as int);
                        assert(self@.subrange(0, i + 1) =~= pre.push(b));
                        lemma_escape_bytes_push(pre, b);
                        assert(seq!['"'] + escape_bytes(pre.push(b)) =~= (seq!['"'] + escape_bytes(
                            pre,
                        )) + escape_byte(b));
                    }
                    i = i + 1;
                }
                proof {
                    assert(self@.subrange(0, self@.len() as int) =~= self@);
                    reveal_strlit("\"");
                }
                out.append("\"");
                assert(out@ =~= seq!['"'] + escape_bytes(self@) + seq!['"']);
                out
            },
        }
    }
}

/// Appending one byte to the rendered text appends that byte's escape.
proof fn lemma_escape_bytes_push(bs: Seq<u8>, b: u8)
    ensures
        escape_bytes(bs.push(b)) == escape_bytes(bs) + escape_byte(b),
    decreases bs.len(),
{
    let e = bs.push(b);
    if bs.len() == 0 {
        assert(e.len() == 1);
        assert(e.first() == b);
        assert(e.drop_first() =~= Seq::<u8>::empty());
        assert(escape_bytes(e.drop_first()) == Seq::<char>::empty());
        assert(escape_bytes(e) == escape_byte(b) + Seq::<char>::empty());
        assert(escape_bytes(bs) == Seq::<char>::empty());
        assert(escape_bytes(e) =~= escape_bytes(bs) + escape_byte(b));
    } else {
        assert(e.len() == bs.len() + 1);
        assert(e.first() == bs.first());
        assert(e.drop_first() =~= bs.drop_first().push(b));
        lemma_escape_bytes_push(bs.drop_first(), b);
        assert(escape_bytes(e) == escape_byte(bs.first()) + escape_bytes(bs.drop_first().push(b)));
        assert(escape_bytes(e) =~= (escape_byte(bs.first()) + escape_bytes(bs.drop_first()))
            + escape_byte(b));
    }
}

/// Writes the escape of one byte onto the output.
fn append_escaped(out: &mut String, b: u8)
    ensures
        final(out)@ == old(out)@ + escape_byte(b),
{
    if b == 0 {
        proof {
            reveal_strlit("\\0");
        }
        out.append("\\0");
        assert(old(out)@ + "\\0"@ =~= old(out)@ + escape_byte(b));
    } else if b == 0x09 {
        proof {
            reveal_strlit("\\t");
        }
        out.append("\\t");
        assert(old(out)@ + "\\t"@ =~= old(out)@ + escape_byte(b));
    } else if b == 0x0a {
        proof {
            reveal_strlit("\\n");
        }
        out.append("\\n");
        assert(old(out)@ + "\\n"@ =~= old(out)@ + escape_byte(b));
    } else if b == 0x0d {
        proof {
            reveal_strlit("\\r");
        }
        out.append("\\r");
        assert(old(out)@ + "\\r"@ =~= old(out)@ + escape_byte(b));
    } else if b == 0x22 {
        proof {
            reveal_strlit("\\\"");
        }
        out.append("\\\"");
        assert(old(out)@ + "\\\""@ =~= old(out)@ + escape_byte(b));
    } else if b == 0x27 {
        proof {
            reveal_strlit("\\'");
        }
        out.append("\\'");
        assert(old(out)@ + "\\'"@ =~= old(out)@ + escape_byte(b));
    } else if b == 0x5c {
        proof {
            reveal_strlit("\\\\");
        }
        out.append("\\\\");
        assert(old(out)@ + "\\\\"@ =~= old(out)@ + escape_byte(b));
    } else if 0x20 <= b && b < 0x7f {
        let s = char_to_string(b as char);
        out.append(s.as_str());
        assert(old(out)@ + seq![b as char] =~= old(out)@ + escape_byte(b));
    } else if b < 0x80 {
        proof {
            reveal_strlit("\\u{");
            reveal_strlit("}");
        }
        out.append("\\u{");
        if b < 0x10 {
            let d = char_to_string(hex_digit_lower(b));
            out.append(d.as_str());
        } else {
            let hi = char_to_string(hex_digit_lower(b / 16));
            out.append(hi.as_str());
            let lo = char_to_string(hex_digit_lower(b % 16));
            out.append(lo.as_str());
        }
        out.append("}");
        assert(final(out)@ =~= old(out)@ + escape_byte(b));
    } else {
        proof {
            reveal_strlit("\\x");
        }
        out.append("\\x");
        let hi = char_to_string(hex_digit_upper(b / 16));
        out.append(hi.as_str());
        let lo = char_to_string(hex_digit_upper(b % 16));
        out.append(lo.as_str());
        assert(final(out)@ =~= old(out)@ + escape_byte(b));
    }
}

fn hex_digit_lower(n: u8) -> (r: char)
    requires
        n < 16,
    ensures
        r == hex_lower_digit(n),
{
    if n < 10 {
        (0x30 + n) as char
    } else {
        (0x57 + n) as char
    }
}

fn hex_digit_upper(n: u8) -> (r: char)
    requires
        n < 16,
    ensures
        r == hex_upper_digit(n),
{
    if n < 10 {
        (0x30 + n) as char
    } else {
        (0x37 + n) as char
    }
}

} // verus!
