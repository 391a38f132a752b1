//! Rendering a value back to bytes, as wire bytes or as a readable escape.
use crate::parse::push_char;
use crate::value::{byte_char, view_values, RESPValue, SpecValue};
use vstd::prelude::*;
use vstd::utf8::encode_utf8;

verus! {

/// How the terminator after each line is written.
#[derive(Debug, Copy, Clone, PartialEq, Eq, Structural)]
pub enum RenderMode {
    /// The protocol's own CR LF bytes.
    Wire,
    /// The four printable characters `\r\n`, for diagnostics.
    Debug,
}

/// The bytes written where a line ends.
pub open spec fn terminator(mode: RenderMode) -> Seq<u8> {
    match mode {
        RenderMode::Wire => seq![0x0du8, 0x0au8],
        RenderMode::Debug => seq![0x5cu8, 0x72u8, 0x5cu8, 0x6eu8],
    }
}

/// The decimal numeral of `n`, without leading zeros.
pub open spec fn nat_digits(n: nat) -> Seq<u8>
    decreases n,
{
    if n < 10 {
        seq![(0x30 + n) as u8]
    } else {
        nat_digits(n / 10).push((0x30 + n % 10) as u8)
    }
}

/// The decimal numeral of `i`, with a `-` in front when it is negative.
pub open spec fn int_text(i: i64) -> Seq<u8> {
    if i < 0 {
        seq![0x2du8] + nat_digits((-i) as nat)
    } else {
        nat_digits(i as nat)
    }
}

/// The rendering of a value with `t` after every line.
pub open spec fn spec_render(v: SpecValue, t: Seq<u8>) -> Seq<u8>
    decreases v,
{
    match v {
        SpecValue::Integer(i) => seq![0x3au8] + int_text(i) + t,
        SpecValue::BulkString(Some(x)) => seq![0x24u8] + nat_digits(encode_utf8(x).len()) + t
            + encode_utf8(x) + t,
        SpecValue::BulkString(None) => seq![0x24u8, 0x2du8, 0x31u8] + t,
        SpecValue::Error(x) => seq![0x2du8] + encode_utf8(x) + t,
        SpecValue::SimpleString(x) => seq![0x2bu8] + encode_utf8(x) + t,
        SpecValue::Array(Some(vs)) => seq![0x2au8] + nat_digits(vs.len()) + t + spec_render_values(
            vs,
            t,
        ),
        SpecValue::Array(None) => seq![0x2au8, 0x2du8, 0x31u8] + t,
    }
}

/// The renderings of a sequence of values, one after the other.
pub open spec fn spec_render_values(vs: Seq<SpecValue>, t: Seq<u8>) -> Seq<u8>
    decreases vs,
{
    if vs.len() == 0 {
        Seq::empty()
    } else {
        spec_render_values(vs.drop_last(), t) + spec_render(vs.last(), t)
    }
}

/// Appends the bytes of `b` to `out`.
fn append_bytes(out: &mut Vec<u8>, b: &[u8])
    ensures
        final(out)@ == old(out)@ + b@,
{
    let ghost start = out@;
    let mut i: usize = 0;
    while i < b.len()
        invariant
            i <= b@.len(),
            out@ == start + b@.subrange(0, i as int),
        decreases b@.len() - i,
    {
        proof {
            assert(b@.subrange(0, i + 1) =~= b@.subrange(0, i as int).push(b@[i as int]));
        }
        out.push(b[i]);
        i = i + 1;
    }
    proof {
        assert(b@.subrange(0, b@.len() as int) =~= b@);
    }
}

/// Appends the decimal numeral of `n`.
fn write_digits(out: &mut Vec<u8>, n: u64)
    ensures
        final(out)@ == old(out)@ + nat_digits(n as nat),
    decreases n,
{
    if n >= 10 {
        write_digits(out, n / 10);
    }
    let d = (n % 10) as u8;
    out.push(0x30 + d);
    proof {
        if n >= 10 {
            assert(old(out)@ + nat_digits((n / 10) as nat) + seq![(0x30 + d) as u8] =~= old(out)@
                + nat_digits(n as nat));
        } else {
            assert(old(out)@ + seq![(0x30 + d) as u8] =~= old(out)@ + nat_digits(n as nat));
        }
    }
}

/// Appends the decimal numeral of `i`.
fn write_integer(out: &mut Vec<u8>, i: i64)
    ensures
        final(out)@ == old(out)@ + int_text(i),
{
    if i < 0 {
        out.push(0x2d);
        let m: u64 = ((-(i + 1)) as u64) + 1;
        write_digits(out, m);
        proof {
            assert(old(out)@ + seq![0x2du8] + nat_digits(m as nat) =~= old(out)@ + int_text(i));
        }
    } else {
        write_digits(out, i as u64);
    }
}

/// Appends the UTF-8 bytes of `s`.
fn write_text(out: &mut Vec<u8>, s: &String)
    ensures
        final(out)@ == old(out)@ + encode_utf8(s@),
{
    let b = s.as_str().as_bytes();
    append_bytes(out, b);
}

impl RESPValue {
    /// Appends the rendering of this value, with `clrf` after every line.
    fn format(&self, out: &mut Vec<u8>, clrf: &[u8])
        ensures
            final(out)@ == old(out)@ + spec_render(self@, clrf@),
        decreases self,
    {
        let ghost t = clrf@;
        match self {
            RESPValue::Integer(i) => {
                out.push(0x3a);
                write_integer(out, *i);
                append_bytes(out, clrf);
                proof {
                    assert(old(out)@ + seq![0x3au8] + int_text(*i) + t =~= old(out)@ + spec_render(
                        self@,
                        t,
                    ));
                }
            },
            RESPValue::BulkString(Some(s)) => {
                out.push(0x24);
                let b = s.as_str().as_bytes();
                write_digits(out, b.len() as u64);
                append_bytes(out, clrf);
                append_bytes(out, b);
                append_bytes(out, clrf);
                proof {
                    assert(old(out)@ + seq![0x24u8] + nat_digits(encode_utf8(s@).len()) + t
                        + encode_utf8(s@) + t =~= old(out)@ + spec_render(self@, t));
                }
            },
            RESPValue::BulkString(None) => {
                out.push(0x24);
                out.push(0x2d);
                out.push(0x31);
                append_bytes(out, clrf);
                proof {
                    assert(old(out)@ + seq![0x24u8, 0x2du8, 0x31u8] + t =~= old(out)@ + spec_render(
                        self@,
                        t,
                    ));
                }
            },
            RESPValue::Error(s) => {
                out.push(0x2d);
                write_text(out, s);
                append_bytes(out, clrf);
                proof {
                    assert(old(out)@ + seq![0x2du8] + encode_utf8(s@) + t =~= old(out)@
                        + spec_render(self@, t));
                }
            },
            RESPValue::SimpleString(s) => {
                out.push(0x2b);
                write_text(out, s);
                append_bytes(out, clrf);
                proof {
                    assert(old(out)@ + seq![0x2bu8] + encode_utf8(s@) + t =~= old(out)@
                        + spec_render(self@, t));
                }
            },
            RESPValue::Array(Some(values)) => {
                out.push(0x2a);
                write_digits(out, values.len() as u64);
                append_bytes(out, clrf);
                let ghost head = out@;
                let ghost vs = view_values(values@);
                let mut i: usize = 0;
                while i < values.len()
                    invariant
                        i <= values@.len(),
                        *self == RESPValue::Array(Some(*values)),
                        vs == view_values(values@),
                        t == clrf@,
                        out@ == head + spec_render_values(vs.take(i as int), t),
                    decreases values@.len() - i,
                {
                    proof {
                        vstd::std_specs::vec::axiom_vec_index_decreases(*values, i as int);
                        let ghost a = *self;
                        assert(decreases_to!(a => a->Array_0));
                        assert(decreases_to!(a->Array_0 => a->Array_0->0));
                    }
                    values[i].format(out, clrf);
                    proof {
                        assert(vs.take(i + 1).drop_last() =~= vs.take(i as int));
                    }
                    i = i + 1;
                }
                proof {
                    assert(vs.take(vs.len() as int) =~= vs);
                    assert(old(out)@ + seq![0x2au8] + nat_digits(vs.len()) + t
                        + spec_render_values(vs, t) =~= old(out)@ + spec_render(self@, t));
                }
            },
            RESPValue::Array(None) => {
                out.push(0x2a);
                out.push(0x2d);
                out.push(0x31);
                append_bytes(out, clrf);
                proof {
                    assert(old(out)@ + seq![0x2au8, 0x2du8, 0x31u8] + t =~= old(out)@ + spec_render(
                        self@,
                        t,
                    ));
                }
            },
        }
    }

    /// The bytes of this value in the given mode.
    pub fn render(&self, mode: RenderMode) -> (r: Vec<u8>)
        ensures
            r@ == spec_render(self@, terminator(mode)),
    {
        let clrf: Vec<u8> = match mode {
            RenderMode::Wire => vec![0x0d, 0x0a],
            RenderMode::Debug => vec![0x5c, 0x72, 0x5c, 0x6e],
        };
        let mut out: Vec<u8> = Vec::new();
        self.format(&mut out, clrf.as_slice());
        proof {
            assert(clrf@ =~= terminator(mode));
            assert(Seq::<u8>::empty() + spec_render(self@, terminator(mode)) =~= spec_render(
                self@,
                terminator(mode),
            ));
        }
        out
    }
}

/// A byte as readable text: CR and LF as the escapes `\r` and `\n`, any other
/// byte as the character of its code point.
pub open spec fn escape_byte(b: u8) -> Seq<char> {
    if b == 0x0d {
        seq!['\\', 'r']
    } else if b == 0x0a {
        seq!['\\', 'n']
    } else {
        seq![byte_char(b)]
    }
}

/// A byte stream as readable text, byte by byte.
pub open spec fn debug_chars(b: Seq<u8>) -> Seq<char>
    decreases b.len(),
{
    if b.len() == 0 {
        Seq::empty()
    } else {
        debug_chars(b.drop_last()) + escape_byte(b.last())
    }
}

/// Turns the bytes of a message into printable text in which every CR and LF
/// is escaped.
pub fn resp_to_debug_str(bytes: &[u8]) -> (r: String)
    ensures
        r@ == debug_chars(bytes@),
{
    let mut out = String::new();
    let mut i: usize = 0;
    while i < bytes.len()
        invariant
            i <= bytes@.len(),
            out@ == debug_chars(bytes@.subrange(0, i as int)),
        decreases bytes@.len() - i,
    {
        let b = bytes[i];
        proof {
            assert(bytes@.subrange(0, i + 1).drop_last() =~= bytes@.subrange(0, i as int));
        }
        if b == 0x0d {
            push_char(&mut out, '\\');
            push_char(&mut out, 'r');
        } else if b == 0x0a {
            push_char(&mut out, '\\');
            push_char(&mut out, 'n');
        } else {
            push_char(&mut out, b as char);
        }
        proof {
            assert(out@ =~= debug_chars(bytes@.subrange(0, i + 1)));
        }
        i = i + 1;
    }
    proof {
        assert(bytes@.subrange(0, bytes@.len() as int) =~= bytes@);
    }
    out
}

} // verus!
