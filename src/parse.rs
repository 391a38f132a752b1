//! The recursive-descent parser, stated over byte positions in the input.
use crate::num::{decimal_value, is_digit, magnitude_bound};
use crate::value::{
    byte_char, spec_tag_of, view_values, ParseError, RESPDataType, RESPValue, SpecValue,
};
use vstd::prelude::*;

verus! {

/// Whether the CR LF terminator starts at `p`.
pub open spec fn crlf_at(s: Seq<u8>, p: int) -> bool {
    0 <= p && p + 1 < s.len() && s[p] == 0x0d && s[p + 1] == 0x0a
}

/// Where the numeral that starts at `st` stops, scanning from `i`: the first
/// byte that is no digit, or the first digit that would take the value of
/// the digits from `st` past `bound`.
pub open spec fn numeral_end(s: Seq<u8>, st: int, i: int, bound: int) -> int
    decreases s.len() - i,
{
    if i < st || i >= s.len() || !is_digit(s[i]) || decimal_value(s.subrange(st, i + 1)) > bound {
        i
    } else {
        numeral_end(s, st, i + 1, bound)
    }
}

/// The first position at or after `i` where a terminator starts, if any.
pub open spec fn line_end(s: Seq<u8>, i: int) -> Option<int>
    decreases s.len() - i,
{
    if i < 0 || i + 1 >= s.len() {
        None
    } else if crlf_at(s, i) {
        Some(i)
    } else {
        line_end(s, i + 1)
    }
}

/// Bytes read as text, each byte the character of its own code point.
pub open spec fn latin1(b: Seq<u8>) -> Seq<char> {
    b.map_values(|x: u8| byte_char(x))
}

/// A terminated integer starting at `p`: an optional `-`, one or more digits
/// and CR LF, denoting a value in the range of `i64`. The byte that stops
/// the numeral is reported when it is not the CR after at least one digit;
/// a digit that would take the value out of range stops it too. Yields the
/// value and the position after the terminator.
pub open spec fn spec_parse_integer(s: Seq<u8>, p: int) -> Result<(i64, int), ParseError> {
    let neg = 0 <= p < s.len() && s[p] == 0x2d;
    let st = if neg {
        p + 1
    } else {
        p
    };
    let d = numeral_end(s, st, st, magnitude_bound(neg));
    if d < s.len() && (s[d] != 0x0d || d == st) {
        Err(ParseError::UnexpectedNonNumericCharacter(byte_char(s[d])))
    } else if !crlf_at(s, d) {
        Err(ParseError::MissingCLRF)
    } else {
        let mag = decimal_value(s.subrange(st, d));
        Ok(((if neg { -mag } else { mag }) as i64, d + 2))
    }
}

/// Whether the integer field at `p` is a negative numeral whose digits run
/// below the range of `i64`: a length field that is surely below -1.
pub open spec fn negative_beyond_range(s: Seq<u8>, p: int) -> bool {
    let d = numeral_end(s, p + 1, p + 1, magnitude_bound(true));
    &&& 0 <= p < s.len()
    &&& s[p] == 0x2d
    &&& d < s.len()
    &&& is_digit(s[d])
}

/// A length field: `None` for the null marker -1, `NegativeValueLength` for
/// any other negative value, also one below the range of `i64`.
pub open spec fn spec_parse_len(s: Seq<u8>, p: int) -> Result<(Option<int>, int), ParseError> {
    if negative_beyond_range(s, p) {
        Err(ParseError::NegativeValueLength)
    } else {
        match spec_parse_integer(s, p) {
            Err(e) => Err(e),
            Ok((n, e)) => if n >= 0 {
                Ok((Some(n as int), e))
            } else if n == -1 {
                Ok((None, e))
            } else {
                Err(ParseError::NegativeValueLength)
            },
        }
    }
}

/// A single-line text up to the first CR LF.
pub open spec fn spec_parse_line(s: Seq<u8>, p: int) -> Result<(Seq<char>, int), ParseError> {
    match line_end(s, p) {
        None => Err(ParseError::MissingCLRF),
        Some(e) => Ok((latin1(s.subrange(p, e)), e + 2)),
    }
}

/// The payload of a bulk string after its tag: fewer payload bytes than
/// the length field names is `NotEnoughBytes`; a complete payload without
/// CR LF right after it is `MissingCLRF`.
pub open spec fn spec_parse_bulk(s: Seq<u8>, p: int) -> Result<(Option<Seq<char>>, int), ParseError> {
    match spec_parse_len(s, p) {
        Err(e) => Err(e),
        Ok((None, e)) => Ok((None, e)),
        Ok((Some(n), e)) => if s.len() - e < n {
            Err(ParseError::NotEnoughBytes)
        } else if !crlf_at(s, e + n) {
            Err(ParseError::MissingCLRF)
        } else {
            Ok((Some(latin1(s.subrange(e, e + n))), e + n + 2))
        },
    }
}

/// Puts `pre` in front of the values of a successful result.
pub open spec fn prepend_values(
    pre: Seq<SpecValue>,
    r: Result<(Seq<SpecValue>, int), ParseError>,
) -> Result<(Seq<SpecValue>, int), ParseError> {
    match r {
        Ok((vs, e)) => Ok((pre + vs, e)),
        Err(x) => Err(x),
    }
}

/// The value that starts at `p`, and the position after it.
pub open spec fn spec_parse_at(s: Seq<u8>, p: int) -> Result<(SpecValue, int), ParseError>
    decreases s.len() - p, 0int,
{
    if p < 0 || p >= s.len() {
        Err(ParseError::NotEnoughBytes)
    } else {
        match spec_tag_of(s[p]) {
            None => Err(ParseError::UnknownDataType(byte_char(s[p]))),
            Some(RESPDataType::Integer) => match spec_parse_integer(s, p + 1) {
                Err(e) => Err(e),
                Ok((i, e)) => Ok((SpecValue::Integer(i), e)),
            },
            Some(RESPDataType::BulkString) => match spec_parse_bulk(s, p + 1) {
                Err(e) => Err(e),
                Ok((t, e)) => Ok((SpecValue::BulkString(t), e)),
            },
            Some(RESPDataType::SimpleString) => match spec_parse_line(s, p + 1) {
                Err(e) => Err(e),
                Ok((t, e)) => Ok((SpecValue::SimpleString(t), e)),
            },
            Some(RESPDataType::Error) => match spec_parse_line(s, p + 1) {
                Err(e) => Err(e),
                Ok((t, e)) => Ok((SpecValue::Error(t), e)),
            },
            Some(RESPDataType::Array) => match spec_parse_len(s, p + 1) {
                Err(e) => Err(e),
                Ok((None, e)) => Ok((SpecValue::Array(None), e)),
                // Always true after a length header; it bounds the recursion.
                Ok((Some(n), e)) => if p < e <= s.len() {
                    match spec_parse_values(s, e, n as nat) {
                        Err(x) => Err(x),
                        Ok((vs, e2)) => Ok((SpecValue::Array(Some(vs)), e2)),
                    }
                } else {
                    Err(ParseError::NotEnoughBytes)
                },
            },
        }
    }
}

/// `n` values in sequence from `p`, each starting where the last ended; the
/// first failure is the result.
pub open spec fn spec_parse_values(s: Seq<u8>, p: int, n: nat) -> Result<
    (Seq<SpecValue>, int),
    ParseError,
>
    decreases s.len() - p, n + 1,
{
    if n == 0 {
        Ok((Seq::empty(), p))
    } else if p < 0 || p > s.len() {
        Err(ParseError::NotEnoughBytes)
    } else {
        match spec_parse_at(s, p) {
            Err(x) => Err(x),
            // A value always ends past its start and within the input; the
            // check makes the recursion visibly decreasing.
            Ok((v, p2)) => if p < p2 <= s.len() {
                prepend_values(seq![v], spec_parse_values(s, p2, (n - 1) as nat))
            } else {
                Err(ParseError::NotEnoughBytes)
            },
        }
    }
}

/// The whole-input parse: the value at the start and the bytes after it.
pub open spec fn spec_parse(s: Seq<u8>) -> Result<(SpecValue, Seq<u8>), ParseError> {
    match spec_parse_at(s, 0) {
        Err(e) => Err(e),
        Ok((v, e)) => Ok((v, s.subrange(e, s.len() as int))),
    }
}

/// Positions reported by the executable readers, read as integers.
pub open spec fn lift_pos<T>(r: Result<(T, usize), ParseError>) -> Result<(T, int), ParseError> {
    match r {
        Ok((v, e)) => Ok((v, e as int)),
        Err(x) => Err(x),
    }
}

pub open spec fn lift_len(r: Result<(Option<u64>, usize), ParseError>) -> Result<
    (Option<int>, int),
    ParseError,
> {
    match r {
        Ok((Some(n), e)) => Ok((Some(n as int), e as int)),
        Ok((None, e)) => Ok((None, e as int)),
        Err(x) => Err(x),
    }
}

pub open spec fn lift_text(r: Result<(String, usize), ParseError>) -> Result<(Seq<char>, int), ParseError> {
    match r {
        Ok((t, e)) => Ok((t@, e as int)),
        Err(x) => Err(x),
    }
}

pub open spec fn lift_opt_text(r: Result<(Option<String>, usize), ParseError>) -> Result<
    (Option<Seq<char>>, int),
    ParseError,
> {
    match r {
        Ok((Some(t), e)) => Ok((Some(t@), e as int)),
        Ok((None, e)) => Ok((None, e as int)),
        Err(x) => Err(x),
    }
}

pub open spec fn lift_value(r: Result<(RESPValue, usize), ParseError>) -> Result<(SpecValue, int), ParseError> {
    match r {
        Ok((v, e)) => Ok((v@, e as int)),
        Err(x) => Err(x),
    }
}

/// What a call of `RESPValue::parse` returned, in terms of the model.
pub open spec fn parse_result_view(r: Result<(RESPValue, &[u8]), ParseError>) -> Result<
    (SpecValue, Seq<u8>),
    ParseError,
> {
    match r {
        Ok((v, rest)) => Ok((v@, rest@)),
        Err(x) => Err(x),
    }
}

/// Relies on std's `String::push`: appends one character to the string.
#[verifier::external_body]
pub(crate) fn push_char(s: &mut String, c: char)
    ensures
        final(s)@ == old(s)@.push(c),
{
    s.push(c)
}

/// Checks that a terminator starts at `pos` and returns the position after it.
fn validate_clrf(bytes: &[u8], pos: usize) -> (r: Result<usize, ParseError>)
    requires
        pos <= bytes@.len(),
    ensures
        crlf_at(bytes@, pos as int) ==> r == Ok::<usize, ParseError>((pos + 2) as usize),
        !crlf_at(bytes@, pos as int) ==> r == Err::<usize, ParseError>(ParseError::MissingCLRF),
{
    if bytes.len() - pos >= 2 && bytes[pos] == 0x0d && bytes[pos + 1] == 0x0a {
        Ok(pos + 2)
    } else {
        Err(ParseError::MissingCLRF)
    }
}

/// Scans the numeral that starts at `start`; returns where it stops and the
/// value of its digits.
fn scan_numeral(bytes: &[u8], start: usize, bound: u64) -> (r: (usize, u64))
    requires
        start <= bytes@.len(),
    ensures
        r.0 == numeral_end(bytes@, start as int, start as int, bound as int),
        start <= r.0 <= bytes@.len(),
        r.1 as int == decimal_value(bytes@.subrange(start as int, r.0 as int)),
        r.1 <= bound,
{
    let ghost s = bytes@;
    let len = bytes.len();
    let mut i = start;
    let mut mag: u64 = 0;
    loop
        invariant
            start <= i <= len,
            len == s.len(),
            s == bytes@,
            numeral_end(s, start as int, start as int, bound as int) == numeral_end(
                s,
                start as int,
                i as int,
                bound as int,
            ),
            mag as int == decimal_value(s.subrange(start as int, i as int)),
            mag <= bound,
        decreases len - i,
    {
        if i >= len || bytes[i] < 0x30 || bytes[i] > 0x39 {
            return (i, mag);
        }
        let d = (bytes[i] - 0x30) as u64;
        proof {
            assert(s.subrange(start as int, i + 1).drop_last() =~= s.subrange(
                start as int,
                i as int,
            ));
        }
        let next = match mag.checked_mul(10) {
            Some(m) => m.checked_add(d),
            None => None,
        };
        match next {
            Some(x) => {
                if x > bound {
                    return (i, mag);
                }
                mag = x;
                i = i + 1;
            },
            None => {
                return (i, mag);
            },
        }
    }
}

/// Reads a terminated integer at `pos`.
fn parse_integer_value(bytes: &[u8], pos: usize) -> (r: Result<(i64, usize), ParseError>)
    requires
        pos <= bytes@.len(),
    ensures
        lift_pos(r) == spec_parse_integer(bytes@, pos as int),
        r matches Ok((_, e)) ==> pos + 2 <= e <= bytes@.len(),
{
    let len = bytes.len();
    let neg = pos < len && bytes[pos] == 0x2d;
    let start = if neg {
        pos + 1
    } else {
        pos
    };
    let bound: u64 = if neg {
        0x8000_0000_0000_0000
    } else {
        0x7fff_ffff_ffff_ffff
    };
    let (i, mag) = scan_numeral(bytes, start, bound);
    if i < len && (bytes[i] != 0x0d || i == start) {
        return Err(ParseError::UnexpectedNonNumericCharacter(bytes[i] as char));
    }
    let e = match validate_clrf(bytes, i) {
        Ok(e) => e,
        Err(x) => {
            return Err(x);
        },
    };
    let v: i64 = if !neg {
        mag as i64
    } else if mag == 0x8000_0000_0000_0000 {
        i64::MIN
    } else {
        -(mag as i64)
    };
    Ok((v, e))
}

/// Reads a length field at `pos`: `None` for the null marker.
fn parse_array_len(bytes: &[u8], pos: usize) -> (r: Result<(Option<u64>, usize), ParseError>)
    requires
        pos <= bytes@.len(),
    ensures
        lift_len(r) == spec_parse_len(bytes@, pos as int),
        negative_beyond_range(bytes@, pos as int) ==> r == Err::<(Option<u64>, usize), ParseError>(
            ParseError::NegativeValueLength,
        ),
        !negative_beyond_range(bytes@, pos as int) ==> match spec_parse_integer(
            bytes@,
            pos as int,
        ) {
            Err(x) => r == Err::<(Option<u64>, usize), ParseError>(x),
            Ok((n, e)) => {
                &&& n >= 0 ==> r == Ok::<(Option<u64>, usize), ParseError>(
                    (Some(n as u64), e as usize),
                )
                &&& n == -1 ==> r == Ok::<(Option<u64>, usize), ParseError>((None, e as usize))
                &&& n < -1 ==> r == Err::<(Option<u64>, usize), ParseError>(
                    ParseError::NegativeValueLength,
                )
            },
        },
        r matches Ok((_, e)) ==> pos + 2 <= e <= bytes@.len(),
{
    if pos < bytes.len() && bytes[pos] == 0x2d {
        let (d, _) = scan_numeral(bytes, pos + 1, 0x8000_0000_0000_0000);
        if d < bytes.len() && 0x30 <= bytes[d] && bytes[d] <= 0x39 {
            return Err(ParseError::NegativeValueLength);
        }
    }
    match parse_integer_value(bytes, pos) {
        Err(x) => Err(x),
        Ok((n, e)) => {
            if n >= 0 {
                Ok((Some(n as u64), e))
            } else if n == -1 {
                Ok((None, e))
            } else {
                Err(ParseError::NegativeValueLength)
            }
        },
    }
}

/// Reads the text of a single line at `pos`, up to the first terminator.
fn parse_simple_string_contents(bytes: &[u8], pos: usize) -> (r: Result<(String, usize), ParseError>)
    requires
        pos <= bytes@.len(),
    ensures
        lift_text(r) == spec_parse_line(bytes@, pos as int),
        r matches Ok((_, e)) ==> pos + 2 <= e <= bytes@.len(),
{
    let ghost s = bytes@;
    let len = bytes.len();
    let mut out = String::new();
    let mut i = pos;
    loop
        invariant
            pos <= i <= len,
            len == s.len(),
            s == bytes@,
            line_end(s, pos as int) == line_end(s, i as int),
            out@ == latin1(s.subrange(pos as int, i as int)),
        decreases len - i,
    {
        if len - i < 2 {
            return Err(ParseError::MissingCLRF);
        }
        if bytes[i] == 0x0d && bytes[i + 1] == 0x0a {
            return Ok((out, i + 2));
        }
        proof {
            assert(latin1(s.subrange(pos as int, i + 1)) =~= latin1(
                s.subrange(pos as int, i as int),
            ).push(byte_char(s[i as int])));
        }
        push_char(&mut out, bytes[i] as char);
        i = i + 1;
    }
}

/// The bytes `from..to` read as text.
fn latin1_string(bytes: &[u8], from: usize, to: usize) -> (r: String)
    requires
        from <= to <= bytes@.len(),
    ensures
        r@ == latin1(bytes@.subrange(from as int, to as int)),
{
    let ghost s = bytes@;
    let mut out = String::new();
    let mut i = from;
    while i < to
        invariant
            from <= i <= to,
            to <= s.len(),
            s == bytes@,
            out@ == latin1(s.subrange(from as int, i as int)),
        decreases to - i,
    {
        proof {
            assert(latin1(s.subrange(from as int, i + 1)) =~= latin1(
                s.subrange(from as int, i as int),
            ).push(byte_char(s[i as int])));
        }
        push_char(&mut out, bytes[i] as char);
        i = i + 1;
    }
    out
}

/// Reads the length and payload of a bulk string at `pos`.
fn parse_bulk_string_contents(bytes: &[u8], pos: usize) -> (r: Result<
    (Option<String>, usize),
    ParseError,
>)
    requires
        pos <= bytes@.len(),
    ensures
        lift_opt_text(r) == spec_parse_bulk(bytes@, pos as int),
        r matches Ok((_, e)) ==> pos + 2 <= e <= bytes@.len(),
{
    match parse_array_len(bytes, pos) {
        Err(x) => Err(x),
        Ok((None, e)) => Ok((None, e)),
        Ok((Some(n), e)) => {
            if ((bytes.len() - e) as u64) < n {
                return Err(ParseError::NotEnoughBytes);
            }
            let end = e + n as usize;
            match validate_clrf(bytes, end) {
                Err(x) => Err(x),
                Ok(after) => Ok((Some(latin1_string(bytes, e, end)), after)),
            }
        },
    }
}

impl RESPDataType {
    /// Reads the shape tag at `pos`.
    fn from_bytes(bytes: &[u8], pos: usize) -> (r: Result<(RESPDataType, usize), ParseError>)
        requires
            pos <= bytes@.len(),
        ensures
            match r {
                Ok((t, q)) => pos < bytes@.len() && q == pos + 1 && spec_tag_of(bytes@[pos as int])
                    == Some(t),
                Err(x) => if pos == bytes@.len() {
                    x == ParseError::NotEnoughBytes
                } else {
                    spec_tag_of(bytes@[pos as int]) is None && x == ParseError::UnknownDataType(
                        byte_char(bytes@[pos as int]),
                    )
                },
            },
    {
        if pos >= bytes.len() {
            return Err(ParseError::NotEnoughBytes);
        }
        match RESPDataType::try_from(bytes[pos]) {
            Ok(t) => Ok((t, pos + 1)),
            Err(x) => Err(x),
        }
    }
}

/// Parses the value that starts at `pos`.
fn parse_value(bytes: &[u8], pos: usize) -> (r: Result<(RESPValue, usize), ParseError>)
    requires
        pos <= bytes@.len(),
    ensures
        lift_value(r) == spec_parse_at(bytes@, pos as int),
        r matches Ok((_, e)) ==> pos < e <= bytes@.len(),
    decreases bytes@.len() - pos,
{
    let ghost s = bytes@;
    let (data_type, p) = match RESPDataType::from_bytes(bytes, pos) {
        Ok(x) => x,
        Err(x) => {
            return Err(x);
        },
    };
    match data_type {
        RESPDataType::Integer => match parse_integer_value(bytes, p) {
            Ok((i, e)) => Ok((RESPValue::Integer(i), e)),
            Err(x) => Err(x),
        },
        RESPDataType::BulkString => match parse_bulk_string_contents(bytes, p) {
            Ok((t, e)) => Ok((RESPValue::BulkString(t), e)),
            Err(x) => Err(x),
        },
        RESPDataType::SimpleString => match parse_simple_string_contents(bytes, p) {
            Ok((t, e)) => Ok((RESPValue::SimpleString(t), e)),
            Err(x) => Err(x),
        },
        RESPDataType::Error => match parse_simple_string_contents(bytes, p) {
            Ok((t, e)) => Ok((RESPValue::Error(t), e)),
            Err(x) => Err(x),
        },
        RESPDataType::Array => match parse_array_len(bytes, p) {
            Err(x) => Err(x),
            Ok((None, e)) => Ok((RESPValue::Array(None), e)),
            Ok((Some(n), e)) => {
                let mut values: Vec<RESPValue> = Vec::new();
                proof {
                    assert(p == pos + 1);
                    assert(pos < e);
                    match spec_parse_values(s, e as int, n as nat) {
                        Ok((vs, _)) => {
                            assert(view_values(values@) + vs =~= vs);
                        },
                        Err(_) => {},
                    }
                }
                let mut q = e;
                let mut k: u64 = 0;
                while k < n
                    invariant
                        pos < e <= q <= s.len(),
                        s == bytes@,
                        k <= n,
                        spec_parse_at(s, pos as int) == (match spec_parse_values(
                            s,
                            e as int,
                            n as nat,
                        ) {
                            Err(x) => Err(x),
                            Ok((vs, e2)) => Ok((SpecValue::Array(Some(vs)), e2)),
                        }),
                        spec_parse_values(s, e as int, n as nat) == prepend_values(
                            view_values(values@),
                            spec_parse_values(s, q as int, (n - k) as nat),
                        ),
                    decreases n - k,
                {
                    match parse_value(bytes, q) {
                        Err(x) => {
                            proof {
                                assert(spec_parse_values(s, q as int, (n - k) as nat) == Err::<
                                    (Seq<SpecValue>, int),
                                    ParseError,
                                >(x));
                            }
                            return Err(x);
                        },
                        Ok((v, q2)) => {
                            proof {
                                let pre = view_values(values@);
                                let rest = spec_parse_values(s, q2 as int, (n - k - 1) as nat);
                                assert(view_values(values@.push(v)) =~= pre.push(v@));
                                match rest {
                                    Ok((vs, _)) => {
                                        assert(pre + (seq![v@] + vs) =~= pre.push(v@) + vs);
                                    },
                                    Err(_) => {},
                                }
                            }
                            values.push(v);
                            q = q2;
                            k = k + 1;
                        },
                    }
                }
                proof {
                    assert(view_values(values@) + Seq::<SpecValue>::empty() =~= view_values(
                        values@,
                    ));
                }
                Ok((RESPValue::Array(Some(values)), q))
            },
        },
    }
}

impl RESPValue {
    /// Parses one value from the start of `bytes`; returns it with the bytes
    /// that follow it.
    ///
    /// Arrays nest without a limit of their own: the depth of nesting, and so
    /// of recursion, is bounded only by the length of the input (each level
    /// takes at least four bytes). A caller that takes input from untrusted
    /// peers bounds the buffer it hands in.
    pub fn parse(bytes: &[u8]) -> (r: Result<(RESPValue, &[u8]), ParseError>)
        ensures
            parse_result_view(r) == spec_parse(bytes@),
    {
        match parse_value(bytes, 0) {
            Ok((v, e)) => Ok((v, &bytes[e..bytes.len()])),
            Err(x) => Err(x),
        }
    }
}

} // verus!
