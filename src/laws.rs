//! Laws of the codec: rendering then parsing gives the value back, and the
//! properties that callers rely on for malformed input.
use crate::format::{
    int_text, nat_digits, spec_render, spec_render_values, terminator, RenderMode,
};
use crate::num::{
    decimal_value, is_digit, lemma_decimal_nonneg, lemma_decimal_prefix, magnitude_bound,
};
use crate::parse::{
    crlf_at, latin1, line_end, negative_beyond_range, numeral_end, spec_parse, spec_parse_at, spec_parse_bulk,
    spec_parse_integer, spec_parse_len, spec_parse_line, spec_parse_values,
};
use crate::value::{byte_char, spec_tag_of, ParseError, SpecValue};
use vstd::arithmetic::div_mod::lemma_fundamental_div_mod;
use vstd::prelude::*;
use vstd::utf8::{char_u32_cast, encode_utf8, is_ascii_chars, is_ascii_chars_encode_utf8};

verus! {

/// The CR LF terminator.
pub open spec fn crlf() -> Seq<u8> {
    terminator(RenderMode::Wire)
}

proof fn lemma_numeral_end_run(s: Seq<u8>, st: int, i: int, j: int, bound: int)
    requires
        0 <= st <= i <= j <= s.len(),
        forall|k: int| st <= k < j ==> is_digit(#[trigger] s[k]),
        forall|k: int| i <= k < j ==> decimal_value(#[trigger] s.subrange(st, k + 1)) <= bound,
        j == s.len() || !is_digit(s[j]),
    ensures
        numeral_end(s, st, i, bound) == j,
    decreases j - i,
{
    if i < j {
        lemma_numeral_end_run(s, st, i + 1, j, bound);
    }
}

proof fn lemma_line_end_run(s: Seq<u8>, i: int, j: int)
    requires
        0 <= i <= j,
        crlf_at(s, j),
        forall|k: int| i <= k < j ==> !#[trigger] crlf_at(s, k),
    ensures
        line_end(s, i) == Some(j),
    decreases j - i,
{
    if i < j {
        lemma_line_end_run(s, i + 1, j);
    }
}

/// A numeral is a non-empty run of digits that denotes its number.
proof fn lemma_nat_digits(n: nat)
    ensures
        nat_digits(n).len() >= 1,
        forall|k: int| 0 <= k < nat_digits(n).len() ==> is_digit(#[trigger] nat_digits(n)[k]),
        decimal_value(nat_digits(n)) == n,
    decreases n,
{
    let ds = nat_digits(n);
    if n >= 10 {
        lemma_nat_digits(n / 10);
        assert(ds.drop_last() =~= nat_digits(n / 10));
        lemma_fundamental_div_mod(n as int, 10);
        assert(ds.last() == (0x30 + n % 10) as u8);
        assert(ds.last() - 0x30 == n % 10);
        assert(decimal_value(ds) == decimal_value(ds.drop_last()) * 10 + (ds.last() - 0x30));
    } else {
        assert(ds.drop_last() =~= Seq::<u8>::empty());
        assert(decimal_value(ds) == decimal_value(ds.drop_last()) * 10 + (ds.last() - 0x30));
    }
}

/// A numeral followed by CR LF reads back as its number.
proof fn lemma_parse_digits(s: Seq<u8>, st: int, m: nat, bound: int)
    requires
        0 <= st,
        m <= bound,
        st + nat_digits(m).len() + 2 <= s.len(),
        s.subrange(st, st + nat_digits(m).len() + 2) == nat_digits(m) + crlf(),
    ensures
        numeral_end(s, st, st, bound) == st + nat_digits(m).len(),
        crlf_at(s, st + nat_digits(m).len()),
        s[st] != 0x0d,
        decimal_value(s.subrange(st, st + nat_digits(m).len())) == m,
{
    let ds = nat_digits(m);
    let w = ds + crlf();
    lemma_nat_digits(m);
    assert forall|k: int| st <= k < st + ds.len() implies is_digit(#[trigger] s[k]) by {
        assert(s[k] == w[k - st]);
    }
    assert(s[st + ds.len()] == w[ds.len() as int]);
    assert(s[st + ds.len() + 1] == w[ds.len() + 1int]);
    assert(s[st] == w[0]);
    assert(s.subrange(st, st + ds.len()) =~= ds) by {
        assert forall|k: int| 0 <= k < ds.len() implies s.subrange(st, st + ds.len())[k] == ds[k] by {
            assert(s[st + k] == w[k]);
        }
    }
    assert forall|k: int| st <= k < st + ds.len() implies decimal_value(
        #[trigger] s.subrange(st, k + 1),
    ) <= bound by {
        lemma_decimal_prefix(ds, k + 1 - st);
        assert(ds.subrange(0, k + 1 - st) =~= s.subrange(st, k + 1));
    }
    lemma_numeral_end_run(s, st, st, st + ds.len(), bound);
}

/// A numeral of a number that fits in `i64`, followed by CR LF, reads back as
/// that number.
proof fn lemma_parse_nat_text(s: Seq<u8>, p: int, m: nat)
    requires
        0 <= p,
        m <= i64::MAX,
        p + nat_digits(m).len() + 2 <= s.len(),
        s.subrange(p, p + nat_digits(m).len() + 2) == nat_digits(m) + crlf(),
    ensures
        spec_parse_integer(s, p) == Ok::<(i64, int), ParseError>(
            (m as i64, p + nat_digits(m).len() + 2),
        ),
{
    lemma_nat_digits(m);
    let w = nat_digits(m) + crlf();
    assert(s[p] == w[0]);
    lemma_parse_digits(s, p, m, magnitude_bound(false));
}

/// The text of an integer followed by CR LF reads back as that integer.
proof fn lemma_parse_int_text(s: Seq<u8>, p: int, i: i64)
    requires
        0 <= p,
        p + int_text(i).len() + 2 <= s.len(),
        s.subrange(p, p + int_text(i).len() + 2) == int_text(i) + crlf(),
    ensures
        spec_parse_integer(s, p) == Ok::<(i64, int), ParseError>(
            (i, p + int_text(i).len() + 2),
        ),
{
    let w = int_text(i) + crlf();
    if i < 0 {
        let m = (-i) as nat;
        let ds = nat_digits(m);
        assert(s[p] == w[0]);
        assert(s.subrange(p + 1, p + 1 + ds.len() + 2) =~= ds + crlf()) by {
            assert forall|k: int| 0 <= k < ds.len() + 2 implies s.subrange(
                p + 1,
                p + 1 + ds.len() + 2,
            )[k] == (ds + crlf())[k] by {
                assert(s[p + 1 + k] == w[k + 1]);
            }
        }
        lemma_parse_digits(s, p + 1, m, magnitude_bound(true));
    } else {
        let m = i as nat;
        assert(int_text(i) == nat_digits(m));
        lemma_parse_nat_text(s, p, m);
    }
}

/// ASCII text survives being written as UTF-8 and read back byte by byte.
proof fn lemma_ascii_text(x: Seq<char>)
    requires
        is_ascii_chars(x),
    ensures
        latin1(encode_utf8(x)) == x,
        encode_utf8(x).len() == x.len(),
{
    is_ascii_chars_encode_utf8(x);
    assert forall|k: int| 0 <= k < x.len() implies #[trigger] latin1(encode_utf8(x))[k] == x[k] by {
        let c = x[k];
        assert('\0' <= c <= '\u{7f}');
        let u = c as u32;
        assert(u < 128);
        assert(encode_utf8(x)[k] == c as u8);
        assert((c as u8) as u32 == u);
        char_u32_cast(c, u);
    }
    assert(latin1(encode_utf8(x)) =~= x);
}

/// No CR immediately followed by LF.
pub open spec fn no_crlf(x: Seq<char>) -> bool {
    forall|k: int| 0 <= k < x.len() - 1 ==> !(#[trigger] x[k] == '\r' && x[k + 1] == '\n')
}

/// A value that rendering and parsing carry through unchanged: every text is
/// ASCII (a payload is read back one character per byte), no status or error
/// line holds CR LF (the first one ends the line), and every length fits in
/// the signed 64-bit length field, as the length of anything held in memory
/// does.
pub open spec fn wire_safe(v: SpecValue) -> bool
    decreases v,
{
    match v {
        SpecValue::Integer(_) => true,
        SpecValue::BulkString(None) => true,
        SpecValue::BulkString(Some(x)) => is_ascii_chars(x) && x.len() <= i64::MAX,
        SpecValue::SimpleString(x) => is_ascii_chars(x) && no_crlf(x),
        SpecValue::Error(x) => is_ascii_chars(x) && no_crlf(x),
        SpecValue::Array(None) => true,
        SpecValue::Array(Some(vs)) => vs.len() <= i64::MAX && forall|k: int|
            0 <= k < vs.len() ==> wire_safe(#[trigger] vs[k]),
    }
}

/// The bytes at `p` in `s` are `w`; so is each piece of them.
proof fn lemma_slice(s: Seq<u8>, p: int, w: Seq<u8>, i: int, j: int)
    requires
        0 <= p,
        p + w.len() <= s.len(),
        s.subrange(p, p + w.len()) == w,
        0 <= i <= j <= w.len(),
    ensures
        s.subrange(p + i, p + j) == w.subrange(i, j),
{
    assert forall|k: int| 0 <= k < j - i implies s.subrange(p + i, p + j)[k] == w.subrange(i, j)[k] by {
        assert(s.subrange(p, p + w.len())[i + k] == s[p + i + k]);
    }
    assert(s.subrange(p + i, p + j) =~= w.subrange(i, j));
}

/// The renderings of a sequence, split at its first element.
proof fn lemma_render_values_front(vs: Seq<SpecValue>, t: Seq<u8>)
    requires
        vs.len() > 0,
    ensures
        spec_render_values(vs, t) == spec_render(vs[0], t) + spec_render_values(vs.drop_first(), t),
    decreases vs.len(),
{
    if vs.len() == 1 {
        assert(vs.drop_last() =~= Seq::<SpecValue>::empty());
        assert(vs.drop_first() =~= Seq::<SpecValue>::empty());
        assert(spec_render_values(vs, t) =~= spec_render(vs[0], t) + spec_render_values(
            vs.drop_first(),
            t,
        ));
    } else {
        lemma_render_values_front(vs.drop_last(), t);
        assert(vs.drop_last().drop_first() =~= vs.drop_first().drop_last());
        assert(vs.drop_first().last() == vs.last());
        assert(vs.drop_last()[0] == vs[0]);
        assert(spec_render_values(vs, t) =~= spec_render(vs[0], t) + spec_render_values(
            vs.drop_first(),
            t,
        ));
    }
}

/// A bulk payload rendered from safe text parses back to that text.
proof fn lemma_parse_bulk_rendered(s: Seq<u8>, p: int, x: Seq<char>)
    requires
        is_ascii_chars(x),
        x.len() <= i64::MAX,
        0 <= p,
        ({
            let w = nat_digits(encode_utf8(x).len()) + crlf() + encode_utf8(x) + crlf();
            p + w.len() <= s.len() && s.subrange(p, p + w.len()) == w
        }),
    ensures
        spec_parse_bulk(s, p) == Ok::<(Option<Seq<char>>, int), ParseError>(
            (Some(x), p + nat_digits(encode_utf8(x).len()).len() + 2 + encode_utf8(x).len() + 2),
        ),
{
    let u = encode_utf8(x);
    lemma_ascii_text(x);
    let nd = nat_digits(u.len());
    let h = nd.len() as int + 2;
    let w = nd + crlf() + u + crlf();
    lemma_slice(s, p, w, 0, h);
    assert(w.subrange(0, h) =~= nd + crlf());
    lemma_parse_nat_text(s, p, u.len());
    let e = p + h;
    lemma_slice(s, p, w, h, h + u.len());
    assert(w.subrange(h, h + u.len()) =~= u);
    assert(s[e + u.len()] == w[h + u.len() as int]);
    assert(s[e + u.len() + 1] == w[h + u.len() as int + 1]);
}

/// A line rendered from safe text parses back to that text.
proof fn lemma_parse_line_rendered(s: Seq<u8>, p: int, x: Seq<char>)
    requires
        is_ascii_chars(x),
        no_crlf(x),
        0 <= p,
        p + encode_utf8(x).len() + 2 <= s.len(),
        s.subrange(p, p + encode_utf8(x).len() + 2) == encode_utf8(x) + crlf(),
    ensures
        spec_parse_line(s, p) == Ok::<(Seq<char>, int), ParseError>(
            (x, p + encode_utf8(x).len() + 2),
        ),
{
    let u = encode_utf8(x);
    let w = u + crlf();
    lemma_ascii_text(x);
    lemma_slice(s, p, w, 0, u.len() as int);
    assert(w.subrange(0, u.len() as int) =~= u);
    assert(s[p + u.len()] == w[u.len() as int]);
    assert(s[p + u.len() + 1] == w[u.len() + 1int]);
    assert forall|k: int| p <= k < p + u.len() implies !#[trigger] crlf_at(s, k) by {
        if k + 1 < p + u.len() {
            let j = k - p;
            assert(s[k] == u[j]);
            assert(s[k + 1] == u[j + 1]);
            assert(latin1(u)[j] == x[j]);
            assert(latin1(u)[j + 1] == x[j + 1]);
            if s[k] == 0x0d && s[k + 1] == 0x0a {
                assert(x[j] == '\r');
                assert(x[j + 1] == '\n');
            }
        } else {
            assert(s[k + 1] == w[u.len() as int]);
        }
    }
    lemma_line_end_run(s, p, p + u.len());
}

/// Wherever the wire rendering of a safe value stands in the input, parsing
/// there yields the value and ends right after the rendering.
proof fn lemma_parse_rendered(s: Seq<u8>, p: int, v: SpecValue)
    requires
        wire_safe(v),
        0 <= p,
        p + spec_render(v, crlf()).len() <= s.len(),
        s.subrange(p, p + spec_render(v, crlf()).len()) == spec_render(v, crlf()),
    ensures
        spec_parse_at(s, p) == Ok::<(SpecValue, int), ParseError>(
            (v, p + spec_render(v, crlf()).len()),
        ),
    decreases v,
{
    let r = spec_render(v, crlf());
    assert(s[p] == r[0]);
    match v {
        SpecValue::Integer(i) => {
            let it = int_text(i);
            lemma_slice(s, p, r, 1, 1int + it.len() + 2);
            assert(r.subrange(1, 1int + it.len() + 2) =~= it + crlf());
            lemma_parse_int_text(s, p + 1, i);
        },
        SpecValue::BulkString(None) | SpecValue::Array(None) => {
            let it = int_text(-1i64);
            assert(it =~= seq![0x2du8, 0x31u8]);
            lemma_slice(s, p, r, 1, 5);
            assert(r.subrange(1, 5) =~= it + crlf());
            lemma_parse_int_text(s, p + 1, -1i64);
        },
        SpecValue::BulkString(Some(x)) => {
            lemma_slice(s, p, r, 1, r.len() as int);
            assert(r.subrange(1, r.len() as int) =~= nat_digits(encode_utf8(x).len()) + crlf()
                + encode_utf8(x) + crlf());
            lemma_parse_bulk_rendered(s, p + 1, x);
        },
        SpecValue::SimpleString(x) | SpecValue::Error(x) => {
            lemma_slice(s, p, r, 1, r.len() as int);
            assert(r.subrange(1, r.len() as int) =~= encode_utf8(x) + crlf());
            lemma_parse_line_rendered(s, p + 1, x);
        },
        SpecValue::Array(Some(vs)) => {
            let nd = nat_digits(vs.len());
            let rv = spec_render_values(vs, crlf());
            lemma_slice(s, p, r, 1, 1int + nd.len() + 2);
            assert(r.subrange(1, 1int + nd.len() + 2) =~= nd + crlf());
            lemma_parse_nat_text(s, p + 1, vs.len());
            let e = p + 1 + nd.len() + 2;
            lemma_slice(s, p, r, 1int + nd.len() + 2, r.len() as int);
            assert(r.subrange(1int + nd.len() + 2, r.len() as int) =~= rv);
            lemma_parse_rendered_values(s, e, vs);
        },
    }
}

/// The renderings of safe values, one after another, parse back as those
/// values.
proof fn lemma_parse_rendered_values(s: Seq<u8>, p: int, vs: Seq<SpecValue>)
    requires
        forall|k: int| 0 <= k < vs.len() ==> wire_safe(#[trigger] vs[k]),
        0 <= p,
        p + spec_render_values(vs, crlf()).len() <= s.len(),
        s.subrange(p, p + spec_render_values(vs, crlf()).len()) == spec_render_values(vs, crlf()),
    ensures
        spec_parse_values(s, p, vs.len()) == Ok::<(Seq<SpecValue>, int), ParseError>(
            (vs, p + spec_render_values(vs, crlf()).len()),
        ),
    decreases vs,
{
    let rv = spec_render_values(vs, crlf());
    if vs.len() == 0 {
        assert(vs =~= Seq::<SpecValue>::empty());
    } else {
        lemma_render_values_front(vs, crlf());
        let r0 = spec_render(vs[0], crlf());
        let rest = vs.drop_first();
        let rr = spec_render_values(rest, crlf());
        lemma_slice(s, p, rv, 0, r0.len() as int);
        assert(rv.subrange(0, r0.len() as int) =~= r0);
        lemma_parse_rendered(s, p, vs[0]);
        lemma_slice(s, p, rv, r0.len() as int, rv.len() as int);
        assert(rv.subrange(r0.len() as int, rv.len() as int) =~= rr);
        assert forall|k: int| 0 <= k < rest.len() implies wire_safe(#[trigger] rest[k]) by {
            assert(rest[k] == vs[k + 1]);
        }
        lemma_parse_rendered_values(s, p + r0.len(), rest);
        assert(seq![vs[0]] + rest =~= vs);
    }
}

/// Rendering a safe value as wire bytes and parsing the result gives the
/// value back, with whatever followed it left over untouched.
pub proof fn lemma_round_trip(v: SpecValue, rest: Seq<u8>)
    requires
        wire_safe(v),
    ensures
        spec_parse(spec_render(v, crlf()) + rest) == Ok::<(SpecValue, Seq<u8>), ParseError>(
            (v, rest),
        ),
{
    let r = spec_render(v, crlf());
    let s = r + rest;
    assert(s.subrange(0, r.len() as int) =~= r);
    lemma_parse_rendered(s, 0, v);
    assert(s.subrange(r.len() as int, s.len() as int) =~= rest);
}

/// The null markers and the empty values render differently and parse back
/// to the variants they came from: `$-1` is no string, `$0` an empty one;
/// `*-1` is no array, `*0` an empty one.
pub proof fn lemma_null_distinct()
    ensures
        spec_render(SpecValue::BulkString(None), crlf()) == seq![0x24u8, 0x2du8, 0x31u8, 0x0du8, 0x0au8],
        spec_render(SpecValue::BulkString(Some(Seq::empty())), crlf()) == seq![
            0x24u8,
            0x30u8,
            0x0du8,
            0x0au8,
            0x0du8,
            0x0au8,
        ],
        spec_render(SpecValue::Array(None), crlf()) == seq![0x2au8, 0x2du8, 0x31u8, 0x0du8, 0x0au8],
        spec_render(SpecValue::Array(Some(Seq::empty())), crlf()) == seq![
            0x2au8,
            0x30u8,
            0x0du8,
            0x0au8,
        ],
        spec_parse(spec_render(SpecValue::BulkString(None), crlf())) == Ok::<
            (SpecValue, Seq<u8>),
            ParseError,
        >((SpecValue::BulkString(None), Seq::empty())),
        spec_parse(spec_render(SpecValue::BulkString(Some(Seq::empty())), crlf())) == Ok::<
            (SpecValue, Seq<u8>),
            ParseError,
        >((SpecValue::BulkString(Some(Seq::empty())), Seq::empty())),
        spec_parse(spec_render(SpecValue::Array(None), crlf())) == Ok::<
            (SpecValue, Seq<u8>),
            ParseError,
        >((SpecValue::Array(None), Seq::empty())),
        spec_parse(spec_render(SpecValue::Array(Some(Seq::empty())), crlf())) == Ok::<
            (SpecValue, Seq<u8>),
            ParseError,
        >((SpecValue::Array(Some(Seq::empty())), Seq::empty())),
{
    let e = Seq::<char>::empty();
    let ev = Seq::<SpecValue>::empty();
    assert(encode_utf8(e) =~= Seq::<u8>::empty()) by {
        lemma_ascii_text(e);
    }
    assert(spec_render_values(ev, crlf()) =~= Seq::<u8>::empty());
    assert(spec_render(SpecValue::BulkString(None), crlf()) =~= seq![
        0x24u8,
        0x2du8,
        0x31u8,
        0x0du8,
        0x0au8,
    ]);
    assert(spec_render(SpecValue::BulkString(Some(e)), crlf()) =~= seq![
        0x24u8,
        0x30u8,
        0x0du8,
        0x0au8,
        0x0du8,
        0x0au8,
    ]);
    assert(spec_render(SpecValue::Array(None), crlf()) =~= seq![
        0x2au8,
        0x2du8,
        0x31u8,
        0x0du8,
        0x0au8,
    ]);
    assert(spec_render(SpecValue::Array(Some(ev)), crlf()) =~= seq![0x2au8, 0x30u8, 0x0du8, 0x0au8]);
    let nil = Seq::<u8>::empty();
    lemma_round_trip(SpecValue::BulkString(None), nil);
    lemma_round_trip(SpecValue::BulkString(Some(e)), nil);
    lemma_round_trip(SpecValue::Array(None), nil);
    lemma_round_trip(SpecValue::Array(Some(ev)), nil);
    assert(spec_render(SpecValue::BulkString(None), crlf()) + nil =~= spec_render(
        SpecValue::BulkString(None),
        crlf(),
    ));
    assert(spec_render(SpecValue::BulkString(Some(e)), crlf()) + nil =~= spec_render(
        SpecValue::BulkString(Some(e)),
        crlf(),
    ));
    assert(spec_render(SpecValue::Array(None), crlf()) + nil =~= spec_render(
        SpecValue::Array(None),
        crlf(),
    ));
    assert(spec_render(SpecValue::Array(Some(ev)), crlf()) + nil =~= spec_render(
        SpecValue::Array(Some(ev)),
        crlf(),
    ));
}

/// An array holding an array holding an integer renders as two array
/// headers and the integer, and parses back to the same nesting with the
/// trailing bytes left over.
pub proof fn lemma_nested_array(i: i64, rest: Seq<u8>)
    ensures
        ({
            let v = SpecValue::Array(
                Some(seq![SpecValue::Array(Some(seq![SpecValue::Integer(i)]))]),
            );
            &&& spec_render(v, crlf()) == seq![
                0x2au8,
                0x31u8,
                0x0du8,
                0x0au8,
                0x2au8,
                0x31u8,
                0x0du8,
                0x0au8,
                0x3au8,
            ] + int_text(i) + crlf()
            &&& spec_parse(spec_render(v, crlf()) + rest) == Ok::<(SpecValue, Seq<u8>), ParseError>(
                (v, rest),
            )
        }),
{
    let leaf = SpecValue::Integer(i);
    let inner = SpecValue::Array(Some(seq![leaf]));
    let v = SpecValue::Array(Some(seq![inner]));
    assert forall|k: int| 0 <= k < seq![leaf].len() implies wire_safe(#[trigger] seq![leaf][k]) by {
        assert(seq![leaf][k] == leaf);
    }
    assert(wire_safe(inner));
    assert forall|k: int| 0 <= k < seq![inner].len() implies wire_safe(#[trigger] seq![inner][k]) by {
        assert(seq![inner][k] == inner);
    }
    assert(wire_safe(v));
    lemma_round_trip(v, rest);
    let one = seq![leaf];
    assert(one.drop_last() =~= Seq::<SpecValue>::empty());
    assert(seq![inner].drop_last() =~= Seq::<SpecValue>::empty());
    assert(nat_digits(1) =~= seq![0x31u8]);
    assert(one.last() == leaf);
    assert(seq![inner].last() == inner);
    assert(spec_render_values(Seq::<SpecValue>::empty(), crlf()) == Seq::<u8>::empty());
    assert(spec_render_values(one, crlf()) =~= spec_render(leaf, crlf()));
    assert(spec_render_values(seq![inner], crlf()) =~= spec_render(inner, crlf()));
    assert(spec_render(v, crlf()) =~= seq![
        0x2au8,
        0x31u8,
        0x0du8,
        0x0au8,
        0x2au8,
        0x31u8,
        0x0du8,
        0x0au8,
        0x3au8,
    ] + int_text(i) + crlf());
}

/// Every position the numeral scan passes over holds a digit, and the digits
/// up to it stay within the bound.
proof fn lemma_numeral_end_digits(s: Seq<u8>, st: int, i: int, bound: int)
    requires
        0 <= st <= i <= s.len(),
    ensures
        i <= numeral_end(s, st, i, bound) <= s.len(),
        forall|k: int|
            i <= k < numeral_end(s, st, i, bound) ==> is_digit(#[trigger] s[k]) && decimal_value(
                s.subrange(st, k + 1),
            ) <= bound,
    decreases s.len() - i,
{
    if i < s.len() && is_digit(s[i]) && decimal_value(s.subrange(st, i + 1)) <= bound {
        lemma_numeral_end_digits(s, st, i + 1, bound);
    }
}

/// An integer field reads as exactly the number its digits denote, never as
/// a value wrapped into range: when it is read at all, it is an optional `-`,
/// one or more digits whose signed value lies in the range of `i64`, and CR
/// LF. A numeral outside that range is an error.
pub proof fn lemma_integer_exact(s: Seq<u8>, p: int)
    requires
        0 <= p <= s.len(),
        spec_parse_integer(s, p) is Ok,
    ensures
        ({
            let (n, e) = spec_parse_integer(s, p)->Ok_0;
            let neg = p < s.len() && s[p] == 0x2d;
            let st = if neg {
                p + 1
            } else {
                p
            };
            &&& st < e - 2
            &&& forall|k: int| st <= k < e - 2 ==> is_digit(#[trigger] s[k])
            &&& crlf_at(s, e - 2)
            &&& n as int == if neg {
                -decimal_value(s.subrange(st, e - 2))
            } else {
                decimal_value(s.subrange(st, e - 2))
            }
        }),
{
    let neg = p < s.len() && s[p] == 0x2d;
    let st = if neg {
        p + 1
    } else {
        p
    };
    let bound = magnitude_bound(neg);
    lemma_numeral_end_digits(s, st, st, bound);
    let d = numeral_end(s, st, st, bound);
    assert(d > st);
    assert(decimal_value(s.subrange(st, d - 1 + 1)) <= bound);
    lemma_decimal_nonneg(s.subrange(st, d));
}

/// A bulk string or array header reads its length field as an integer: an
/// error there is the parse's error, -1 is the null marker, and any value
/// below -1, also a negative numeral below the range of `i64`, is rejected as
/// a negative length.
pub proof fn lemma_length_field(s: Seq<u8>)
    requires
        s.len() > 0,
        s[0] == 0x24 || s[0] == 0x2a,
    ensures
        negative_beyond_range(s, 1) ==> spec_parse(s) == Err::<(SpecValue, Seq<u8>), ParseError>(
            ParseError::NegativeValueLength,
        ),
        match spec_parse_integer(s, 1) {
            Err(x) => !negative_beyond_range(s, 1) ==> spec_parse(s) == Err::<
                (SpecValue, Seq<u8>),
                ParseError,
            >(x),
            Ok((n, e)) => {
                &&& n < -1 ==> spec_parse(s) == Err::<(SpecValue, Seq<u8>), ParseError>(
                    ParseError::NegativeValueLength,
                )
                &&& n == -1 ==> spec_parse(s) == Ok::<(SpecValue, Seq<u8>), ParseError>(
                    (
                        if s[0] == 0x24 {
                            SpecValue::BulkString(None)
                        } else {
                            SpecValue::Array(None)
                        },
                        s.subrange(e, s.len() as int),
                    ),
                )
            },
        },
{
    if spec_parse_integer(s, 1) is Ok {
        assert(!negative_beyond_range(s, 1));
    }
}

/// A message whose first byte names no shape is rejected with that byte.
pub proof fn lemma_unknown_tag(s: Seq<u8>)
    requires
        s.len() > 0,
        spec_tag_of(s[0]) is None,
    ensures
        spec_parse(s) == Err::<(SpecValue, Seq<u8>), ParseError>(
            ParseError::UnknownDataType(byte_char(s[0])),
        ),
{
}

/// The bytes of `s` from `q` on.
pub open spec fn tail(s: Seq<u8>, q: int) -> Seq<u8> {
    s.subrange(q, s.len() as int)
}

/// A result whose end position is moved on by `q`.
pub open spec fn shifted<A>(r: Result<(A, int), ParseError>, q: int) -> Result<(A, int), ParseError> {
    match r {
        Ok((a, e)) => Ok((a, e + q)),
        Err(x) => Err(x),
    }
}

proof fn lemma_numeral_end_shift(s: Seq<u8>, q: int, st: int, i: int, bound: int)
    requires
        0 <= q <= s.len(),
        0 <= st <= i,
    ensures
        numeral_end(s, q + st, q + i, bound) == q + numeral_end(tail(s, q), st, i, bound),
    decreases s.len() - q - i,
{
    let t = tail(s, q);
    if i < t.len() {
        assert(s[q + i] == t[i]);
        assert(s.subrange(q + st, q + i + 1) =~= t.subrange(st, i + 1));
        if is_digit(t[i]) && decimal_value(t.subrange(st, i + 1)) <= bound {
            lemma_numeral_end_shift(s, q, st, i + 1, bound);
        }
    }
}

proof fn lemma_line_end_shift(s: Seq<u8>, q: int, i: int)
    requires
        0 <= q <= s.len(),
        0 <= i,
    ensures
        line_end(s, q + i) == match line_end(tail(s, q), i) {
            Some(e) => Some(e + q),
            None => None,
        },
    decreases s.len() - q - i,
{
    let t = tail(s, q);
    if i + 1 < t.len() {
        assert(s[q + i] == t[i]);
        assert(s[q + i + 1] == t[i + 1]);
        if !crlf_at(t, i) {
            lemma_line_end_shift(s, q, i + 1);
        }
    }
}

proof fn lemma_parse_integer_shift(s: Seq<u8>, q: int, p: int)
    requires
        0 <= q <= s.len(),
        0 <= p,
    ensures
        spec_parse_integer(s, q + p) == shifted(spec_parse_integer(tail(s, q), p), q),
{
    let t = tail(s, q);
    if p < t.len() {
        assert(s[q + p] == t[p]);
    }
    let neg = 0 <= p < t.len() && t[p] == 0x2d;
    let st = if neg {
        p + 1
    } else {
        p
    };
    lemma_numeral_end_shift(s, q, st, st, magnitude_bound(neg));
    let d = numeral_end(t, st, st, magnitude_bound(neg));
    if st <= t.len() {
        lemma_numeral_end_digits(t, st, st, magnitude_bound(neg));
    }
    if d < t.len() {
        assert(s[q + d] == t[d]);
    }
    if d + 1 < t.len() {
        assert(s[q + d + 1] == t[d + 1]);
    }
    if st <= t.len() {
        assert(s.subrange(q + st, q + d) =~= t.subrange(st, d));
    }
}

proof fn lemma_line_end_bounds(s: Seq<u8>, i: int)
    requires
        0 <= i,
    ensures
        line_end(s, i) matches Some(e) ==> i <= e && e + 2 <= s.len(),
    decreases s.len() - i,
{
    if i + 1 < s.len() && !crlf_at(s, i) {
        lemma_line_end_bounds(s, i + 1);
    }
}

proof fn lemma_parse_len_shift(s: Seq<u8>, q: int, p: int)
    requires
        0 <= q <= s.len(),
        0 <= p,
    ensures
        spec_parse_len(s, q + p) == shifted(spec_parse_len(tail(s, q), p), q),
{
    lemma_parse_integer_shift(s, q, p);
}

proof fn lemma_parse_at_shift(s: Seq<u8>, q: int, p: int)
    requires
        0 <= q <= s.len(),
        0 <= p,
    ensures
        spec_parse_at(s, q + p) == shifted(spec_parse_at(tail(s, q), p), q),
    decreases s.len() - q - p, 0int,
{
    let t = tail(s, q);
    if p < t.len() {
        assert(s[q + p] == t[p]);
        lemma_parse_integer_shift(s, q, p + 1);
        lemma_parse_len_shift(s, q, p + 1);
        lemma_line_end_shift(s, q, p + 1);
        lemma_line_end_bounds(t, p + 1);
        match line_end(t, p + 1) {
            Some(e) => {
                assert(s.subrange(q + p + 1, q + e) =~= t.subrange(p + 1, e));
            },
            None => {},
        }
        match spec_parse_len(t, p + 1) {
            Ok((Some(n), e)) => {
                if e + n + 1 < t.len() {
                    assert(s[q + e + n] == t[e + n]);
                    assert(s[q + e + n + 1] == t[e + n + 1]);
                }
                if t.len() - e > n {
                    assert(s.subrange(q + e, q + e + n) =~= t.subrange(e, e + n));
                }
                if p < e <= t.len() {
                    lemma_parse_values_shift(s, q, e, n as nat);
                }
            },
            _ => {},
        }
    }
}

proof fn lemma_parse_values_shift(s: Seq<u8>, q: int, p: int, n: nat)
    requires
        0 <= q <= s.len(),
        0 <= p,
    ensures
        spec_parse_values(s, q + p, n) == shifted(spec_parse_values(tail(s, q), p, n), q),
    decreases s.len() - q - p, n + 1,
{
    let t = tail(s, q);
    if n > 0 && p <= t.len() {
        lemma_parse_at_shift(s, q, p);
        match spec_parse_at(t, p) {
            Ok((v, p2)) => {
                if p < p2 <= t.len() {
                    lemma_parse_values_shift(s, q, p2, (n - 1) as nat);
                }
            },
            Err(_) => {},
        }
    }
}

proof fn lemma_parse_values_bounds(s: Seq<u8>, p: int, n: nat)
    requires
        0 <= p <= s.len(),
    ensures
        spec_parse_values(s, p, n) matches Ok((_, e)) ==> p <= e <= s.len(),
    decreases s.len() - p, n,
{
    if n > 0 {
        match spec_parse_at(s, p) {
            Ok((_, p2)) => {
                if p < p2 <= s.len() {
                    lemma_parse_values_bounds(s, p2, (n - 1) as nat);
                }
            },
            Err(_) => {},
        }
    }
}

/// A value that parses ends past its start and within the input.
proof fn lemma_parse_at_bounds(s: Seq<u8>, p: int)
    requires
        0 <= p,
    ensures
        spec_parse_at(s, p) matches Ok((_, e)) ==> p < e <= s.len(),
{
    if p < s.len() {
        if spec_parse_integer(s, p + 1) is Ok {
            lemma_integer_exact(s, p + 1);
        }
        lemma_line_end_bounds(s, p + 1);
        match spec_parse_len(s, p + 1) {
            Ok((Some(n), e)) => {
                if p < e <= s.len() {
                    lemma_parse_values_bounds(s, e, n as nat);
                }
            },
            _ => {},
        }
    }
}

/// Encodings written one after another.
pub open spec fn concat_all(es: Seq<Seq<u8>>) -> Seq<u8>
    decreases es.len(),
{
    if es.len() == 0 {
        Seq::empty()
    } else {
        es[0] + concat_all(es.drop_first())
    }
}

/// Each encoding parses as its value, whatever bytes follow it.
pub open spec fn encodes_each(es: Seq<Seq<u8>>, vs: Seq<SpecValue>) -> bool {
    &&& es.len() == vs.len()
    &&& forall|i: int, y: Seq<u8>|
        0 <= i < es.len() ==> #[trigger] spec_parse(es[i] + y) == Ok::<
            (SpecValue, Seq<u8>),
            ParseError,
        >((vs[i], y))
}

proof fn lemma_values_of_encodings(s: Seq<u8>, p: int, es: Seq<Seq<u8>>, vs: Seq<SpecValue>, x: Seq<u8>)
    requires
        encodes_each(es, vs),
        0 <= p <= s.len(),
        tail(s, p) == concat_all(es) + x,
    ensures
        spec_parse_values(s, p, vs.len()) == Ok::<(Seq<SpecValue>, int), ParseError>(
            (vs, s.len() - x.len()),
        ),
    decreases es.len(),
{
    let t = tail(s, p);
    if es.len() == 0 {
        assert(vs =~= Seq::<SpecValue>::empty());
        assert(t =~= x);
    } else {
        let rest = es.drop_first();
        let y = concat_all(rest) + x;
        assert(t =~= es[0] + y);
        assert(spec_parse(es[0] + y) == Ok::<(SpecValue, Seq<u8>), ParseError>((vs[0], y)));
        assert(spec_parse(es[0] + Seq::<u8>::empty()) == Ok::<(SpecValue, Seq<u8>), ParseError>(
            (vs[0], Seq::<u8>::empty()),
        ));
        assert(es[0] + Seq::<u8>::empty() =~= es[0]);
        assert(es[0].len() > 0) by {
            if es[0].len() == 0 {
                assert(es[0] =~= Seq::<u8>::empty());
            }
        }
        let e0 = es[0].len() as int;
        lemma_parse_at_bounds(t, 0);
        assert(spec_parse_at(t, 0) matches Ok((_, e)) && t.subrange(e, t.len() as int) == y);
        lemma_parse_at_shift(s, p, 0);
        assert(spec_parse_at(t, 0) == Ok::<(SpecValue, int), ParseError>((vs[0], e0)));
        assert(tail(s, p + e0) =~= y);
        let vr = vs.drop_first();
        assert forall|i: int, z: Seq<u8>| 0 <= i < rest.len() implies #[trigger] spec_parse(
            rest[i] + z,
        ) == Ok::<(SpecValue, Seq<u8>), ParseError>((vr[i], z)) by {
            assert(rest[i] == es[i + 1]);
            assert(vr[i] == vs[i + 1]);
            assert(spec_parse(es[i + 1] + z) == Ok::<(SpecValue, Seq<u8>), ParseError>(
                (vs[i + 1], z),
            ));
        }
        lemma_values_of_encodings(s, p + e0, rest, vr, x);
        assert(seq![vs[0]] + vr =~= vs);
    }
}

/// An array header for `n` elements followed by `n` encodings, each of which
/// parses as its value whatever follows it, parses as the array of those
/// values, at any depth, with the bytes after it left over.
pub proof fn lemma_array_of_encodings(es: Seq<Seq<u8>>, vs: Seq<SpecValue>, x: Seq<u8>)
    requires
        encodes_each(es, vs),
        vs.len() <= i64::MAX,
    ensures
        spec_parse(seq![0x2au8] + nat_digits(vs.len()) + crlf() + concat_all(es) + x) == Ok::<
            (SpecValue, Seq<u8>),
            ParseError,
        >((SpecValue::Array(Some(vs)), x)),
{
    let nd = nat_digits(vs.len());
    let body = concat_all(es) + x;
    let s = seq![0x2au8] + nd + crlf() + concat_all(es) + x;
    assert(s =~= seq![0x2au8] + (nd + crlf()) + body);
    assert(s[0] == 0x2a);
    lemma_nat_digits(vs.len());
    assert(s.subrange(1, 1int + nd.len() + 2) =~= nd + crlf());
    lemma_parse_nat_text(s, 1, vs.len());
    let e = 1int + nd.len() + 2;
    assert(tail(s, e) =~= body);
    lemma_values_of_encodings(s, e, es, vs, x);
    assert(s.subrange(s.len() - x.len(), s.len() as int) =~= x);
}

} // verus!
