//! The file name in a `Content-Disposition` header.
use vstd::prelude::*;
use vstd::utf8::{decode_utf8, encode_utf8, valid_utf8};

use crate::text::{
    all_white, ascii_lower, chars_of, find_char, is_white_space, optional_str, optional_text,
    position, position_is_first, same_but_ascii_case, same_ignoring_ascii_case, string_of,
    sub_chars, trim, trim_end, trim_start, trimmed, trimming_keeps_the_core, white_space,
};

verus! {

/// The value of a hexadecimal digit.
pub open spec fn hex_digit(c: char) -> Option<u8> {
    if '0' <= c <= '9' {
        Some((c as u8 - '0' as u8) as u8)
    } else if 'a' <= c <= 'f' {
        Some((c as u8 - 'a' as u8 + 10) as u8)
    } else if 'A' <= c <= 'F' {
        Some((c as u8 - 'A' as u8 + 10) as u8)
    } else {
        None
    }
}

/// The octet that two characters after a `%` stand for: two hexadecimal
/// digits, and nothing else.
pub open spec fn octet(hi: char, lo: char) -> Option<u8> {
    match (hex_digit(hi), hex_digit(lo)) {
        (Some(h), Some(l)) => Some((h * 16 + l) as u8),
        _ => None,
    }
}

/// The octets that a percent-encoded text stands for: `%` and two characters
/// for one octet, every other character for its UTF-8 form.
pub open spec fn octets(s: Seq<char>) -> Option<Seq<u8>>
    decreases s.len(),
{
    if s.len() == 0 {
        Some(Seq::empty())
    } else if s[0] == '%' {
        if s.len() < 3 {
            None
        } else {
            match (octet(s[1], s[2]), octets(s.skip(3))) {
                (Some(b), Some(rest)) => Some(seq![b] + rest),
                _ => None,
            }
        }
    } else {
        match octets(s.skip(1)) {
            Some(rest) => Some(encode_utf8(seq![s[0]]) + rest),
            None => None,
        }
    }
}

/// The text that a percent-encoded text stands for, where its octets are
/// UTF-8.
pub open spec fn percent_decoded(s: Seq<char>) -> Option<Seq<char>> {
    match octets(s) {
        Some(bytes) => if valid_utf8(bytes) {
            Some(decode_utf8(bytes))
        } else {
            None
        },
        None => None,
    }
}

/// `String::from_utf8`: the string with these bytes as its UTF-8 form; none
/// where they are not UTF-8.
#[verifier::external_body]
fn utf8_text(bytes: Vec<u8>) -> (r: Option<String>)
    ensures
        r is Some <==> valid_utf8(bytes@),
        r matches Some(text) ==> text@ == decode_utf8(bytes@),
{
    String::from_utf8(bytes).ok()
}

fn hex_value(c: char) -> (r: Option<u8>)
    ensures
        r == hex_digit(c),
{
    if '0' <= c && c <= '9' {
        Some(c as u8 - '0' as u8)
    } else if 'a' <= c && c <= 'f' {
        Some(c as u8 - 'a' as u8 + 10)
    } else if 'A' <= c && c <= 'F' {
        Some(c as u8 - 'A' as u8 + 10)
    } else {
        None
    }
}

fn octet_value(hi: char, lo: char) -> (r: Option<u8>)
    ensures
        r == octet(hi, lo),
{
    match (hex_value(hi), hex_value(lo)) {
        (Some(h), Some(l)) => Some(h * 16 + l),
        _ => None,
    }
}

fn push_utf8(out: &mut Vec<u8>, c: char)
    ensures
        final(out)@ == old(out)@ + encode_utf8(seq![c]),
{
    let mut text: String = String::new();
    text.push(c);
    assert(text@ =~= seq![c]);
    let bytes = text.as_str().as_bytes();
    let ghost start = out@;
    let mut i: usize = 0;
    assert(start + bytes@.take(0) =~= start);
    while i < bytes.len()
        invariant
            i <= bytes@.len(),
            out@ == start + bytes@.take(i as int),
        decreases bytes@.len() - i,
    {
        out.push(bytes[i]);
        assert(out@ =~= start + bytes@.take(i + 1));
        i += 1;
    }
    assert(bytes@.take(bytes@.len() as int) =~= bytes@);
}

/// Decodes a percent-encoded text.
pub fn percent_decode(input: &str) -> (r: Option<String>)
    ensures
        optional_text(r) == percent_decoded(input@),
{
    let v = chars_of(input);
    let mut bytes: Vec<u8> = Vec::new();
    let mut i: usize = 0;
    assert(v@.skip(0) =~= v@);
    proof {
        if octets(v@) is Some {
            assert(bytes@ + octets(v@)->0 =~= octets(v@)->0);
        }
    }
    while i < v.len()
        invariant
            i <= v@.len(),
            v@ == input@,
            octets(v@) == (match octets(v@.skip(i as int)) {
                Some(rest) => Some(bytes@ + rest),
                None => None::<Seq<u8>>,
            }),
        decreases v@.len() - i,
    {
        let ghost rest = v@.skip(i as int);
        let ghost before = bytes@;
        if v[i] == '%' {
            if v.len() - i < 3 {
                return None;
            }
            match octet_value(v[i + 1], v[i + 2]) {
                Some(b) => {
                    bytes.push(b);
                    proof {
                        assert(rest.skip(3) =~= v@.skip(i + 3));
                        if octets(rest.skip(3)) is Some {
                            let tail = octets(rest.skip(3))->0;
                            assert(before + (seq![b] + tail) =~= bytes@ + tail);
                        }
                    }
                    i += 3;
                },
                None => {
                    return None;
                },
            }
        } else {
            push_utf8(&mut bytes, v[i]);
            proof {
                assert(rest.skip(1) =~= v@.skip(i + 1));
                if octets(rest.skip(1)) is Some {
                    let tail = octets(rest.skip(1))->0;
                    assert(before + (encode_utf8(seq![rest[0]]) + tail) =~= bytes@ + tail);
                }
            }
            i += 1;
        }
    }
    assert(v@.skip(i as int) =~= Seq::empty());
    assert(bytes@ + Seq::<u8>::empty() =~= bytes@);
    utf8_text(bytes)
}

/// The charset and the value in an extended value (`charset'language'value`).
pub open spec fn ext_pieces(raw: Seq<char>) -> Option<(Seq<char>, Seq<char>)> {
    let a = position(raw, '\'') as int;
    if a >= raw.len() {
        None
    } else {
        let rest = raw.skip(a + 1);
        let b = position(rest, '\'') as int;
        if b >= rest.len() {
            None
        } else {
            Some((raw.take(a), rest.skip(b + 1)))
        }
    }
}

/// What an extended value stands for. The charset is UTF-8 or nothing.
pub open spec fn ext_value(raw: Seq<char>) -> Option<Seq<char>> {
    match ext_pieces(raw) {
        Some((charset, value)) => if same_but_ascii_case(charset, "UTF-8"@) {
            percent_decoded(value)
        } else {
            None
        },
        None => None,
    }
}

/// Takes an extended value apart.
fn split_ext_value(v: &Vec<char>) -> (r: Option<(Vec<char>, Vec<char>)>)
    ensures
        match r {
            Some((charset, value)) => ext_pieces(v@) == Some((charset@, value@)),
            None => ext_pieces(v@) is None,
        },
{
    assert(v@.skip(0) =~= v@);
    let a: usize = find_char(v, '\'', 0);
    if a >= v.len() {
        return None;
    }
    let ghost rest = v@.skip(a + 1);
    let b: usize = find_char(v, '\'', a + 1);
    proof {
        position_is_first(rest, '\'');
    }
    if b >= v.len() {
        return None;
    }
    let charset = sub_chars(v, 0, a);
    let value = sub_chars(v, b + 1, v.len());
    assert(charset@ =~= v@.take(a as int));
    assert(value@ =~= rest.skip(b - a));
    Some((charset, value))
}

/// Parses an extended value.
pub fn parse_ext_value(raw: &str) -> (r: Option<String>)
    ensures
        optional_text(r) == ext_value(raw@),
{
    match split_ext_value(&chars_of(raw)) {
        Some((charset, value)) => if same_ignoring_ascii_case(&charset, &chars_of("UTF-8")) {
            percent_decode(string_of(&value).as_str())
        } else {
            None
        },
        None => None,
    }
}

/// What stands between the quotes, from after the opening quote on: up to the
/// closing quote or the end, with escaped characters as they are meant.
pub open spec fn quoted_content(s: Seq<char>) -> Seq<char>
    decreases s.len(),
{
    if s.len() == 0 || s[0] == '"' {
        Seq::empty()
    } else if s[0] == '\\' {
        if s.len() == 1 {
            Seq::empty()
        } else {
            seq![s[1]] + quoted_content(s.skip(2))
        }
    } else {
        seq![s[0]] + quoted_content(s.skip(1))
    }
}

/// A token: up to a semicolon, white space or the end.
pub open spec fn token(s: Seq<char>) -> Seq<char>
    decreases s.len(),
{
    if s.len() == 0 || s[0] == ';' || is_white_space(s[0]) {
        Seq::empty()
    } else {
        seq![s[0]] + token(s.skip(1))
    }
}

/// The value of a header parameter.
pub open spec fn parameter_value(val: Seq<char>) -> Seq<char> {
    if val.len() > 0 && val[0] == '"' {
        quoted_content(val.skip(1))
    } else {
        token(val)
    }
}

/// Parses the value of a header parameter: a quoted string or a token.
pub fn parse_quoted_or_token(val: &str) -> (r: String)
    ensures
        r@ == parameter_value(val@),
{
    let v = chars_of(val);
    let mut out: Vec<char> = Vec::new();
    if v.len() > 0 && v[0] == '"' {
        let mut i: usize = 1;
        assert(out@ + quoted_content(v@.skip(1)) =~= parameter_value(v@));
        while i < v.len()
            invariant
                1 <= i <= v@.len(),
                v@ == val@,
                out@ + quoted_content(v@.skip(i as int)) == parameter_value(val@),
            decreases v@.len() - i,
        {
            let ghost rest = v@.skip(i as int);
            let ghost before = out@;
            let c: char = v[i];
            if c == '"' {
                assert(out@ + Seq::<char>::empty() =~= out@);
                return string_of(&out);
            }
            if c == '\\' {
                if i + 1 >= v.len() {
                    assert(out@ + Seq::<char>::empty() =~= out@);
                    return string_of(&out);
                }
                out.push(v[i + 1]);
                proof {
                    assert(rest.skip(2) =~= v@.skip(i + 2));
                    assert(out@ + quoted_content(rest.skip(2)) =~= before + (seq![rest[1]]
                        + quoted_content(rest.skip(2))));
                }
                i += 2;
            } else {
                out.push(c);
                proof {
                    assert(rest.skip(1) =~= v@.skip(i + 1));
                    assert(out@ + quoted_content(rest.skip(1)) =~= before + (seq![rest[0]]
                        + quoted_content(rest.skip(1))));
                }
                i += 1;
            }
        }
        assert(out@ + quoted_content(v@.skip(i as int)) =~= out@);
    } else {
        let mut i: usize = 0;
        assert(v@.skip(0) =~= v@);
        assert(out@ + token(v@.skip(0)) =~= parameter_value(v@));
        while i < v.len()
            invariant
                i <= v@.len(),
                v@ == val@,
                out@ + token(v@.skip(i as int)) == parameter_value(val@),
            decreases v@.len() - i,
        {
            let ghost rest = v@.skip(i as int);
            let ghost before = out@;
            let c: char = v[i];
            if c == ';' || white_space(c) {
                assert(out@ + Seq::<char>::empty() =~= out@);
                return string_of(&out);
            }
            out.push(c);
            proof {
                assert(rest.skip(1) =~= v@.skip(i + 1));
                assert(out@ + token(rest.skip(1)) =~= before + (seq![rest[0]] + token(
                    rest.skip(1),
                )));
            }
            i += 1;
        }
        assert(out@ + token(v@.skip(i as int)) =~= out@);
    }
    string_of(&out)
}

/// The names that a header gives so far: by `filename*` and by `filename`.
#[verifier::ext_equal]
pub struct Names {
    pub star: Option<Seq<char>>,
    pub plain: Option<Seq<char>>,
}

/// What one parameter (`key=value`) adds: a later one takes the place of an
/// earlier one of the same key.
pub open spec fn with_parameter(names: Names, segment: Seq<char>) -> Names {
    let s = trimmed(segment);
    let eq = position(s, '=') as int;
    if eq >= s.len() {
        names
    } else {
        let key = trimmed(s.take(eq));
        let val = trimmed(s.skip(eq + 1));
        if same_but_ascii_case(key, "filename*"@) {
            Names { star: ext_value(val), plain: names.plain }
        } else if same_but_ascii_case(key, "filename"@) {
            Names { star: names.star, plain: Some(parameter_value(val)) }
        } else {
            names
        }
    }
}

/// The names that the parameters give, one after each semicolon.
pub open spec fn with_parameters(names: Names, s: Seq<char>) -> Names
    decreases s.len(),
{
    let end = position(s, ';') as int;
    if end >= s.len() {
        with_parameter(names, s)
    } else {
        with_parameters(with_parameter(names, s.take(end)), s.skip(end + 1))
    }
}

/// The file name of a header value: what `filename*` gives goes before what
/// `filename` gives, and an empty name is none. What comes before the first
/// semicolon is the disposition type.
pub open spec fn disposition_filename(value: Seq<char>) -> Option<Seq<char>> {
    let start = position(value, ';') as int;
    if start >= value.len() {
        None
    } else {
        let names = with_parameters(Names { star: None, plain: None }, value.skip(start + 1));
        let name = match names.star {
            Some(text) => Some(text),
            None => names.plain,
        };
        match name {
            Some(text) => if text.len() == 0 {
                None
            } else {
                Some(text)
            },
            None => None,
        }
    }
}

/// What the two optional strings stand for.
spec fn names_of(star: Option<String>, plain: Option<String>) -> Names {
    Names { star: optional_text(star), plain: optional_text(plain) }
}

/// Takes one parameter into account.
fn take_parameter(segment: &Vec<char>, star: Option<String>, plain: Option<String>) -> (r: (
    Option<String>,
    Option<String>,
))
    ensures
        names_of(r.0, r.1) == with_parameter(names_of(star, plain), segment@),
{
    let s = trim(segment);
    assert(s@.skip(0) =~= s@);
    let eq: usize = find_char(&s, '=', 0);
    if eq >= s.len() {
        return (star, plain);
    }
    let raw_key = sub_chars(&s, 0, eq);
    let raw_val = sub_chars(&s, eq + 1, s.len());
    assert(raw_key@ =~= s@.take(eq as int));
    assert(raw_val@ =~= s@.skip(eq + 1));
    let key = trim(&raw_key);
    let val = string_of(&trim(&raw_val));
    if same_ignoring_ascii_case(&key, &chars_of("filename*")) {
        (parse_ext_value(val.as_str()), plain)
    } else if same_ignoring_ascii_case(&key, &chars_of("filename")) {
        (star, Some(parse_quoted_or_token(val.as_str())))
    } else {
        (star, plain)
    }
}

/// Takes the file name from the value of a `Content-Disposition` header.
pub fn parse_content_disposition(header_value: &str) -> (r: Option<String>)
    ensures
        optional_text(r) == disposition_filename(header_value@),
{
    let v = chars_of(header_value);
    assert(v@.skip(0) =~= v@);
    let start: usize = find_char(&v, ';', 0);
    if start >= v.len() {
        return None;
    }
    let mut star: Option<String> = None;
    let mut plain: Option<String> = None;
    let mut from: usize = start + 1;
    let ghost goal = with_parameters(Names { star: None, plain: None }, v@.skip(start + 1));
    let mut more: bool = true;
    while more
        invariant
            from <= v@.len(),
            more ==> with_parameters(names_of(star, plain), v@.skip(from as int)) == goal,
            !more ==> names_of(star, plain) == goal,
        decreases v@.len() - from + (if more {
            1int
        } else {
            0int
        }),
    {
        let end: usize = find_char(&v, ';', from);
        let segment = sub_chars(&v, from, end);
        proof {
            let rest = v@.skip(from as int);
            position_is_first(rest, ';');
            assert(segment@ =~= rest.take(position(rest, ';') as int));
            if end >= v@.len() {
                assert(segment@ =~= rest);
            } else {
                assert(rest.skip(position(rest, ';') as int + 1) =~= v@.skip(end + 1));
            }
        }
        let (s, p) = take_parameter(&segment, star, plain);
        star = s;
        plain = p;
        if end >= v.len() {
            more = false;
        } else {
            from = end + 1;
        }
    }
    let name: Option<String> = match star {
        Some(text) => Some(text),
        None => plain,
    };
    match name {
        Some(text) => if text.as_str().is_empty() {
            None
        } else {
            Some(text)
        },
        None => None,
    }
}

/// The value of a header: what a server sent, where it is readable text.
/// Takes the file name from it.
pub fn content_disposition_filename(header_value: Option<&str>) -> (r: Option<String>)
    ensures
        optional_text(r) == (match optional_str(header_value) {
            Some(value) => disposition_filename(value),
            None => None,
        }),
{
    match header_value {
        Some(value) => parse_content_disposition(value),
        None => None,
    }
}

/// Whether the text is the octets one by one, each as `%` and two hexadecimal
/// digits of either case.
pub open spec fn is_percent_encoding(s: Seq<char>, bytes: Seq<u8>) -> bool
    decreases bytes.len(),
{
    if bytes.len() == 0 {
        s.len() == 0
    } else {
        &&& s.len() >= 3
        &&& s[0] == '%'
        &&& hex_digit(s[1]) == Some((bytes[0] / 16) as u8)
        &&& hex_digit(s[2]) == Some((bytes[0] % 16) as u8)
        &&& is_percent_encoding(s.skip(3), bytes.drop_first())
    }
}

proof fn encoded_octets(s: Seq<char>, bytes: Seq<u8>)
    requires
        is_percent_encoding(s, bytes),
    ensures
        octets(s) == Some(bytes),
    decreases bytes.len(),
{
    if bytes.len() == 0 {
        assert(bytes =~= Seq::empty());
    } else {
        let b = bytes[0];
        encoded_octets(s.skip(3), bytes.drop_first());
        assert(octet(s[1], s[2]) == Some(b));
        assert(seq![b] + bytes.drop_first() =~= bytes);
    }
}

/// Decoding gives back what was percent-encoded, in digits of either case.
pub proof fn percent_decoding_inverts_encoding(s: Seq<char>, text: Seq<char>)
    requires
        is_percent_encoding(s, encode_utf8(text)),
    ensures
        percent_decoded(s) == Some(text),
{
    encoded_octets(s, encode_utf8(text));
    vstd::utf8::encode_utf8_valid_utf8(text);
    vstd::utf8::encode_utf8_decode_utf8(text);
}

proof fn broken_octets(before: Seq<char>, rest: Seq<char>)
    requires
        octets(before) is Some,
        octets(rest) is None,
    ensures
        octets(before + rest) is None,
    decreases before.len(),
{
    let s = before + rest;
    if before.len() == 0 {
        assert(s =~= rest);
    } else {
        let n: int = if before[0] == '%' {
            3
        } else {
            1
        };
        broken_octets(before.skip(n), rest);
        assert(s.skip(n) =~= before.skip(n) + rest);
    }
}

/// A `%` that two hexadecimal digits do not follow, behind a text whose own
/// escapes are in order, makes the whole unreadable, whatever comes next.
pub proof fn broken_escape_is_refused(before: Seq<char>, rest: Seq<char>)
    requires
        octets(before) is Some,
        rest.len() > 0,
        rest[0] == '%',
        rest.len() < 3 || hex_digit(rest[1]) is None || hex_digit(rest[2]) is None,
    ensures
        percent_decoded(before + rest) is None,
{
    broken_octets(before, rest);
}

proof fn plain_octets(s: Seq<char>)
    requires
        !s.contains('%'),
    ensures
        octets(s) == Some(encode_utf8(s)),
    decreases s.len(),
{
    if s.len() > 0 {
        assert(s[0] != '%');
        let rest = s.skip(1);
        assert(rest =~= s.drop_first());
        assert(!rest.contains('%')) by {
            if rest.contains('%') {
                let i = choose|i: int| 0 <= i < rest.len() && rest[i] == '%';
                assert(s[i + 1] == '%');
            }
        }
        plain_octets(rest);
        let one = seq![s[0]];
        assert(one.drop_first() =~= Seq::empty());
        assert(encode_utf8(one.drop_first()) =~= Seq::empty());
        assert(encode_utf8(s) =~= encode_utf8(one) + encode_utf8(rest));
    } else {
        assert(encode_utf8(s) =~= Seq::empty());
    }
}

/// A text without `%` stands for itself.
pub proof fn percent_decoding_keeps_plain_text(s: Seq<char>)
    requires
        !s.contains('%'),
    ensures
        percent_decoded(s) == Some(s),
{
    plain_octets(s);
    vstd::utf8::encode_utf8_valid_utf8(s);
    vstd::utf8::encode_utf8_decode_utf8(s);
}

/// A text with a backslash before each quote and each backslash.
pub open spec fn escaped(s: Seq<char>) -> Seq<char>
    decreases s.len(),
{
    if s.len() == 0 {
        Seq::empty()
    } else if s[0] == '"' || s[0] == '\\' {
        seq!['\\', s[0]] + escaped(s.skip(1))
    } else {
        seq![s[0]] + escaped(s.skip(1))
    }
}

proof fn quoted_content_unescapes(s: Seq<char>, after: Seq<char>)
    ensures
        quoted_content(escaped(s) + seq!['"'] + after) == s,
    decreases s.len(),
{
    let whole = escaped(s) + seq!['"'] + after;
    if s.len() == 0 {
        assert(whole[0] == '"');
        assert(s =~= Seq::empty());
    } else {
        let rest = s.skip(1);
        quoted_content_unescapes(rest, after);
        let tail = escaped(rest) + seq!['"'] + after;
        if s[0] == '"' || s[0] == '\\' {
            assert(whole.skip(2) =~= tail);
            assert(whole[0] == '\\' && whole[1] == s[0]);
        } else {
            assert(whole.skip(1) =~= tail);
            assert(whole[0] == s[0]);
        }
        assert(seq![s[0]] + rest =~= s);
    }
}

/// A quoted value gives back what was quoted, whatever follows the closing
/// quote.
pub proof fn quoting_is_undone(s: Seq<char>, after: Seq<char>)
    ensures
        parameter_value(seq!['"'] + escaped(s) + seq!['"'] + after) == s,
{
    let val = seq!['"'] + escaped(s) + seq!['"'] + after;
    assert(val[0] == '"');
    assert(val.skip(1) =~= escaped(s) + seq!['"'] + after);
    quoted_content_unescapes(s, after);
}

proof fn open_quote_unescapes(s: Seq<char>, tail: Seq<char>)
    requires
        tail.len() == 0 || tail =~= seq!['\\'],
    ensures
        quoted_content(escaped(s) + tail) == s,
    decreases s.len(),
{
    let whole = escaped(s) + tail;
    if s.len() == 0 {
        assert(whole =~= tail);
        assert(s =~= Seq::empty());
    } else {
        let rest = s.skip(1);
        open_quote_unescapes(rest, tail);
        if s[0] == '"' || s[0] == '\\' {
            assert(whole.skip(2) =~= escaped(rest) + tail);
            assert(whole[0] == '\\' && whole[1] == s[0]);
        } else {
            assert(whole.skip(1) =~= escaped(rest) + tail);
            assert(whole[0] == s[0]);
        }
        assert(seq![s[0]] + rest =~= s);
    }
}

/// A quote that is never closed goes to the end of the value, where a last
/// backslash stands for nothing.
pub proof fn open_quote_goes_to_the_end(s: Seq<char>)
    ensures
        parameter_value(seq!['"'] + escaped(s)) == s,
        parameter_value(seq!['"'] + escaped(s) + seq!['\\']) == s,
{
    open_quote_unescapes(s, Seq::empty());
    open_quote_unescapes(s, seq!['\\']);
    assert(escaped(s) + Seq::<char>::empty() =~= escaped(s));
    assert((seq!['"'] + escaped(s)).skip(1) =~= escaped(s));
    assert((seq!['"'] + escaped(s) + seq!['\\']).skip(1) =~= escaped(s) + seq!['\\']);
}

/// Where a header gives a readable name by `filename*`, that is the name,
/// whatever `filename` says.
pub proof fn extended_name_goes_first(value: Seq<char>, names: Names)
    requires
        position(value, ';') < value.len(),
        names == with_parameters(
            (Names { star: None, plain: None }),
            value.skip(position(value, ';') as int + 1),
        ),
        names.star is Some,
        names.star->0.len() > 0,
    ensures
        disposition_filename(value) == names.star,
{
}

proof fn position_is(s: Seq<char>, c: char, k: int)
    requires
        0 <= k < s.len(),
        s[k] == c,
        forall|i: int| 0 <= i < k ==> s[i] != c,
    ensures
        position(s, c) == k,
{
    position_is_first(s, c);
    let p = position(s, c) as int;
    if p < k {
        assert(s[p] != c);
    } else if p > k {
        assert(s[k] != c);
    }
}

proof fn position_is_none(s: Seq<char>, c: char)
    requires
        forall|i: int| 0 <= i < s.len() ==> s[i] != c,
    ensures
        position(s, c) == s.len(),
{
    position_is_first(s, c);
    let p = position(s, c) as int;
    if p < s.len() {
        assert(s[p] != c);
    }
}

/// Whether the character does not stand in the text.
pub open spec fn lacks(s: Seq<char>, c: char) -> bool {
    forall|i: int| 0 <= i < s.len() ==> s[i] != c
}

/// Whether a text is free of white space at its ends.
pub open spec fn tight(s: Seq<char>) -> bool {
    s.len() > 0 && !is_white_space(s[0]) && !is_white_space(s.last())
}

proof fn white_is_not(s: Seq<char>, c: char)
    requires
        all_white(s),
        !is_white_space(c),
    ensures
        lacks(s, c),
{
    assert forall|i: int| 0 <= i < s.len() implies s[i] != c by {
        assert(is_white_space(s[i]));
    }
}

/// One parameter, with white space where it may stand: `filename*` sets the
/// extended name, `filename` the plain one, each whatever its case, and every
/// other key sets nothing.
pub proof fn parameter_sets_its_name(
    names: Names,
    w1: Seq<char>,
    key: Seq<char>,
    w2: Seq<char>,
    w3: Seq<char>,
    val: Seq<char>,
    w4: Seq<char>,
)
    requires
        all_white(w1),
        all_white(w2),
        all_white(w3),
        all_white(w4),
        tight(key),
        lacks(key, '='),
        tight(val),
    ensures
        ({
            let after = with_parameter(names, w1 + key + w2 + seq!['='] + w3 + val + w4);
            &&& same_but_ascii_case(key, "filename"@) ==> after.plain == Some(parameter_value(val))
                && after.star == names.star
            &&& same_but_ascii_case(key, "filename*"@) ==> after.star == ext_value(val)
                && after.plain == names.plain
            &&& !same_but_ascii_case(key, "filename"@) && !same_but_ascii_case(key, "filename*"@)
                ==> after == names
        }),
{
    reveal_strlit("filename");
    reveal_strlit("filename*");
    assert("filename"@.len() != "filename*"@.len());
    let core = key + w2 + seq!['='] + w3 + val;
    let whole = w1 + key + w2 + seq!['='] + w3 + val + w4;
    assert(whole =~= w1 + core + w4);
    assert(core[0] == key[0]);
    assert(core.last() == val.last());
    trimming_keeps_the_core(w1, core, w4);
    white_is_not(w2, '=');
    let eq = (key + w2).len() as int;
    assert(core[eq] == '=');
    assert forall|i: int| 0 <= i < eq implies core[i] != '=' by {
        if i < key.len() {
            assert(core[i] == key[i]);
        } else {
            assert(core[i] == w2[i - key.len()]);
        }
    }
    position_is(core, '=', eq);
    assert(core.take(eq) =~= Seq::<char>::empty() + key + w2);
    trimming_keeps_the_core(Seq::empty(), key, w2);
    assert(core.skip(eq + 1) =~= w3 + val + Seq::<char>::empty());
    trimming_keeps_the_core(w3, val, Seq::empty());
}

/// A segment without an equals sign sets nothing.
pub proof fn segment_without_value_sets_nothing(names: Names, segment: Seq<char>)
    requires
        lacks(segment, '='),
    ensures
        with_parameter(names, segment) == names,
{
    let s = trimmed(segment);
    trimmed_lacks(segment, '=');
    position_is_none(s, '=');
}

proof fn trimmed_lacks(s: Seq<char>, c: char)
    requires
        lacks(s, c),
    ensures
        lacks(trimmed(s), c),
{
    trim_start_lacks(s, c);
    trim_end_lacks(trim_start(s), c);
}

proof fn trim_start_lacks(s: Seq<char>, c: char)
    requires
        lacks(s, c),
    ensures
        lacks(trim_start(s), c),
    decreases s.len(),
{
    if s.len() > 0 && is_white_space(s[0]) {
        trim_start_lacks(s.drop_first(), c);
    }
}

proof fn trim_end_lacks(s: Seq<char>, c: char)
    requires
        lacks(s, c),
    ensures
        lacks(trim_end(s), c),
    decreases s.len(),
{
    if s.len() > 0 && is_white_space(s.last()) {
        trim_end_lacks(s.drop_last(), c);
    }
}

/// The parameters of two runs, one after the other: the second is read from
/// where the first left off.
pub proof fn parameters_follow_each_other(names: Names, a: Seq<char>, b: Seq<char>)
    ensures
        with_parameters(names, a + seq![';'] + b) == with_parameters(with_parameters(names, a), b),
    decreases a.len(),
{
    let s = a + seq![';'] + b;
    let end = position(a, ';') as int;
    position_is_first(a, ';');
    if end < a.len() {
        assert forall|i: int| 0 <= i < end implies s[i] != ';' by {
            assert(a[i] != ';');
        }
        position_is(s, ';', end);
        assert(s.take(end) =~= a.take(end));
        assert(s.skip(end + 1) =~= a.skip(end + 1) + seq![';'] + b);
        parameters_follow_each_other(with_parameter(names, a.take(end)), a.skip(end + 1), b);
    } else {
        assert forall|i: int| 0 <= i < a.len() implies s[i] != ';' by {
            assert(a[i] != ';');
        }
        position_is(s, ';', a.len() as int);
        assert(s.take(a.len() as int) =~= a);
        assert(s.skip(a.len() as int + 1) =~= b);
    }
}

/// A token is read up to a semicolon or white space.
pub proof fn token_is_taken(s: Seq<char>, after: Seq<char>)
    requires
        s.len() > 0 ==> s[0] != '"',
        s.len() == 0 && after.len() > 0 ==> after[0] != '"',
        forall|i: int| 0 <= i < s.len() ==> (#[trigger] s[i]) != ';' && !is_white_space(s[i]),
        after.len() > 0 ==> after[0] == ';' || is_white_space(after[0]),
    ensures
        parameter_value(s + after) == s,
    decreases s.len(),
{
    token_ends(s, after);
    if s.len() > 0 {
        assert((s + after)[0] == s[0]);
    } else {
        assert(s + after =~= after);
    }
}

proof fn token_ends(s: Seq<char>, after: Seq<char>)
    requires
        forall|i: int| 0 <= i < s.len() ==> (#[trigger] s[i]) != ';' && !is_white_space(s[i]),
        after.len() > 0 ==> after[0] == ';' || is_white_space(after[0]),
    ensures
        token(s + after) == s,
    decreases s.len(),
{
    let all = s + after;
    if s.len() == 0 {
        assert(all =~= after);
        assert(token(all) =~= s);
    } else {
        assert(all[0] == s[0]);
        assert(all.skip(1) =~= s.skip(1) + after);
        assert forall|i: int| 0 <= i < s.skip(1).len() implies (#[trigger] s.skip(1)[i]) != ';'
            && !is_white_space(s.skip(1)[i]) by {
            assert(s.skip(1)[i] == s[i + 1]);
        }
        token_ends(s.skip(1), after);
        assert(seq![s[0]] + s.skip(1) =~= s);
    }
}

/// An extended value in UTF-8, in any language, stands for what its value is
/// percent-encoded from; in another charset, or without its two quotes, it
/// stands for nothing.
pub proof fn extended_value_is_decoded(charset: Seq<char>, language: Seq<char>, value: Seq<char>)
    requires
        lacks(charset, '\''),
        lacks(language, '\''),
    ensures
        same_but_ascii_case(charset, "UTF-8"@) ==> ext_value(
            charset + seq!['\''] + language + seq!['\''] + value,
        ) == percent_decoded(value),
        !same_but_ascii_case(charset, "UTF-8"@) ==> ext_value(
            charset + seq!['\''] + language + seq!['\''] + value,
        ) is None,
        ext_value(charset) is None,
        ext_value(charset + seq!['\''] + language) is None,
{
    let raw = charset + seq!['\''] + language + seq!['\''] + value;
    let a = charset.len() as int;
    assert forall|i: int| 0 <= i < a implies raw[i] != '\'' by {
        assert(raw[i] == charset[i]);
    }
    position_is(raw, '\'', a);
    assert(raw.take(a) =~= charset);
    let rest = raw.skip(a + 1);
    assert(rest =~= language + seq!['\''] + value);
    position_is(rest, '\'', language.len() as int);
    assert(rest.skip(language.len() as int + 1) =~= value);
    position_is_none(charset, '\'');
    let half = charset + seq!['\''] + language;
    assert forall|i: int| 0 <= i < a implies half[i] != '\'' by {
        assert(half[i] == charset[i]);
    }
    position_is(half, '\'', a);
    assert(half.skip(a + 1) =~= language);
    position_is_none(language, '\'');
}

/// What a text stands for is what its parts stand for, one after the other, as
/// long as no escape is cut in two.
pub proof fn octets_follow_each_other(a: Seq<char>, b: Seq<char>)
    requires
        octets(a) is Some,
    ensures
        octets(a + b) == (match octets(b) {
            Some(rest) => Some(octets(a)->0 + rest),
            None => None,
        }),
    decreases a.len(),
{
    let s = a + b;
    if a.len() == 0 {
        assert(s =~= b);
        if octets(b) is Some {
            assert(octets(a)->0 + octets(b)->0 =~= octets(b)->0);
        }
    } else {
        let n: int = if a[0] == '%' {
            3
        } else {
            1
        };
        octets_follow_each_other(a.skip(n), b);
        assert(s.skip(n) =~= a.skip(n) + b);
        if octets(b) is Some {
            let one = if a[0] == '%' {
                seq![octet(a[1], a[2])->0]
            } else {
                encode_utf8(seq![a[0]])
            };
            assert(one + (octets(a.skip(n))->0 + octets(b)->0) =~= one + octets(a.skip(n))->0
                + octets(b)->0);
        }
    }
}

proof fn escaped_ends(name: Seq<char>)
    ensures
        name.len() > 0 ==> escaped(name).len() > 0,
        lacks(name, ';') ==> lacks(escaped(name), ';'),
    decreases name.len(),
{
    if name.len() > 0 {
        escaped_ends(name.skip(1));
        if lacks(name, ';') {
            assert(name[0] != ';');
            assert(lacks(name.skip(1), ';'));
        }
    }
}

/// The name that a header gives by its parameters: the extended one, or else the
/// plain one; an empty name is none.
pub proof fn names_after_type(kind: Seq<char>, rest: Seq<char>)
    requires
        lacks(kind, ';'),
    ensures
        ({
            let names = with_parameters(Names { star: None, plain: None }, rest);
            let name = if names.star is Some {
                names.star
            } else {
                names.plain
            };
            disposition_filename(kind + seq![';'] + rest) == (if name is Some && name->0.len() == 0 {
                None
            } else {
                name
            })
        }),
{
    let value = kind + seq![';'] + rest;
    let k = kind.len() as int;
    assert forall|i: int| 0 <= i < k implies value[i] != ';' by {
        assert(value[i] == kind[i]);
    }
    position_is(value, ';', k);
    assert(value.skip(k + 1) =~= rest);
}

proof fn lone_parameter(names: Names, segment: Seq<char>)
    requires
        lacks(segment, ';'),
    ensures
        with_parameters(names, segment) == with_parameter(names, segment),
{
    position_is_none(segment, ';');
}

/// A header with a quoted name gives exactly that name, whatever the name holds
/// but semicolons, however the key is capitalised and wherever white space
/// stands.
pub proof fn quoted_name_is_taken(
    kind: Seq<char>,
    w1: Seq<char>,
    key: Seq<char>,
    w2: Seq<char>,
    w3: Seq<char>,
    name: Seq<char>,
    w4: Seq<char>,
)
    requires
        lacks(kind, ';'),
        all_white(w1),
        all_white(w2),
        all_white(w3),
        all_white(w4),
        same_but_ascii_case(key, "filename"@),
        name.len() > 0,
        lacks(name, ';'),
    ensures
        disposition_filename(
            kind + seq![';'] + (w1 + key + w2 + seq!['='] + w3 + (seq!['"'] + escaped(name) + seq![
                '"',
            ]) + w4),
        ) == Some(name),
{
    let val = seq!['"'] + escaped(name) + seq!['"'];
    let segment = w1 + key + w2 + seq!['='] + w3 + val + w4;
    escaped_ends(name);
    filename_key(key);
    assert(val[0] == '"' && val.last() == '"');
    parameter_sets_its_name(Names { star: None, plain: None }, w1, key, w2, w3, val, w4);
    quoting_is_undone(name, Seq::empty());
    assert(seq!['"'] + escaped(name) + seq!['"'] + Seq::<char>::empty() =~= val);
    white_is_not(w1, ';');
    white_is_not(w2, ';');
    white_is_not(w3, ';');
    white_is_not(w4, ';');
    assert(lacks(segment, ';'));
    lone_parameter(Names { star: None, plain: None }, segment);
    names_after_type(kind, segment);
}

proof fn filename_key(key: Seq<char>)
    requires
        same_but_ascii_case(key, "filename"@),
    ensures
        tight(key),
        lacks(key, '='),
        lacks(key, ';'),
        !same_but_ascii_case(key, "filename*"@),
{
    reveal_strlit("filename");
    reveal_strlit("filename*");
    assert("filename"@.len() != "filename*"@.len());
    assert forall|i: int| 0 <= i < key.len() implies key[i] != '=' && key[i] != ';'
        && !is_white_space(key[i]) by {
        assert(ascii_lower(key[i]) == ascii_lower("filename"@[i]));
    }
}

proof fn filename_star_key(key: Seq<char>)
    requires
        same_but_ascii_case(key, "filename*"@),
    ensures
        tight(key),
        lacks(key, '='),
        lacks(key, ';'),
        !same_but_ascii_case(key, "filename"@),
{
    reveal_strlit("filename");
    reveal_strlit("filename*");
    assert("filename"@.len() != "filename*"@.len());
    assert forall|i: int| 0 <= i < key.len() implies key[i] != '=' && key[i] != ';'
        && !is_white_space(key[i]) by {
        assert(ascii_lower(key[i]) == ascii_lower("filename*"@[i]));
    }
}

/// A header with a name as a token gives exactly that name.
pub proof fn token_name_is_taken(kind: Seq<char>, w1: Seq<char>, key: Seq<char>, name: Seq<char>)
    requires
        lacks(kind, ';'),
        all_white(w1),
        same_but_ascii_case(key, "filename"@),
        name.len() > 0,
        name[0] != '"',
        forall|i: int| 0 <= i < name.len() ==> (#[trigger] name[i]) != ';' && !is_white_space(name[i]),
    ensures
        disposition_filename(kind + seq![';'] + (w1 + key + seq!['='] + name)) == Some(name),
{
    let none = Seq::<char>::empty();
    let segment = w1 + key + seq!['='] + name;
    filename_key(key);
    assert(!is_white_space(name[0]) && !is_white_space(name[name.len() - 1]));
    parameter_sets_its_name(Names { star: None, plain: None }, w1, key, none, none, name, none);
    assert(w1 + key + none + seq!['='] + none + name + none =~= segment);
    token_is_taken(name, none);
    assert(name + none =~= name);
    white_is_not(w1, ';');
    assert(lacks(segment, ';'));
    lone_parameter(Names { star: None, plain: None }, segment);
    names_after_type(kind, segment);
}

/// A readable name by `filename*` is the name of the header, alone, before a
/// plain name and behind one.
pub proof fn extended_name_is_taken(
    kind: Seq<char>,
    star_key: Seq<char>,
    charset: Seq<char>,
    language: Seq<char>,
    encoded: Seq<char>,
    name: Seq<char>,
    plain_key: Seq<char>,
    plain: Seq<char>,
)
    requires
        lacks(kind, ';'),
        same_but_ascii_case(star_key, "filename*"@),
        same_but_ascii_case(plain_key, "filename"@),
        same_but_ascii_case(charset, "UTF-8"@),
        lacks(language, '\''),
        lacks(language, ';'),
        lacks(encoded, ';'),
        tight(encoded),
        percent_decoded(encoded) == Some(name),
        name.len() > 0,
        lacks(plain, ';'),
        tight(plain),
    ensures
        ({
            let star = star_key + seq!['='] + (charset + seq!['\''] + language + seq!['\'']
                + encoded);
            let other = plain_key + seq!['='] + plain;
            &&& disposition_filename(kind + seq![';'] + star) == Some(name)
            &&& disposition_filename(kind + seq![';'] + (star + seq![';'] + other)) == Some(name)
            &&& disposition_filename(kind + seq![';'] + (other + seq![';'] + star)) == Some(name)
        }),
{
    let none = Seq::<char>::empty();
    let start = Names { star: None, plain: None };
    let val = charset + seq!['\''] + language + seq!['\''] + encoded;
    let star = star_key + seq!['='] + val;
    let other = plain_key + seq!['='] + plain;
    filename_star_key(star_key);
    filename_key(plain_key);
    reveal_strlit("UTF-8");
    assert forall|i: int| 0 <= i < charset.len() implies charset[i] != '\'' && charset[i] != ';'
        && !is_white_space(charset[i]) by {
        assert(ascii_lower(charset[i]) == ascii_lower("UTF-8"@[i]));
    }
    assert("UTF-8"@.len() == 5);
    assert(val[0] == charset[0] && val.last() == encoded.last());
    extended_value_is_decoded(charset, language, encoded);
    assert(none + star_key + none + seq!['='] + none + val + none =~= star);
    assert(none + plain_key + none + seq!['='] + none + plain + none =~= other);
    parameter_sets_its_name(start, none, star_key, none, none, val, none);
    parameter_sets_its_name(start, none, plain_key, none, none, plain, none);
    let starred = with_parameter(start, star);
    let plained = with_parameter(start, other);
    parameter_sets_its_name(starred, none, plain_key, none, none, plain, none);
    parameter_sets_its_name(plained, none, star_key, none, none, val, none);
    assert(lacks(star, ';'));
    assert(lacks(other, ';'));
    lone_parameter(start, star);
    lone_parameter(start, other);
    lone_parameter(starred, other);
    lone_parameter(plained, star);
    parameters_follow_each_other(start, star, other);
    parameters_follow_each_other(start, other, star);
    names_after_type(kind, star);
    names_after_type(kind, star + seq![';'] + other);
    names_after_type(kind, other + seq![';'] + star);
}

/// Where the extended name cannot be read, the plain one is the name, in either
/// order.
pub proof fn unreadable_extended_name_is_passed_over(
    kind: Seq<char>,
    star_key: Seq<char>,
    val: Seq<char>,
    plain_key: Seq<char>,
    plain: Seq<char>,
)
    requires
        lacks(kind, ';'),
        same_but_ascii_case(star_key, "filename*"@),
        same_but_ascii_case(plain_key, "filename"@),
        tight(val),
        lacks(val, ';'),
        ext_value(val) is None,
        lacks(plain, ';'),
        tight(plain),
        parameter_value(plain).len() > 0,
    ensures
        ({
            let star = star_key + seq!['='] + val;
            let other = plain_key + seq!['='] + plain;
            let name = Some(parameter_value(plain));
            &&& disposition_filename(kind + seq![';'] + (star + seq![';'] + other)) == name
            &&& disposition_filename(kind + seq![';'] + (other + seq![';'] + star)) == name
            &&& disposition_filename(kind + seq![';'] + star) is None
        }),
{
    let none = Seq::<char>::empty();
    let start = Names { star: None, plain: None };
    let star = star_key + seq!['='] + val;
    let other = plain_key + seq!['='] + plain;
    filename_star_key(star_key);
    filename_key(plain_key);
    assert(none + star_key + none + seq!['='] + none + val + none =~= star);
    assert(none + plain_key + none + seq!['='] + none + plain + none =~= other);
    parameter_sets_its_name(start, none, star_key, none, none, val, none);
    parameter_sets_its_name(start, none, plain_key, none, none, plain, none);
    let starred = with_parameter(start, star);
    let plained = with_parameter(start, other);
    parameter_sets_its_name(starred, none, plain_key, none, none, plain, none);
    parameter_sets_its_name(plained, none, star_key, none, none, val, none);
    assert(lacks(star, ';'));
    assert(lacks(other, ';'));
    lone_parameter(start, star);
    lone_parameter(start, other);
    lone_parameter(starred, other);
    lone_parameter(plained, star);
    parameters_follow_each_other(start, star, other);
    parameters_follow_each_other(start, other, star);
    names_after_type(kind, star);
    names_after_type(kind, star + seq![';'] + other);
    names_after_type(kind, other + seq![';'] + star);
}

/// A header without parameters gives no name, and neither does one whose only
/// name is empty.
pub proof fn nothing_gives_no_name(kind: Seq<char>, key: Seq<char>)
    requires
        lacks(kind, ';'),
        same_but_ascii_case(key, "filename"@),
    ensures
        disposition_filename(kind) is None,
        disposition_filename(kind + seq![';'] + (key + seq!['=', '"', '"'])) is None,
{
    position_is_none(kind, ';');
    let none = Seq::<char>::empty();
    let val = seq!['"', '"'];
    let segment = key + seq!['=', '"', '"'];
    filename_key(key);
    parameter_sets_its_name(Names { star: None, plain: None }, none, key, none, none, val, none);
    assert(none + key + none + seq!['='] + none + val + none =~= segment);
    assert(escaped(none) =~= none);
    quoting_is_undone(none, none);
    assert(seq!['"'] + escaped(none) + seq!['"'] + none =~= val);
    assert(lacks(segment, ';'));
    lone_parameter(Names { star: None, plain: None }, segment);
    names_after_type(kind, segment);
}

/// The sixteen hexadecimal digits, in either case, and nothing else.
pub proof fn hex_digits_are_sixteen(c: char, n: int)
    requires
        0 <= n < 16,
    ensures
        hex_digit(c) == Some(n as u8) <==> c == "0123456789abcdef"@[n] || c
            == "0123456789ABCDEF"@[n],
        hex_digit(c) matches Some(m) ==> m < 16,
{
    reveal_strlit("0123456789abcdef");
    reveal_strlit("0123456789ABCDEF");
}

/// A quoted value is read character by character: a backslash stands for the
/// character behind it, whichever it is, the closing quote ends the value, and
/// every other character stands for itself.
pub proof fn quoted_value_is_read_by_character(c: char, rest: Seq<char>)
    ensures
        parameter_value(seq!['"', '\\', c] + rest) == seq![c] + parameter_value(seq!['"'] + rest),
        c != '"' && c != '\\' ==> parameter_value(seq!['"', c] + rest) == seq![c] + parameter_value(
            seq!['"'] + rest,
        ),
        parameter_value(seq!['"', '"'] + rest).len() == 0,
        parameter_value(seq!['"']).len() == 0,
{
    let escape = seq!['"', '\\', c] + rest;
    assert(escape[0] == '"');
    assert(escape.skip(1)[0] == '\\' && escape.skip(1)[1] == c);
    assert(escape.skip(1).skip(2) =~= rest);
    let open = seq!['"'] + rest;
    assert(open[0] == '"');
    assert(open.skip(1) =~= rest);
    let plain = seq!['"', c] + rest;
    assert(plain[0] == '"');
    assert(plain.skip(1)[0] == c);
    assert(plain.skip(1).skip(1) =~= rest);
    let closed = seq!['"', '"'] + rest;
    assert(closed[0] == '"' && closed.skip(1)[0] == '"');
}

/// An escape stands for the octet that its two digits make, the first of them
/// sixteen times; any other character stands for its UTF-8 form.
pub proof fn escape_is_one_octet(high: char, low: char, c: char)
    ensures
        ({
            let escape = octets(seq!['%', high, low]);
            match (hex_digit(high), hex_digit(low)) {
                (Some(h), Some(l)) => escape == Some(seq![(16 * h + l) as u8]),
                _ => escape is None,
            }
        }),
        c != '%' ==> octets(seq![c]) == Some(encode_utf8(seq![c])),
        octets(Seq::empty()) == Some(Seq::<u8>::empty()),
{
    let none = Seq::<char>::empty();
    let escape = seq!['%', high, low];
    assert(escape.skip(3) =~= none);
    assert(octets(none) == Some(Seq::<u8>::empty()));
    if hex_digit(high) is Some && hex_digit(low) is Some {
        let h = hex_digit(high)->0;
        let l = hex_digit(low)->0;
        assert(h * 16 + l == 16 * h + l);
        assert(seq![(16 * h + l) as u8] + Seq::<u8>::empty() =~= seq![(16 * h + l) as u8]);
    }
    let one = seq![c];
    assert(one.skip(1) =~= none);
    assert(encode_utf8(one) + Seq::<u8>::empty() =~= encode_utf8(one));
}

/// The octets of a text are read as UTF-8: where they are the UTF-8 form of
/// another text, that is what the text stands for, and where they are not UTF-8
/// it stands for nothing.
pub proof fn octets_are_read_as_utf8(s: Seq<char>, text: Seq<char>, bytes: Seq<u8>)
    ensures
        octets(s) == Some(encode_utf8(text)) ==> percent_decoded(s) == Some(text),
        octets(s) == Some(bytes) && !valid_utf8(bytes) ==> percent_decoded(s) is None,
        octets(s) is None ==> percent_decoded(s) is None,
{
    vstd::utf8::encode_utf8_valid_utf8(text);
    vstd::utf8::encode_utf8_decode_utf8(text);
}

} // verus!
