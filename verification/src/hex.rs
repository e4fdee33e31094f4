//! Hex palette text: one six-digit hex colour per nonblank line.
//!
//! Parsing works over the UTF-8 bytes of the input text: lines are split
//! on `\n`, each line is trimmed of surrounding spaces, tabs and carriage
//! returns, blank lines are skipped, and every remaining line must be
//! exactly six hex digits.

use vstd::prelude::*;
use vstd::arithmetic::div_mod::lemma_fundamental_div_mod;
use vstd::arithmetic::div_mod::lemma_div_pos_is_pos;
use vstd::arithmetic::div_mod::lemma_mod_division_less_than_divisor;
use vstd::string::StringExecFns;
use vstd::string::StringSliceAdditionalSpecFns;
use vstd::utf8::encode_utf8;
use crate::colour::Rgb;
use crate::error::PaletteError;
use crate::palette::Palette;

verus! {

/// Whitespace trimmed from the ends of a line: space, tab and carriage
/// return.
pub open spec fn is_space(b: u8) -> bool {
    b == 32 || b == 9 || b == 13
}

/// An ASCII hex digit, either case.
pub open spec fn is_hex_digit(b: u8) -> bool {
    (48 <= b <= 57) || (97 <= b <= 102) || (65 <= b <= 70)
}

/// The value of an ASCII hex digit.
pub open spec fn hex_val(b: u8) -> int
    recommends
        is_hex_digit(b),
{
    if 48 <= b <= 57 {
        b - 48
    } else if 97 <= b <= 102 {
        b - 87
    } else {
        b - 55
    }
}

/// The line with its leading whitespace removed.
pub open spec fn trim_front(s: Seq<u8>) -> Seq<u8>
    decreases s.len(),
{
    if s.len() > 0 && is_space(s[0]) {
        trim_front(s.drop_first())
    } else {
        s
    }
}

/// The line with its trailing whitespace removed.
pub open spec fn trim_back(s: Seq<u8>) -> Seq<u8>
    decreases s.len(),
{
    if s.len() > 0 && is_space(s[s.len() - 1]) {
        trim_back(s.drop_last())
    } else {
        s
    }
}

/// The line with whitespace removed from both ends.
pub open spec fn trim_spec(s: Seq<u8>) -> Seq<u8> {
    trim_back(trim_front(s))
}

/// The position of the first newline byte, or the length if there is none.
pub open spec fn first_nl(s: Seq<u8>) -> int
    decreases s.len(),
{
    if s.len() == 0 {
        0
    } else if s[0] == 10 {
        0
    } else {
        1 + first_nl(s.drop_first())
    }
}

/// The text split at newline bytes. Text without a newline is a single
/// line; a trailing newline yields a final empty line.
pub open spec fn split_lines(s: Seq<u8>) -> Seq<Seq<u8>>
    decreases s.len(),
{
    let i = first_nl(s);
    if 0 <= i < s.len() {
        seq![s.take(i)] + split_lines(s.skip(i + 1))
    } else {
        seq![s]
    }
}

/// A trimmed line that is exactly six hex digits.
pub open spec fn is_colour_line(t: Seq<u8>) -> bool {
    t.len() == 6 && forall|i: int| 0 <= i < 6 ==> is_hex_digit(#[trigger] t[i])
}

/// The colour a six-hex-digit line denotes.
pub open spec fn colour_of_line(t: Seq<u8>) -> Rgb
    recommends
        is_colour_line(t),
{
    Rgb {
        r: (hex_val(t[0]) * 16 + hex_val(t[1])) as u8,
        g: (hex_val(t[2]) * 16 + hex_val(t[3])) as u8,
        b: (hex_val(t[4]) * 16 + hex_val(t[5])) as u8,
    }
}

/// Folds the lines into the colours collected so far: blank lines are
/// skipped, colour lines append their colour, anything else fails.
pub open spec fn parse_lines(ls: Seq<Seq<u8>>, acc: Seq<Rgb>) -> Option<Seq<Rgb>>
    decreases ls.len(),
{
    if ls.len() == 0 {
        Some(acc)
    } else {
        let t = trim_spec(ls[0]);
        if t.len() == 0 {
            parse_lines(ls.drop_first(), acc)
        } else if is_colour_line(t) {
            parse_lines(ls.drop_first(), acc.push(colour_of_line(t)))
        } else {
            None
        }
    }
}

/// What hex palette text denotes: the colours of its nonblank lines in
/// order, or nothing if some nonblank line is not six hex digits.
pub open spec fn parse_hex_spec(bytes: Seq<u8>) -> Option<Seq<Rgb>> {
    parse_lines(split_lines(bytes), Seq::empty())
}

/// `first_nl` is determined by where the first newline sits.
pub(crate) proof fn lemma_first_nl_is(s: Seq<u8>, k: int)
    requires
        0 <= k <= s.len(),
        forall|j: int| 0 <= j < k ==> #[trigger] s[j] != 10,
        k == s.len() || s[k] == 10,
    ensures
        first_nl(s) == k,
    decreases s.len(),
{
    if s.len() > 0 && k > 0 {
        let rest = s.drop_first();
        assert(forall|j: int| 0 <= j < k - 1 ==> rest[j] == s[j + 1]);
        lemma_first_nl_is(rest, k - 1);
    }
}

/// `trim_front` is determined by where the leading whitespace ends.
pub(crate) proof fn lemma_trim_front_is(s: Seq<u8>, k: int)
    requires
        0 <= k <= s.len(),
        forall|j: int| 0 <= j < k ==> is_space(#[trigger] s[j]),
        k == s.len() || !is_space(s[k]),
    ensures
        trim_front(s) == s.skip(k),
    decreases s.len(),
{
    if s.len() > 0 && k > 0 {
        let rest = s.drop_first();
        assert(forall|j: int| 0 <= j < k - 1 ==> rest[j] == s[j + 1]);
        lemma_trim_front_is(rest, k - 1);
        assert(rest.skip(k - 1) =~= s.skip(k));
    } else {
        assert(s.skip(0) =~= s);
    }
}

/// `trim_back` is determined by where the trailing whitespace starts.
pub(crate) proof fn lemma_trim_back_is(s: Seq<u8>, k: int)
    requires
        0 <= k <= s.len(),
        forall|j: int| k <= j < s.len() ==> is_space(#[trigger] s[j]),
        k == 0 || !is_space(s[k - 1]),
    ensures
        trim_back(s) == s.take(k),
    decreases s.len(),
{
    if s.len() > 0 && k < s.len() {
        let rest = s.drop_last();
        assert(forall|j: int| 0 <= j < rest.len() ==> rest[j] == s[j]);
        lemma_trim_back_is(rest, k);
        assert(rest.take(k) =~= s.take(k));
    } else {
        assert(s.take(s.len() as int) =~= s);
    }
}

/// A line's trim is the subrange whose ends skip exactly the whitespace.
pub(crate) proof fn lemma_trim_is(s: Seq<u8>, a: int, z: int)
    requires
        0 <= a <= z <= s.len(),
        forall|j: int| 0 <= j < a ==> is_space(#[trigger] s[j]),
        forall|j: int| z <= j < s.len() ==> is_space(#[trigger] s[j]),
        a == s.len() || !is_space(s[a]) || a == z,
        z == 0 || !is_space(s[z - 1]) || a == z,
    ensures
        a < z ==> trim_spec(s) == s.subrange(a, z),
        a == z ==> trim_spec(s).len() == 0,
{
    if a < z {
        lemma_trim_front_is(s, a);
        let f = s.skip(a);
        assert(forall|j: int| 0 <= j < f.len() ==> f[j] == s[a + j]);
        lemma_trim_back_is(f, z - a);
        assert(f.take(z - a) =~= s.subrange(a, z));
    } else {
        // everything is whitespace
        lemma_trim_front_is(s, s.len() as int);
        assert(s.skip(s.len() as int) =~= Seq::<u8>::empty());
    }
}

impl Palette {
    /// Parses hex palette text: one six-hex-digit colour per nonblank
    /// line, surrounding whitespace tolerated, blank lines skipped. Any
    /// other line fails the whole text with [`PaletteError::ParseError`].
    #[verifier::rlimit(100)]
    pub fn from_hex_text(input: &str) -> (r: Result<Palette, PaletteError>)
        ensures
            r is Ok <==> parse_hex_spec(input.spec_bytes()) is Some,
            r is Ok ==> r.unwrap()@ == parse_hex_spec(input.spec_bytes()).unwrap(),
            r is Err ==> r == Result::<Palette, PaletteError>::Err(PaletteError::ParseError),
    {
        let b: &[u8] = input.as_bytes();
        let ghost bytes = input.spec_bytes();
        let m = b.len();
        proof {
            assert(bytes.skip(0) =~= bytes);
        }
        let mut colours: Vec<Rgb> = Vec::new();
        let mut pos: usize = 0;
        while pos <= m
            invariant
                b@ == bytes,
                bytes == input.spec_bytes(),
                m == bytes.len(),
                0 <= pos <= m,
                parse_hex_spec(bytes) == parse_lines(
                    split_lines(bytes.skip(pos as int)),
                    colours@,
                ),
            decreases m + 1 - pos,
        {
            // find the end of the line starting at pos
            let mut end: usize = pos;
            while end < m && b[end] != 10
                invariant
                    b@ == bytes,
                    m == bytes.len(),
                    pos <= end <= m,
                    forall|j: int| pos <= j < end ==> #[trigger] bytes[j] != 10,
                decreases m - end,
            {
                end += 1;
            }
            let ghost line = bytes.subrange(pos as int, end as int);
            proof {
                let s = bytes.skip(pos as int);
                assert(forall|j: int| 0 <= j < s.len() ==> s[j] == bytes[pos + j]);
                lemma_first_nl_is(s, end - pos);
                assert(s.take(end - pos) =~= line);
                if end < m {
                    assert(s.skip(end - pos + 1) =~= bytes.skip(end as int + 1));
                    assert(split_lines(s) == seq![line] + split_lines(bytes.skip(end as int + 1)));
                    assert((seq![line] + split_lines(bytes.skip(end as int + 1)))[0] == line);
                    assert((seq![line] + split_lines(bytes.skip(end as int + 1))).drop_first()
                        =~= split_lines(bytes.skip(end as int + 1)));
                } else {
                    assert(s =~= line);
                    assert(split_lines(s) == seq![line]);
                    assert(seq![line].drop_first() =~= Seq::<Seq<u8>>::empty());
                }
            }
            // trim the line
            let mut a: usize = pos;
            let mut z: usize = end;
            while a < z && is_space_exec(b[a])
                invariant
                    b@ == bytes,
                    m == bytes.len(),
                    pos <= a <= z,
                    z == end <= m,
                    forall|j: int| pos <= j < a ==> is_space(#[trigger] bytes[j]),
                decreases z - a,
            {
                a += 1;
            }
            while z > a && is_space_exec(b[z - 1])
                invariant
                    b@ == bytes,
                    m == bytes.len(),
                    pos <= a <= z,
                    z <= end <= m,
                    forall|j: int| z <= j < end ==> is_space(#[trigger] bytes[j]),
                decreases z - a,
            {
                z -= 1;
            }
            proof {
                assert(forall|j: int| 0 <= j < line.len() ==> line[j] == bytes[pos + j]);
                lemma_trim_is(line, a - pos, z - pos);
                if a < z {
                    assert(line.subrange(a - pos, z - pos) =~= bytes.subrange(
                        a as int,
                        z as int,
                    ));
                }
            }
            if a == z {
                // blank line: skip it
                proof {
                    assert(trim_spec(line).len() == 0);
                    assert(parse_hex_spec(bytes) == parse_lines(
                        split_lines(bytes.skip(pos as int)).drop_first(),
                        colours@,
                    ));
                }
            } else if z - a == 6 {
                let ghost t = bytes.subrange(a as int, z as int);
                let c0 = hex_pair(b, a);
                let c1 = hex_pair(b, a + 2);
                let c2 = hex_pair(b, a + 4);
                match (c0, c1, c2) {
                    (Some(r0), Some(g0), Some(b0)) => {
                        proof {
                            assert(forall|i: int| 0 <= i < 6 ==> t[i] == bytes[a + i]);
                            assert(is_colour_line(t));
                            assert(colour_of_line(t) == (Rgb { r: r0, g: g0, b: b0 }));
                        }
                        colours.push(Rgb { r: r0, g: g0, b: b0 });
                        proof {
                            assert(trim_spec(line) == t);
                            assert(parse_hex_spec(bytes) == parse_lines(
                                split_lines(bytes.skip(pos as int)).drop_first(),
                                colours@,
                            ));
                        }
                    },
                    _ => {
                        proof {
                            assert(forall|i: int| 0 <= i < 6 ==> t[i] == bytes[a + i]);
                            assert(!is_colour_line(t));
                            assert(trim_spec(line) == t);
                            assert(parse_lines(split_lines(bytes.skip(pos as int)), colours@)
                                is None);
                        }
                        return Err(PaletteError::ParseError);
                    },
                }
            } else {
                proof {
                    let t = bytes.subrange(a as int, z as int);
                    assert(t.len() != 6);
                    assert(!is_colour_line(t));
                    assert(trim_spec(line) == t);
                    assert(parse_lines(split_lines(bytes.skip(pos as int)), colours@) is None);
                }
                return Err(PaletteError::ParseError);
            }
            if end < m {
                pos = end + 1;
            } else {
                proof {
                    let ls = split_lines(bytes.skip(pos as int));
                    assert(ls[0] == line);
                    assert(ls.len() == 1);
                    assert(ls.drop_first() =~= Seq::<Seq<u8>>::empty());
                    assert(parse_hex_spec(bytes) == Some(colours@));
                }
                return Ok(Palette::new_from(colours));
            }
        }
        Ok(Palette::new_from(colours))
    }
}

/// Whether the byte is trimmed-away whitespace.
pub(crate) fn is_space_exec(b: u8) -> (r: bool)
    ensures
        r == is_space(b),
{
    b == 32 || b == 9 || b == 13
}

/// The value of one hex digit, or nothing if the byte is not a hex digit.
fn hex_val_exec(b: u8) -> (r: Option<u8>)
    ensures
        r is Some <==> is_hex_digit(b),
        r is Some ==> r.unwrap() as int == hex_val(b),
{
    if 48 <= b && b <= 57 {
        Some(b - 48)
    } else if 97 <= b && b <= 102 {
        Some(b - 87)
    } else if 65 <= b && b <= 70 {
        Some(b - 55)
    } else {
        None
    }
}

/// The channel value of two adjacent hex digits, or nothing if either byte
/// is not a hex digit.
pub(crate) fn hex_pair(b: &[u8], at: usize) -> (r: Option<u8>)
    requires
        at + 2 <= b@.len(),
    ensures
        r is Some <==> is_hex_digit(b@[at as int]) && is_hex_digit(b@[at as int + 1]),
        r is Some ==> r.unwrap() as int == hex_val(b@[at as int]) * 16 + hex_val(
            b@[at as int + 1],
        ),
{
    let hi = hex_val_exec(b[at]);
    let lo = hex_val_exec(b[at + 1]);
    match (hi, lo) {
        (Some(h), Some(l)) => Some(h * 16 + l),
        _ => None,
    }
}


/// The lowercase hex digit for a value below sixteen.
pub open spec fn hex_digit_byte(n: int) -> u8
    recommends
        0 <= n < 16,
{
    if n < 10 {
        (48 + n) as u8
    } else {
        (87 + n) as u8
    }
}

/// The six lowercase hex digits of a colour, channel by channel.
pub open spec fn colour_hex_bytes(c: Rgb) -> Seq<u8> {
    seq![
        hex_digit_byte(c.r as int / 16),
        hex_digit_byte(c.r as int % 16),
        hex_digit_byte(c.g as int / 16),
        hex_digit_byte(c.g as int % 16),
        hex_digit_byte(c.b as int / 16),
        hex_digit_byte(c.b as int % 16),
    ]
}

/// Hex palette text for a list of colours: each colour as six lowercase
/// hex digits, every line ended by a newline.
pub open spec fn hex_text_bytes(cs: Seq<Rgb>) -> Seq<u8>
    decreases cs.len(),
{
    if cs.len() == 0 {
        Seq::empty()
    } else {
        colour_hex_bytes(cs[0]) + seq![10u8] + hex_text_bytes(cs.drop_first())
    }
}

/// The same text as characters: hex text is pure ASCII, so each byte is
/// one character.
pub open spec fn hex_text_chars(cs: Seq<Rgb>) -> Seq<char> {
    hex_text_bytes(cs).map_values(|b: u8| b as char)
}

/// A lowercase hex digit is a hex digit with its own value, is not
/// whitespace, and is not a newline.
proof fn lemma_hex_digit_byte_props(n: int)
    requires
        0 <= n < 16,
    ensures
        is_hex_digit(hex_digit_byte(n)),
        hex_val(hex_digit_byte(n)) == n,
        !is_space(hex_digit_byte(n)),
        hex_digit_byte(n) != 10,
        hex_digit_byte(n) < 128,
{
}

/// A channel value splits into its two hex digits and back.
proof fn lemma_channel_digits(v: u8)
    ensures
        0 <= v as int / 16 < 16,
        0 <= v as int % 16 < 16,
        hex_val(hex_digit_byte(v as int / 16)) * 16 + hex_val(hex_digit_byte(v as int % 16))
            == v,
{
    lemma_fundamental_div_mod(v as int, 16);
    lemma_div_pos_is_pos(v as int, 16);
    lemma_mod_division_less_than_divisor(v as int, 16);
    lemma_hex_digit_byte_props(v as int / 16);
    lemma_hex_digit_byte_props(v as int % 16);
}

/// A colour's six-digit line is its own trim, is a colour line, denotes
/// the colour itself, and holds no newline.
proof fn lemma_colour_line_of_colour(c: Rgb)
    ensures
        is_colour_line(colour_hex_bytes(c)),
        trim_spec(colour_hex_bytes(c)) == colour_hex_bytes(c),
        colour_of_line(colour_hex_bytes(c)) == c,
        forall|j: int|
            0 <= j < colour_hex_bytes(c).len() ==> #[trigger] colour_hex_bytes(c)[j] != 10
                && colour_hex_bytes(c)[j] < 128,
{
    lemma_channel_digits(c.r);
    lemma_channel_digits(c.g);
    lemma_channel_digits(c.b);
    lemma_hex_digit_byte_props(c.r as int / 16);
    lemma_hex_digit_byte_props(c.r as int % 16);
    lemma_hex_digit_byte_props(c.g as int / 16);
    lemma_hex_digit_byte_props(c.g as int % 16);
    lemma_hex_digit_byte_props(c.b as int / 16);
    lemma_hex_digit_byte_props(c.b as int % 16);
    let t = colour_hex_bytes(c);
    lemma_trim_front_is(t, 0);
    lemma_trim_back_is(t, 6);
    assert(t.skip(0) =~= t);
    assert(t.take(6) =~= t);
}

/// Formatted hex text parses back to exactly the colours it was formatted
/// from, whatever colours were already collected.
proof fn lemma_parse_format(cs: Seq<Rgb>, acc: Seq<Rgb>)
    ensures
        parse_lines(split_lines(hex_text_bytes(cs)), acc) == Some(acc + cs),
    decreases cs.len(),
{
    if cs.len() == 0 {
        let e = hex_text_bytes(cs);
        assert(e.len() == 0);
        assert(split_lines(e) == seq![e]);
        assert(trim_spec(e).len() == 0);
        assert(seq![e].drop_first() =~= Seq::<Seq<u8>>::empty());
        assert(acc + cs =~= acc);
        assert(seq![e][0] == e);
        assert(parse_lines(seq![e], acc) == parse_lines(seq![e].drop_first(), acc));
        assert(parse_lines(split_lines(e), acc) == Some(acc));
    } else {
        let line = colour_hex_bytes(cs[0]);
        let rest = hex_text_bytes(cs.drop_first());
        let bytes = hex_text_bytes(cs);
        lemma_colour_line_of_colour(cs[0]);
        assert(bytes == line + seq![10u8] + rest);
        assert(bytes.len() == 7 + rest.len());
        assert(forall|j: int| 0 <= j < 6 ==> bytes[j] == line[j]);
        assert(bytes[6] == 10);
        lemma_first_nl_is(bytes, 6);
        assert(bytes.take(6) =~= line);
        assert(bytes.skip(7) =~= rest);
        assert(split_lines(bytes) == seq![line] + split_lines(rest));
        let ls = seq![line] + split_lines(rest);
        assert(ls[0] == line);
        assert(ls.drop_first() =~= split_lines(rest));
        lemma_parse_format(cs.drop_first(), acc.push(cs[0]));
        assert(acc.push(cs[0]) + cs.drop_first() =~= acc + cs);
        assert(trim_spec(ls[0]) == line);
        assert(parse_lines(ls, acc) == parse_lines(ls.drop_first(), acc.push(
            colour_of_line(line),
        )));
        assert(colour_of_line(line) == cs[0]);
        assert(parse_lines(ls.drop_first(), acc.push(cs[0])) == parse_lines(
            split_lines(rest),
            acc.push(cs[0]),
        ));
        assert(parse_lines(split_lines(bytes), acc) == Some(acc + cs));
    }
}

/// Hex round trip: formatting a list of colours as hex text and parsing
/// that text back yields the same colours, channel for channel.
pub proof fn lemma_hex_round_trip(colours: Seq<Rgb>)
    ensures
        parse_hex_spec(encode_utf8(hex_text_chars(colours))) == Some(colours),
{
    let bytes = hex_text_bytes(colours);
    let chars = hex_text_chars(colours);
    lemma_hex_text_bytes_ascii(colours);
    assert(forall|i: int| 0 <= i < chars.len() ==> chars[i] == bytes[i] as char);
    assert(vstd::utf8::is_ascii_chars(chars)) by {
        assert(forall|i: int|
            0 <= i < chars.len() ==> '\0' <= #[trigger] chars[i] <= '\u{7f}');
    }
    vstd::utf8::is_ascii_chars_encode_utf8(chars);
    assert(encode_utf8(chars) =~= bytes);
    lemma_parse_format(colours, Seq::empty());
    assert(Seq::empty() + colours =~= colours);
}

/// Every byte of hex palette text is ASCII and below 128.
proof fn lemma_hex_text_bytes_ascii(cs: Seq<Rgb>)
    ensures
        forall|i: int|
            0 <= i < hex_text_bytes(cs).len() ==> #[trigger] hex_text_bytes(cs)[i] < 128,
    decreases cs.len(),
{
    if cs.len() > 0 {
        lemma_colour_line_of_colour(cs[0]);
        lemma_hex_text_bytes_ascii(cs.drop_first());
        let bytes = hex_text_bytes(cs);
        let line = colour_hex_bytes(cs[0]);
        let rest = hex_text_bytes(cs.drop_first());
        assert(bytes == line + seq![10u8] + rest);
        assert forall|i: int| 0 <= i < bytes.len() implies bytes[i] < 128 by {
            if i < 6 {
                assert(bytes[i] == line[i]);
            } else if i == 6 {
                assert(bytes[i] == 10);
            } else {
                assert(bytes[i] == rest[i - 7]);
            }
        }
    }
}

/// `hex_text_bytes` grows line by line at the back.
proof fn lemma_hex_text_bytes_push(cs: Seq<Rgb>, c: Rgb)
    ensures
        hex_text_bytes(cs.push(c)) == hex_text_bytes(cs) + colour_hex_bytes(c) + seq![10u8],
    decreases cs.len(),
{
    if cs.len() == 0 {
        assert(cs.push(c)[0] == c);
        assert(cs.push(c).drop_first() =~= Seq::<Rgb>::empty());
        assert(hex_text_bytes(cs) == Seq::<u8>::empty());
        assert(hex_text_bytes(cs.push(c).drop_first()) == Seq::<u8>::empty());
        assert(hex_text_bytes(cs.push(c)) == colour_hex_bytes(c) + seq![10u8]
            + hex_text_bytes(cs.push(c).drop_first()));
        assert(hex_text_bytes(cs.push(c)) =~= hex_text_bytes(cs) + colour_hex_bytes(c)
            + seq![10u8]);
    } else {
        assert(cs.push(c)[0] == cs[0]);
        assert(cs.push(c).drop_first() =~= cs.drop_first().push(c));
        lemma_hex_text_bytes_push(cs.drop_first(), c);
        assert(hex_text_bytes(cs.push(c)) == colour_hex_bytes(cs[0]) + seq![10u8]
            + (hex_text_bytes(cs.drop_first()) + colour_hex_bytes(c) + seq![10u8]));
        assert(colour_hex_bytes(cs[0]) + seq![10u8] + (hex_text_bytes(cs.drop_first())
            + colour_hex_bytes(c) + seq![10u8]) =~= hex_text_bytes(cs) + colour_hex_bytes(c)
            + seq![10u8]);
    }
}

/// Appends one lowercase hex digit to the text.
fn push_hex_digit(s: &mut String, d: u8)
    requires
        d < 16,
    ensures
        final(s)@ == old(s)@ + seq![hex_digit_byte(d as int) as char],
{
    if d == 0 {
        proof {
            reveal_strlit("0");
        }
        s.append("0");
    } else if d == 1 {
        proof {
            reveal_strlit("1");
        }
        s.append("1");
    } else if d == 2 {
        proof {
            reveal_strlit("2");
        }
        s.append("2");
    } else if d == 3 {
        proof {
            reveal_strlit("3");
        }
        s.append("3");
    } else if d == 4 {
        proof {
            reveal_strlit("4");
        }
        s.append("4");
    } else if d == 5 {
        proof {
            reveal_strlit("5");
        }
        s.append("5");
    } else if d == 6 {
        proof {
            reveal_strlit("6");
        }
        s.append("6");
    } else if d == 7 {
        proof {
            reveal_strlit("7");
        }
        s.append("7");
    } else if d == 8 {
        proof {
            reveal_strlit("8");
        }
        s.append("8");
    } else if d == 9 {
        proof {
            reveal_strlit("9");
        }
        s.append("9");
    } else if d == 10 {
        proof {
            reveal_strlit("a");
        }
        s.append("a");
    } else if d == 11 {
        proof {
            reveal_strlit("b");
        }
        s.append("b");
    } else if d == 12 {
        proof {
            reveal_strlit("c");
        }
        s.append("c");
    } else if d == 13 {
        proof {
            reveal_strlit("d");
        }
        s.append("d");
    } else if d == 14 {
        proof {
            reveal_strlit("e");
        }
        s.append("e");
    } else {
        proof {
            reveal_strlit("f");
        }
        s.append("f");
    }
}

impl Palette {
    /// Formats the palette as hex text: each colour on its own line as six
    /// lowercase hex digits, each line ended by a newline. Parsing the
    /// result yields the palette back, channel for channel.
    pub fn to_hex_text(&self) -> (res: String)
        ensures
            res@ == hex_text_chars(self@),
    {
        let cs = self.get_colours();
        let n = cs.len();
        let mut res = String::new();
        proof {
            assert(self@.take(0) =~= Seq::<Rgb>::empty());
        }
        let mut i: usize = 0;
        while i < n
            invariant
                cs@ == self@,
                n == self@.len(),
                0 <= i <= n,
                res@ == hex_text_chars(self@.take(i as int)),
            decreases n - i,
        {
            let c = cs[i];
            proof {
                lemma_channel_digits(c.r);
                lemma_channel_digits(c.g);
                lemma_channel_digits(c.b);
            }
            push_hex_digit(&mut res, c.r / 16);
            push_hex_digit(&mut res, c.r % 16);
            push_hex_digit(&mut res, c.g / 16);
            push_hex_digit(&mut res, c.g % 16);
            push_hex_digit(&mut res, c.b / 16);
            push_hex_digit(&mut res, c.b % 16);
            proof {
                reveal_strlit("\n");
            }
            res.append("\n");
            proof {
                lemma_hex_text_bytes_push(self@.take(i as int), c);
                assert(self@.take(i as int).push(c) =~= self@.take(i + 1 as int));
                assert(res@ =~= hex_text_chars(self@.take(i + 1 as int)));
            }
            i += 1;
        }
        proof {
            assert(self@.take(n as int) =~= self@);
        }
        res
    }
}


} // verus!
