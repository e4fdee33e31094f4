//! Themed-scheme documents: lines of the shape `baseNN: "#RRGGBB"`.
//!
//! Only lines that start (after trimming) with the literal token `base`
//! are taken, in document order; other lines are ignored. A `base` line
//! must hold a colon followed by a double-quoted, `#`-prefixed six-digit
//! hex colour; anything else fails the whole document. A document with no
//! `base` line at all fails too.

use vstd::prelude::*;
use vstd::string::StringSliceAdditionalSpecFns;
use crate::colour::Rgb;
use crate::error::PaletteError;
use crate::hex::hex_pair;
use crate::hex::hex_val;
use crate::hex::is_hex_digit;
use crate::hex::is_space;
use crate::hex::is_space_exec;
use crate::hex::lemma_first_nl_is;
use crate::hex::lemma_trim_is;
use crate::hex::split_lines;
use crate::hex::trim_spec;
use crate::palette::Palette;

verus! {

/// The position of the first colon, or the length if there is none.
pub open spec fn first_colon(s: Seq<u8>) -> int
    decreases s.len(),
{
    if s.len() == 0 {
        0
    } else if s[0] == 58 {
        0
    } else {
        1 + first_colon(s.drop_first())
    }
}

/// `first_colon` is determined by where the first colon sits.
proof fn lemma_first_colon_is(s: Seq<u8>, k: int)
    requires
        0 <= k <= s.len(),
        forall|j: int| 0 <= j < k ==> #[trigger] s[j] != 58,
        k == s.len() || s[k] == 58,
    ensures
        first_colon(s) == k,
    decreases s.len(),
{
    if s.len() > 0 && k > 0 {
        let rest = s.drop_first();
        assert(forall|j: int| 0 <= j < k - 1 ==> rest[j] == s[j + 1]);
        lemma_first_colon_is(rest, k - 1);
    }
}

/// Whether a trimmed line is a recognised base-colour entry: it starts
/// with the literal token `base`.
pub open spec fn is_base_line(t: Seq<u8>) -> bool {
    t.len() >= 4 && t[0] == 98 && t[1] == 97 && t[2] == 115 && t[3] == 101
}

/// The colour of a base line, if it is well formed: after the first colon
/// stands, up to whitespace, a double-quoted `#RRGGBB` value.
pub open spec fn base_line_colour(t: Seq<u8>) -> Option<Rgb> {
    let c = first_colon(t);
    if c >= t.len() {
        Option::None
    } else {
        let hs = trim_spec(t.skip(c + 1));
        if hs.len() == 9 && hs[0] == 34 && hs[1] == 35 && hs[8] == 34 && (forall|i: int|
            2 <= i < 8 ==> is_hex_digit(#[trigger] hs[i])) {
            Option::Some(
                Rgb {
                    r: (hex_val(hs[2]) * 16 + hex_val(hs[3])) as u8,
                    g: (hex_val(hs[4]) * 16 + hex_val(hs[5])) as u8,
                    b: (hex_val(hs[6]) * 16 + hex_val(hs[7])) as u8,
                },
            )
        } else {
            Option::None
        }
    }
}

/// Folds the document's lines into the colours collected so far: lines
/// that are not base entries are ignored, well-formed base lines append
/// their colour, malformed ones fail.
pub open spec fn parse_scheme_lines(ls: Seq<Seq<u8>>, acc: Seq<Rgb>) -> Option<Seq<Rgb>>
    decreases ls.len(),
{
    if ls.len() == 0 {
        Option::Some(acc)
    } else {
        let t = trim_spec(ls[0]);
        if !is_base_line(t) {
            parse_scheme_lines(ls.drop_first(), acc)
        } else {
            match base_line_colour(t) {
                Option::Some(c) => parse_scheme_lines(ls.drop_first(), acc.push(c)),
                Option::None => Option::None,
            }
        }
    }
}

/// What a themed-scheme document denotes: the colours of its base lines
/// in document order; nothing if a base line is malformed or no base line
/// exists at all.
pub open spec fn parse_scheme_spec(bytes: Seq<u8>) -> Option<Seq<Rgb>> {
    match parse_scheme_lines(split_lines(bytes), Seq::empty()) {
        Option::Some(cs) => if cs.len() == 0 {
            Option::None
        } else {
            Option::Some(cs)
        },
        Option::None => Option::None,
    }
}

impl Palette {
    /// Parses a themed-scheme document: every line of the shape
    /// `baseNN: "#RRGGBB"` contributes its colour, in document order;
    /// other lines are ignored. A malformed base line, or a document with
    /// no base line, fails with [`PaletteError::ParseError`].
    #[verifier::rlimit(100)]
    pub fn from_tinted_scheme_yaml(source: &str) -> (r: Result<Palette, PaletteError>)
        ensures
            r is Ok <==> parse_scheme_spec(source.spec_bytes()) is Some,
            r is Ok ==> r.unwrap()@ == parse_scheme_spec(source.spec_bytes()).unwrap(),
            r is Err ==> r == Result::<Palette, PaletteError>::Err(PaletteError::ParseError),
    {
        let b: &[u8] = source.as_bytes();
        let ghost bytes = source.spec_bytes();
        let m = b.len();
        proof {
            assert(bytes.skip(0) =~= bytes);
        }
        let mut colours: Vec<Rgb> = Vec::new();
        let mut pos: usize = 0;
        while pos <= m
            invariant
                b@ == bytes,
                bytes == source.spec_bytes(),
                m == bytes.len(),
                0 <= pos <= m,
                parse_scheme_lines(split_lines(bytes), Seq::empty()) == parse_scheme_lines(
                    split_lines(bytes.skip(pos as int)),
                    colours@,
                ),
            decreases m + 1 - pos,
        {
            // find the end of the line starting at pos
            let mut end: usize = pos;
            while end < m && b[end] != 10
                invariant
                    b@ == bytes,
                    m == bytes.len(),
                    pos <= end <= m,
                    forall|j: int| pos <= j < end ==> #[trigger] bytes[j] != 10,
                decreases m - end,
            {
                end += 1;
            }
            let ghost line = bytes.subrange(pos as int, end as int);
            proof {
                let s = bytes.skip(pos as int);
                assert(forall|j: int| 0 <= j < s.len() ==> s[j] == bytes[pos + j]);
                lemma_first_nl_is(s, end - pos);
                assert(s.take(end - pos) =~= line);
                if end < m {
                    assert(s.skip(end - pos + 1) =~= bytes.skip(end as int + 1));
                    assert(split_lines(s) == seq![line] + split_lines(bytes.skip(end as int + 1)));
                    assert((seq![line] + split_lines(bytes.skip(end as int + 1)))[0] == line);
                    assert((seq![line] + split_lines(bytes.skip(end as int + 1))).drop_first()
                        =~= split_lines(bytes.skip(end as int + 1)));
                } else {
                    assert(s =~= line);
                    assert(split_lines(s) == seq![line]);
                    assert(seq![line].drop_first() =~= Seq::<Seq<u8>>::empty());
                }
            }
            // trim the line
            let mut a: usize = pos;
            let mut z: usize = end;
            while a < z && is_space_exec(b[a])
                invariant
                    b@ == bytes,
                    m == bytes.len(),
                    pos <= a <= z,
                    z == end <= m,
                    forall|j: int| pos <= j < a ==> is_space(#[trigger] bytes[j]),
                decreases z - a,
            {
                a += 1;
            }
            while z > a && is_space_exec(b[z - 1])
                invariant
                    b@ == bytes,
                    m == bytes.len(),
                    pos <= a <= z,
                    z <= end <= m,
                    forall|j: int| z <= j < end ==> is_space(#[trigger] bytes[j]),
                decreases z - a,
            {
                z -= 1;
            }
            let ghost t = trim_spec(line);
            proof {
                assert(forall|j: int| 0 <= j < line.len() ==> line[j] == bytes[pos + j]);
                lemma_trim_is(line, a - pos, z - pos);
                if a < z {
                    assert(line.subrange(a - pos, z - pos) =~= bytes.subrange(a as int, z as int));
                    assert(t == bytes.subrange(a as int, z as int));
                    assert(forall|j: int| 0 <= j < t.len() ==> t[j] == bytes[a + j]);
                }
            }
            if z - a >= 4 && b[a] == 98 && b[a + 1] == 97 && b[a + 2] == 115 && b[a + 3] == 101 {
                proof {
                    assert(is_base_line(t));
                }
                // find the first colon in the trimmed line
                let mut k: usize = a;
                while k < z && b[k] != 58
                    invariant
                        b@ == bytes,
                        m == bytes.len(),
                        a <= k <= z <= m,
                        forall|j: int| a <= j < k ==> #[trigger] bytes[j] != 58,
                    decreases z - k,
                {
                    k += 1;
                }
                proof {
                    lemma_first_colon_is(t, k - a);
                }
                if k == z {
                    proof {
                        assert(base_line_colour(t) is None);
                    }
                    return Err(PaletteError::ParseError);
                }
                // trim the part after the colon
                let ghost after = t.skip(k - a + 1);
                proof {
                    assert(forall|j: int| 0 <= j < after.len() ==> after[j] == bytes[k + 1 + j]);
                }
                let mut a2: usize = k + 1;
                let mut z2: usize = z;
                while a2 < z2 && is_space_exec(b[a2])
                    invariant
                        b@ == bytes,
                        m == bytes.len(),
                        k + 1 <= a2 <= z2 <= m,
                        forall|j: int| k + 1 <= j < a2 ==> is_space(#[trigger] bytes[j]),
                    decreases z2 - a2,
                {
                    a2 += 1;
                }
                while z2 > a2 && is_space_exec(b[z2 - 1])
                    invariant
                        b@ == bytes,
                        m == bytes.len(),
                        k + 1 <= a2 <= z2,
                        z2 <= z <= m,
                        forall|j: int| z2 <= j < z ==> is_space(#[trigger] bytes[j]),
                    decreases z2 - a2,
                {
                    z2 -= 1;
                }
                let ghost hs = trim_spec(after);
                proof {
                    lemma_trim_is(after, a2 - (k + 1), z2 - (k + 1));
                    if a2 < z2 {
                        assert(after.subrange(a2 - (k + 1), z2 - (k + 1)) =~= bytes.subrange(
                            a2 as int,
                            z2 as int,
                        ));
                        assert(hs == bytes.subrange(a2 as int, z2 as int));
                        assert(forall|j: int| 0 <= j < hs.len() ==> hs[j] == bytes[a2 + j]);
                    }
                }
                if z2 - a2 == 9 && b[a2] == 34 && b[a2 + 1] == 35 && b[z2 - 1] == 34 {
                    let c0 = hex_pair(b, a2 + 2);
                    let c1 = hex_pair(b, a2 + 4);
                    let c2 = hex_pair(b, a2 + 6);
                    match (c0, c1, c2) {
                        (Some(r0), Some(g0), Some(b0)) => {
                            proof {
                                assert(base_line_colour(t) == Option::Some(
                                    Rgb { r: r0, g: g0, b: b0 },
                                ));
                            }
                            colours.push(Rgb { r: r0, g: g0, b: b0 });
                            proof {
                                assert(parse_scheme_lines(split_lines(bytes), Seq::empty())
                                    == parse_scheme_lines(
                                    split_lines(bytes.skip(pos as int)).drop_first(),
                                    colours@,
                                ));
                            }
                        },
                        _ => {
                            proof {
                                assert(base_line_colour(t) is None);
                            }
                            return Err(PaletteError::ParseError);
                        },
                    }
                } else {
                    proof {
                        if a2 < z2 {
                            assert(hs.len() != 9 || hs[0] != 34 || hs[1] != 35 || hs[8] != 34);
                        } else {
                            assert(hs.len() == 0);
                        }
                        assert(base_line_colour(t) is None);
                    }
                    return Err(PaletteError::ParseError);
                }
            } else {
                proof {
                    if a < z {
                        assert(!is_base_line(t));
                    } else {
                        assert(t.len() == 0);
                        assert(!is_base_line(t));
                    }
                    assert(parse_scheme_lines(split_lines(bytes), Seq::empty())
                        == parse_scheme_lines(
                        split_lines(bytes.skip(pos as int)).drop_first(),
                        colours@,
                    ));
                }
            }
            if end < m {
                pos = end + 1;
            } else {
                proof {
                    let ls = split_lines(bytes.skip(pos as int));
                    assert(ls[0] == line);
                    assert(ls.len() == 1);
                    assert(ls.drop_first() =~= Seq::<Seq<u8>>::empty());
                    assert(parse_scheme_lines(split_lines(bytes), Seq::empty()) == Option::Some(
                        colours@,
                    ));
                }
                if colours.len() == 0 {
                    return Err(PaletteError::ParseError);
                }
                return Ok(Palette::new_from(colours));
            }
        }
        if colours.len() == 0 {
            return Err(PaletteError::ParseError);
        }
        Ok(Palette::new_from(colours))
    }
}

} // verus!
