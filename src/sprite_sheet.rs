//! Where each sprite lies on the sprite sheet image, and the line format that
//! lists them: `NAME OFFSET_X OFFSET_Y WIDTH HEIGHT`, separated by single spaces.

use vstd::prelude::*;
use vstd::string::StringSliceAdditionalSpecFns;

use crate::map::{first_newline, NEWLINE};
use crate::text::{decimal_u32, fields_from, fields_of, find_space, lemma_next_space_bounds, parse_decimal_u32};
use vstd::utf8::{
    decode_utf8, encode_utf8_decode_utf8, encode_utf8_valid_utf8, is_char_boundary,
    is_char_boundary_iff_not_is_continuation_byte, is_char_boundary_start_end_of_seq,
    length_of_first_scalar, pop_first_scalar, valid_utf8,
};

verus! {

/// One sprite of the sheet: its name and the rectangle it covers, in pixels.
pub struct SpriteRef {
    pub name: String,
    pub offset_x: u32,
    pub offset_y: u32,
    pub width: u32,
    pub height: u32,
}

/// Why a sprite line was rejected.
#[derive(Clone, Copy, Debug, PartialEq, Eq, Structural)]
pub enum SpriteRefError {
    /// The line does not hold exactly five space-separated fields.
    WrongFieldCount,
    /// A numeric field is not a decimal number that fits in 32 bits.
    BadNumber,
}

/// The byte after a line break starts a character.
proof fn lemma_boundary_after_newline(bytes: Seq<u8>)
    requires
        valid_utf8(bytes),
        bytes.len() >= 1,
        bytes[0] == NEWLINE,
    ensures
        is_char_boundary(bytes, 1),
{
    reveal_with_fuel(is_char_boundary, 2);
    assert(length_of_first_scalar(bytes) == 1);
    assert(valid_utf8(pop_first_scalar(bytes)));
}

/// Why the sprite line `b` is rejected, or `None` when it is well formed.
pub open spec fn sprite_line_error(b: Seq<u8>) -> Option<SpriteRefError> {
    let f = fields_of(b);
    if f.len() != 5 {
        Some(SpriteRefError::WrongFieldCount)
    } else if decimal_u32(f[1]) is None || decimal_u32(f[2]) is None || decimal_u32(f[3]) is None
        || decimal_u32(f[4]) is None {
        Some(SpriteRefError::BadNumber)
    } else {
        None
    }
}

/// `r` holds what the well-formed sprite line `b` says.
pub open spec fn sprite_read_from(r: SpriteRef, b: Seq<u8>) -> bool {
    let f = fields_of(b);
    &&& r.name@ == decode_utf8(f[0])
    &&& Some(r.offset_x) == decimal_u32(f[1])
    &&& Some(r.offset_y) == decimal_u32(f[2])
    &&& Some(r.width) == decimal_u32(f[3])
    &&& Some(r.height) == decimal_u32(f[4])
}

/// The sprite count line of a sprite sheet: a 32-bit unsigned decimal number.
pub fn parse_count(line: &str) -> (r: Option<u32>)
    ensures
        r == decimal_u32(line.spec_bytes()),
{
    let b = line.as_bytes();
    let r = parse_decimal_u32(b, 0, b.len());
    assert(b@.subrange(0, b@.len() as int) =~= b@);
    r
}

impl SpriteRef {
    /// Reads a line `NAME OFFSET_X OFFSET_Y WIDTH HEIGHT`. The line must split
    /// at single spaces into exactly five fields, and the last four must be
    /// decimal numbers that fit in 32 bits; the name is the first field.
    pub fn parse(line: &str) -> (r: Result<SpriteRef, SpriteRefError>)
        ensures
            match sprite_line_error(line.spec_bytes()) {
                Some(e) => r == Err::<SpriteRef, SpriteRefError>(e),
                None => r is Ok && sprite_read_from(r->Ok_0, line.spec_bytes()),
            },
    {
        let b = line.as_bytes();
        let ghost bs = b@;
        let n = b.len();
        let j0 = find_space(b, 0);
        proof {
            lemma_next_space_bounds(bs, 0);
        }
        if j0 == n {
            assert(fields_of(bs) =~= seq![bs.subrange(0, n as int)]);
            return Err(SpriteRefError::WrongFieldCount);
        }
        let j1 = find_space(b, j0 + 1);
        proof {
            lemma_next_space_bounds(bs, j0 + 1);
        }
        let j2 = if j1 < n { find_space(b, j1 + 1) } else { n };
        proof {
            if j1 < n {
                lemma_next_space_bounds(bs, j1 + 1);
            }
        }
        let j3 = if j2 < n { find_space(b, j2 + 1) } else { n };
        proof {
            if j2 < n {
                lemma_next_space_bounds(bs, j2 + 1);
            }
        }
        let j4 = if j3 < n { find_space(b, j3 + 1) } else { n };
        proof {
            if j3 < n {
                lemma_next_space_bounds(bs, j3 + 1);
            }
        }
        let ghost f = fields_of(bs);
        proof {
            assert(f == seq![bs.subrange(0, j0 as int)] + fields_from(bs, j0 + 1));
        }
        if j1 == n || j2 == n || j3 == n || j4 < n {
            proof {
                let f1 = fields_from(bs, j0 + 1);
                if j1 == n {
                    assert(f1 =~= seq![bs.subrange(j0 + 1, n as int)]);
                } else {
                    let f2 = fields_from(bs, j1 + 1);
                    assert(f1 == seq![bs.subrange(j0 + 1, j1 as int)] + f2);
                    if j2 == n {
                        assert(f2 =~= seq![bs.subrange(j1 + 1, n as int)]);
                    } else {
                        let f3 = fields_from(bs, j2 + 1);
                        assert(f2 == seq![bs.subrange(j1 + 1, j2 as int)] + f3);
                        if j3 == n {
                            assert(f3 =~= seq![bs.subrange(j2 + 1, n as int)]);
                        } else {
                            let f4 = fields_from(bs, j3 + 1);
                            assert(f3 == seq![bs.subrange(j2 + 1, j3 as int)] + f4);
                            let f5 = fields_from(bs, j4 + 1);
                            assert(f4 == seq![bs.subrange(j3 + 1, j4 as int)] + f5);
                            assert(f5.len() >= 1);
                        }
                    }
                }
            }
            return Err(SpriteRefError::WrongFieldCount);
        }
        proof {
            let f1 = fields_from(bs, j0 + 1);
            let f2 = fields_from(bs, j1 + 1);
            let f3 = fields_from(bs, j2 + 1);
            let f4 = fields_from(bs, j3 + 1);
            assert(f1 == seq![bs.subrange(j0 + 1, j1 as int)] + f2);
            assert(f2 == seq![bs.subrange(j1 + 1, j2 as int)] + f3);
            assert(f3 == seq![bs.subrange(j2 + 1, j3 as int)] + f4);
            assert(f4 =~= seq![bs.subrange(j3 + 1, n as int)]);
            assert(f.len() == 5);
            assert(f[1] == bs.subrange(j0 + 1, j1 as int));
            assert(f[2] == bs.subrange(j1 + 1, j2 as int));
            assert(f[3] == bs.subrange(j2 + 1, j3 as int));
            assert(f[4] == bs.subrange(j3 + 1, n as int));
        }
        let offset_x = parse_decimal_u32(b, j0 + 1, j1);
        let offset_y = parse_decimal_u32(b, j1 + 1, j2);
        let width = parse_decimal_u32(b, j2 + 1, j3);
        let height = parse_decimal_u32(b, j3 + 1, n);
        match (offset_x, offset_y, width, height) {
            (Some(offset_x), Some(offset_y), Some(width), Some(height)) => {
                proof {
                    encode_utf8_valid_utf8(line@);
                    is_char_boundary_iff_not_is_continuation_byte(bs, j0 as int);
                }
                let (name_part, _) = line.split_at(j0);
                proof {
                    encode_utf8_decode_utf8(name_part@);
                }
                let name = name_part.to_owned();
                Ok(SpriteRef { name, offset_x, offset_y, width, height })
            },
            _ => Err(SpriteRefError::BadNumber),
        }
    }
}

/// Why a sprite sheet description was rejected.
#[derive(Clone, Copy, Debug, PartialEq, Eq, Structural)]
pub enum SheetError {
    /// The description is empty: it names no image.
    MissingImagePath,
    /// The line with the sprite count is missing.
    MissingCount,
    /// The sprite count is not a 32-bit unsigned decimal number.
    BadCount,
    /// Fewer sprite lines follow than the count says.
    TooFewSprites,
    /// A sprite line is malformed.
    BadSprite(SpriteRefError),
}

/// A line without the carriage return of a `\r\n` line break.
pub open spec fn strip_cr(l: Seq<u8>) -> Seq<u8> {
    if l.len() > 0 && l.last() == 13 {
        l.drop_last()
    } else {
        l
    }
}

/// The lines of `b`: split at each `\n`, a `\r` before it dropped; a final
/// line break ends the last line and starts no new one.
pub open spec fn lines_of(b: Seq<u8>) -> Seq<Seq<u8>>
    decreases b.len(),
{
    let j = first_newline(b, 0);
    if b.len() == 0 || j < 0 {
        Seq::empty()
    } else if j >= b.len() {
        seq![b]
    } else {
        seq![strip_cr(b.subrange(0, j))] + lines_of(b.subrange(j + 1, b.len() as int))
    }
}

/// The first failure among sprite lines `k..n` of the sheet lines `ls`.
pub open spec fn sheet_error_from(ls: Seq<Seq<u8>>, k: int, n: int) -> Option<SheetError>
    decreases n - k,
{
    if k >= n {
        None
    } else if 2 + k >= ls.len() {
        Some(SheetError::TooFewSprites)
    } else {
        match sprite_line_error(ls[2 + k]) {
            Some(e) => Some(SheetError::BadSprite(e)),
            None => sheet_error_from(ls, k + 1, n),
        }
    }
}

/// Why the sheet description `b` is rejected, or `None` when it is well formed:
/// an image path line, a count line, then at least that many sprite lines.
pub open spec fn sheet_error(b: Seq<u8>) -> Option<SheetError> {
    let ls = lines_of(b);
    if ls.len() == 0 {
        Some(SheetError::MissingImagePath)
    } else if ls.len() == 1 {
        Some(SheetError::MissingCount)
    } else {
        match decimal_u32(ls[1]) {
            None => Some(SheetError::BadCount),
            Some(n) => sheet_error_from(ls, 0, n as int),
        }
    }
}

/// The first line of `s` and what follows its line break.
fn split_line(s: &str) -> (r: (&str, &str))
    requires
        s.spec_bytes().len() > 0,
    ensures
        lines_of(s.spec_bytes()) == seq![r.0.spec_bytes()] + lines_of(r.1.spec_bytes()),
        r.1.spec_bytes().len() < s.spec_bytes().len(),
{
    let b = s.as_bytes();
    let ghost bs = b@;
    let mut j: usize = 0;
    while j < b.len() && b[j] != NEWLINE
        invariant
            j <= b@.len(),
            bs == b@,
            first_newline(bs, 0) == first_newline(bs, j as int),
        decreases b@.len() - j,
    {
        j = j + 1;
    }
    proof {
        crate::map::lemma_first_newline_bounds(bs, 0);
        encode_utf8_valid_utf8(s@);
    }
    if j == b.len() {
        proof {
            is_char_boundary_start_end_of_seq(bs);
        }
        let (line, rest) = s.split_at(j);
        assert(line.spec_bytes() =~= bs);
        assert(lines_of(rest.spec_bytes()) =~= Seq::<Seq<u8>>::empty());
        assert(seq![line.spec_bytes()] + lines_of(rest.spec_bytes()) =~= seq![bs]);
        return (line, rest);
    }
    proof {
        is_char_boundary_iff_not_is_continuation_byte(bs, j as int);
    }
    let (line, tail) = s.split_at(j);
    proof {
        encode_utf8_valid_utf8(tail@);
        lemma_boundary_after_newline(tail.spec_bytes());
    }
    let (_, rest) = tail.split_at(1);
    assert(rest.spec_bytes() =~= bs.subrange(j + 1, bs.len() as int));
    let lb = line.as_bytes();
    let n = lb.len();
    if n > 0 && lb[n - 1] == 13 {
        proof {
            encode_utf8_valid_utf8(line@);
            is_char_boundary_iff_not_is_continuation_byte(lb@, n - 1);
        }
        let (stripped, _) = line.split_at(n - 1);
        assert(stripped.spec_bytes() =~= strip_cr(bs.subrange(0, j as int)));
        (stripped, rest)
    } else {
        assert(line.spec_bytes() =~= strip_cr(bs.subrange(0, j as int)));
        (line, rest)
    }
}

/// Reads a sprite sheet description: the image path, the sprite count, then
/// one sprite line per sprite. Lines after the last sprite are ignored.
pub fn parse_sheet(text: &str) -> (r: Result<(String, Vec<SpriteRef>), SheetError>)
    ensures
        ({
            let ls = lines_of(text.spec_bytes());
            match sheet_error(text.spec_bytes()) {
                Some(e) => r == Err::<(String, Vec<SpriteRef>), SheetError>(e),
                None => {
                    &&& r is Ok
                    &&& r->Ok_0.0@ == decode_utf8(ls[0])
                    &&& r->Ok_0.1@.len() == decimal_u32(ls[1])->Some_0
                    &&& forall|i: int|
                        0 <= i < r->Ok_0.1@.len() ==> sprite_read_from(#[trigger] r->Ok_0.1@[i], ls[2 + i])
                },
            }
        }),
{
    let ghost ls = lines_of(text.spec_bytes());
    if text.as_bytes().len() == 0 {
        assert(ls =~= Seq::<Seq<u8>>::empty());
        return Err(SheetError::MissingImagePath);
    }
    let (first, rest) = split_line(text);
    proof {
        encode_utf8_decode_utf8(first@);
    }
    let image_path = first.to_owned();
    if rest.as_bytes().len() == 0 {
        assert(lines_of(rest.spec_bytes()) =~= Seq::<Seq<u8>>::empty());
        assert(ls.len() == 1);
        return Err(SheetError::MissingCount);
    }
    let (count_line, rest) = split_line(rest);
    let n = match parse_count(count_line) {
        Some(n) => n,
        None => return Err(SheetError::BadCount),
    };
    proof {
        assert(ls[1] == count_line.spec_bytes());
        assert(lines_of(rest.spec_bytes()) =~= ls.subrange(2, ls.len() as int));
    }
    let mut rest = rest;
    let mut sprites: Vec<SpriteRef> = Vec::new();
    let mut k: u32 = 0;
    while k < n
        invariant
            ls == lines_of(text.spec_bytes()),
            ls.len() >= 2,
            decimal_u32(ls[1]) == Some(n),
            2 + k <= ls.len(),
            k <= n,
            lines_of(rest.spec_bytes()) == ls.subrange(2 + k, ls.len() as int),
            sheet_error_from(ls, 0, n as int) == sheet_error_from(ls, k as int, n as int),
            sprites@.len() == k,
            forall|i: int| 0 <= i < k ==> sprite_read_from(#[trigger] sprites@[i], ls[2 + i]),
            image_path@ == decode_utf8(ls[0]),
        decreases n - k,
    {
        if rest.as_bytes().len() == 0 {
            assert(lines_of(rest.spec_bytes()) =~= Seq::<Seq<u8>>::empty());
            return Err(SheetError::TooFewSprites);
        }
        let (line, next) = split_line(rest);
        proof {
            let sub = ls.subrange(2 + k, ls.len() as int);
            let tail = lines_of(next.spec_bytes());
            assert(sub == seq![line.spec_bytes()] + tail);
            assert(sub.len() >= 1);
            assert(ls[2 + k] == sub[0]);
            assert(sub.drop_first() =~= ls.subrange(3 + k, ls.len() as int));
            assert((seq![line.spec_bytes()] + tail).drop_first() =~= tail);
        }
        match SpriteRef::parse(line) {
            Err(e) => {
                return Err(SheetError::BadSprite(e));
            },
            Ok(sp) => {
                sprites.push(sp);
            },
        }
        assert(lines_of(next.spec_bytes()) =~= ls.subrange(3 + k, ls.len() as int));
        rest = next;
        k = k + 1;
    }
    Ok((image_path, sprites))
}

impl std::str::FromStr for SpriteRef {
    type Err = SpriteRefError;

    fn from_str(line: &str) -> Result<SpriteRef, SpriteRefError> {
        SpriteRef::parse(line)
    }
}

} // verus!
