use vstd::prelude::*;
use vstd::string::StringSliceAdditionalSpecFns;

verus! {

/// A color: red, green and blue.
pub struct Color(pub u8, pub u8, pub u8);

/// Why a text is not a color.
pub enum ColorError {
    /// A component is not a hexadecimal number.
    InvalidDigit,
    /// The code has neither 3 nor 6 characters.
    WrongLength,
}

/// The value of a hexadecimal digit byte.
pub open spec fn hex_digit(b: u8) -> Option<nat> {
    if 48 <= b <= 57 {
        Some((b - 48) as nat)
    } else if 97 <= b <= 102 {
        Some((b - 87) as nat)
    } else if 65 <= b <= 70 {
        Some((b - 55) as nat)
    } else {
        None
    }
}

pub open spec fn all_hex(d: Seq<u8>) -> bool {
    forall|i: int| 0 <= i < d.len() ==> #[trigger] hex_digit(d[i]) is Some
}

/// The number that hexadecimal digits denote.
pub open spec fn hex_value(d: Seq<u8>) -> nat
    decreases d.len(),
{
    if d.len() == 0 {
        0
    } else {
        hex_value(d.drop_last()) * 16 + hex_digit(d.last())->0
    }
}

/// The bytes without one leading `+`.
pub open spec fn plus_stripped(s: Seq<u8>) -> Seq<u8> {
    if s.len() > 0 && s[0] == 43 {
        s.drop_first()
    } else {
        s
    }
}

/// A byte read as `u8::from_str_radix(s, 16)` reads it: an optional `+`, then at least one
/// hexadecimal digit, denoting a number below 256.
pub open spec fn parse_hex_u8(s: Seq<u8>) -> Option<u8> {
    let d = plus_stripped(s);
    if d.len() > 0 && all_hex(d) && hex_value(d) <= 255 {
        Some(hex_value(d) as u8)
    } else {
        None
    }
}

/// A UTF-8 byte that does not start a character.
pub open spec fn is_continuation(b: u8) -> bool {
    128 <= b < 192
}

/// The code of a color: its bytes after an optional `#`.
pub open spec fn color_code(s: Seq<u8>) -> Seq<u8> {
    if s.len() > 0 && s[0] == 35 {
        s.drop_first()
    } else {
        s
    }
}

/// Slicing the code into its components does not cut a character.
pub open spec fn color_slices_ok(s: Seq<u8>) -> bool {
    let c = color_code(s);
    &&& c.len() == 6 ==> !is_continuation(c[2]) && !is_continuation(c[4])
    &&& c.len() == 3 ==> !is_continuation(c[1]) && !is_continuation(c[2])
}

/// The color a text denotes: `#` optional, then six hexadecimal digits (two per component), or
/// three (one per component, repeated).
pub open spec fn color_of(s: Seq<u8>) -> Result<(u8, u8, u8), ColorError> {
    let c = color_code(s);
    if c.len() == 6 {
        match (parse_hex_u8(c.subrange(0, 2)), parse_hex_u8(c.subrange(2, 4)), parse_hex_u8(
            c.subrange(4, 6),
        )) {
            (Some(r), Some(g), Some(b)) => Ok((r, g, b)),
            _ => Err(ColorError::InvalidDigit),
        }
    } else if c.len() == 3 {
        match (parse_hex_u8(c.subrange(0, 1)), parse_hex_u8(c.subrange(1, 2)), parse_hex_u8(
            c.subrange(2, 3),
        )) {
            (Some(r), Some(g), Some(b)) => Ok(((r * 17) as u8, (g * 17) as u8, (b * 17) as u8)),
            _ => Err(ColorError::InvalidDigit),
        }
    } else {
        Err(ColorError::WrongLength)
    }
}

fn hex_digit_of(b: u8) -> (r: Option<u8>)
    ensures
        match r {
            Some(v) => hex_digit(b) == Some(v as nat) && v < 16,
            None => hex_digit(b) is None,
        },
{
    if 48 <= b && b <= 57 {
        Some(b - 48)
    } else if 97 <= b && b <= 102 {
        Some(b - 87)
    } else if 65 <= b && b <= 70 {
        Some(b - 55)
    } else {
        None
    }
}

/// Reads a byte as `u8::from_str_radix(s, 16)` does, for the bytes `s[from..to]` of at most two
/// bytes; see `parse_hex_u8`.
fn parse_hex_slice(s: &[u8], from: usize, to: usize) -> (r: Option<u8>)
    requires
        from <= to <= s@.len(),
        to - from <= 2,
    ensures
        r == parse_hex_u8(s@.subrange(from as int, to as int)),
{
    let ghost t = s@.subrange(from as int, to as int);
    let start = if from < to && s[from] == 43 {
        from + 1
    } else {
        from
    };
    let ghost d = plus_stripped(t);
    proof {
        assert(d =~= s@.subrange(start as int, to as int));
    }
    if start >= to {
        return None;
    }
    let mut value: u8 = 0;
    let mut i = start;
    while i < to
        invariant
            start <= i <= to,
            start < to,
            to <= s@.len(),
            to - start <= 2,
            d == s@.subrange(start as int, to as int),
            t == s@.subrange(from as int, to as int),
            d == plus_stripped(t),
            value == hex_value(d.take(i - start)),
            value < 16 || i - start == 2,
            i - start <= 1 ==> value < 16,
            forall|j: int| 0 <= j < i - start ==> #[trigger] hex_digit(d[j]) is Some,
        decreases to - i,
    {
        proof {
            assert(d[i - start] == s@[i as int]);
        }
        match hex_digit_of(s[i]) {
            Some(v) => {
                proof {
                    assert(d.take(i - start + 1).drop_last() =~= d.take(i - start));
                    assert(i - start == 0 ==> value == 0);
                }
                value = value * 16 + v;
            },
            None => {
                proof {
                    assert(!all_hex(d));
                }
                return None;
            },
        }
        i = i + 1;
    }
    proof {
        assert(d.take(to - start) =~= d);
        assert(all_hex(d));
    }
    Some(value)
}

impl Color {
    /// The color a text denotes; see `color_of`. The text must not have a character cut by the
    /// slicing into components.
    pub fn from_hex(v: &str) -> (r: Result<Color, ColorError>)
        requires
            color_slices_ok(v.spec_bytes()),
        ensures
            match r {
                Ok(c) => color_of(v.spec_bytes()) == Ok::<(u8, u8, u8), ColorError>((c.0, c.1, c.2)),
                Err(e) => color_of(v.spec_bytes()) == Err::<(u8, u8, u8), ColorError>(e),
            },
    {
        let bytes = v.as_bytes();
        let from: usize = if bytes.len() > 0 && bytes[0] == 35 {
            1
        } else {
            0
        };
        let ghost c = color_code(v.spec_bytes());
        proof {
            assert(c =~= bytes@.subrange(from as int, bytes@.len() as int));
        }
        let n = bytes.len() - from;
        if n == 6 {
            let r = parse_hex_slice(bytes, from, from + 2);
            let g = parse_hex_slice(bytes, from + 2, from + 4);
            let b = parse_hex_slice(bytes, from + 4, from + 6);
            proof {
                assert(c.subrange(0, 2) =~= bytes@.subrange(from as int, from + 2));
                assert(c.subrange(2, 4) =~= bytes@.subrange(from + 2, from + 4));
                assert(c.subrange(4, 6) =~= bytes@.subrange(from + 4, from + 6));
            }
            match (r, g, b) {
                (Some(r), Some(g), Some(b)) => Ok(Color(r, g, b)),
                _ => Err(ColorError::InvalidDigit),
            }
        } else if n == 3 {
            let r = parse_hex_slice(bytes, from, from + 1);
            let g = parse_hex_slice(bytes, from + 1, from + 2);
            let b = parse_hex_slice(bytes, from + 2, from + 3);
            proof {
                assert(c.subrange(0, 1) =~= bytes@.subrange(from as int, from + 1));
                assert(c.subrange(1, 2) =~= bytes@.subrange(from + 1, from + 2));
                assert(c.subrange(2, 3) =~= bytes@.subrange(from + 2, from + 3));
            }
            match (r, g, b) {
                (Some(r), Some(g), Some(b)) => {
                    proof {
                        lemma_single_hex(c.subrange(0, 1));
                        lemma_single_hex(c.subrange(1, 2));
                        lemma_single_hex(c.subrange(2, 3));
                    }
                    Ok(Color(r | (r << 4), g | (g << 4), b | (b << 4)))
                },
                _ => Err(ColorError::InvalidDigit),
            }
        } else {
            Err(ColorError::WrongLength)
        }
    }
}


impl Color {
    /// The color of exactly three components; otherwise the length that is reported: the number
    /// of components when there are fewer than three, 4 when there are more.
    pub fn from_components(items: &Vec<u8>) -> (r: Result<Color, usize>)
        ensures
            items@.len() == 3 ==> r == Ok::<Color, usize>(Color(items@[0], items@[1], items@[2])),
            items@.len() < 3 ==> r == Err::<Color, usize>(items@.len() as usize),
            items@.len() > 3 ==> r == Err::<Color, usize>(4),
    {
        if items.len() < 3 {
            Err(items.len())
        } else if items.len() > 3 {
            Err(4)
        } else {
            Ok(Color(items[0], items[1], items[2]))
        }
    }
}

proof fn lemma_single_hex(s: Seq<u8>)
    requires
        s.len() == 1,
        parse_hex_u8(s) is Some,
    ensures
        parse_hex_u8(s)->0 < 16,
        ({
            let x = parse_hex_u8(s)->0;
            x | (x << 4u8) == (x * 17) as u8
        }),
{
    let d = plus_stripped(s);
    assert(d.len() > 0);
    assert(d =~= s);
    assert(d.drop_last().len() == 0);
    assert(hex_value(d.drop_last()) == 0);
    assert(hex_digit(d.last()) is Some);
    assert(hex_digit(d.last())->0 < 16);
    assert(hex_value(d) == hex_digit(d.last())->0);
    let x = parse_hex_u8(s)->0;
    assert(x < 16);
    assert(x < 16 ==> x | (x << 4u8) == (x * 17) as u8) by (bit_vector);
}

} // verus!
