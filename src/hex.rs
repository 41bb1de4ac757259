use vstd::prelude::*;

use crate::color::Color;
use crate::parse_error::ParseError;

verus! {

/// The hexadecimal digit for `n` in `0..16`, upper case.
pub open spec fn hex_char(n: int) -> char {
    seq!['0', '1', '2', '3', '4', '5', '6', '7', '8', '9', 'A', 'B', 'C', 'D', 'E', 'F'][n]
}

pub open spec fn is_hex_digit(c: char) -> bool {
    ('0' <= c <= '9') || ('a' <= c <= 'f') || ('A' <= c <= 'F')
}

/// The value of a hexadecimal digit, in either case.
pub open spec fn hex_digit_value(c: char) -> int {
    if '0' <= c <= '9' {
        c as int - '0' as int
    } else if 'a' <= c <= 'f' {
        c as int - 'a' as int + 10
    } else {
        c as int - 'A' as int + 10
    }
}

/// The byte written by the two hexadecimal digits `hi` and `lo`.
pub open spec fn hex_pair(hi: char, lo: char) -> int {
    16 * hex_digit_value(hi) + hex_digit_value(lo)
}

/// Channel `k` (0 to 3) of the digits after the `0x` prefix of `s`: one
/// doubled digit in the short forms, two digits in the long forms.
pub open spec fn hex_channel(s: Seq<char>, k: int, short: bool) -> u8 {
    if short {
        hex_pair(s[2 + k], s[2 + k]) as u8
    } else {
        hex_pair(s[2 + 2 * k], s[3 + 2 * k]) as u8
    }
}

/// The color that `s` writes as `0xRGB`, `0xRGBA`, `0xRRGGBB` or `0xRRGGBBAA`
/// (digits and the `x` in either case; alpha 255 when absent), or `None`.
pub open spec fn hex_color(s: Seq<char>) -> Option<Color> {
    let n = s.len() - 2;
    if s.len() >= 2 && s[0] == '0' && (s[1] == 'x' || s[1] == 'X') && (forall|i: int|
        2 <= i < s.len() ==> #[trigger] is_hex_digit(s[i])) && (n == 3 || n == 4 || n == 6 || n
        == 8) {
        let short = n == 3 || n == 4;
        let with_alpha = n == 4 || n == 8;
        Some(
            Color {
                r: hex_channel(s, 0, short),
                g: hex_channel(s, 1, short),
                b: hex_channel(s, 2, short),
                a: if with_alpha {
                    hex_channel(s, 3, short)
                } else {
                    255
                },
            },
        )
    } else {
        None
    }
}

/// The two upper-case hexadecimal digits of `v`.
pub open spec fn byte_hex(v: u8) -> Seq<char> {
    seq![hex_char(v as int / 16), hex_char(v as int % 16)]
}

/// `c` written as `0xRRGGBBAA`.
pub open spec fn hex_text(c: Color) -> Seq<char> {
    seq!['0', 'x'] + byte_hex(c.r) + byte_hex(c.g) + byte_hex(c.b) + byte_hex(c.a)
}

proof fn lemma_hex_char(n: int)
    requires
        0 <= n < 16,
    ensures
        is_hex_digit(hex_char(n)),
        hex_digit_value(hex_char(n)) == n,
{
    if n == 0 {
        assert(hex_char(n) == '0');
    } else if n == 1 {
        assert(hex_char(n) == '1');
    } else if n == 2 {
        assert(hex_char(n) == '2');
    } else if n == 3 {
        assert(hex_char(n) == '3');
    } else if n == 4 {
        assert(hex_char(n) == '4');
    } else if n == 5 {
        assert(hex_char(n) == '5');
    } else if n == 6 {
        assert(hex_char(n) == '6');
    } else if n == 7 {
        assert(hex_char(n) == '7');
    } else if n == 8 {
        assert(hex_char(n) == '8');
    } else if n == 9 {
        assert(hex_char(n) == '9');
    } else if n == 10 {
        assert(hex_char(n) == 'A');
    } else if n == 11 {
        assert(hex_char(n) == 'B');
    } else if n == 12 {
        assert(hex_char(n) == 'C');
    } else if n == 13 {
        assert(hex_char(n) == 'D');
    } else if n == 14 {
        assert(hex_char(n) == 'E');
    } else {
        assert(hex_char(n) == 'F');
    }
}

/// The value of a hexadecimal digit, or `None` where `c` is not one.
fn hex_digit(c: char) -> (r: Option<u8>)
    ensures
        r is Some <==> is_hex_digit(c),
        match r {
            Some(v) => v as int == hex_digit_value(c) && v < 16,
            None => true,
        },
{
    if '0' <= c && c <= '9' {
        Some((c as u32 - '0' as u32) as u8)
    } else if 'a' <= c && c <= 'f' {
        Some((c as u32 - 'a' as u32 + 10) as u8)
    } else if 'A' <= c && c <= 'F' {
        Some((c as u32 - 'A' as u32 + 10) as u8)
    } else {
        None
    }
}

/// The error for text that is not a hexadecimal color.
fn hex_error(value: &str) -> (e: ParseError)
    ensures
        e.msg@ == "Could not parse '"@ + value@ + "' as a hexadecimal value"@,
{
    let mut msg = String::from_str("Could not parse '");
    msg.append(value);
    msg.append("' as a hexadecimal value");
    ParseError { msg }
}

proof fn lemma_byte_hex(v: u8)
    ensures
        is_hex_digit(byte_hex(v)[0]),
        is_hex_digit(byte_hex(v)[1]),
        hex_pair(byte_hex(v)[0], byte_hex(v)[1]) == v as int,
{
    lemma_hex_char(v as int / 16);
    lemma_hex_char(v as int % 16);
}

/// Reading back the text that `to_hex` writes gives the same color, alpha included.
pub proof fn lemma_hex_round_trip(c: Color)
    ensures
        hex_color(hex_text(c)) == Some(c),
{
    let s = hex_text(c);
    lemma_byte_hex(c.r);
    lemma_byte_hex(c.g);
    lemma_byte_hex(c.b);
    lemma_byte_hex(c.a);
    assert(s.len() == 10);
    assert(s[2] == byte_hex(c.r)[0] && s[3] == byte_hex(c.r)[1]);
    assert(s[4] == byte_hex(c.g)[0] && s[5] == byte_hex(c.g)[1]);
    assert(s[6] == byte_hex(c.b)[0] && s[7] == byte_hex(c.b)[1]);
    assert(s[8] == byte_hex(c.a)[0] && s[9] == byte_hex(c.a)[1]);
    assert forall|i: int| 2 <= i < s.len() implies #[trigger] is_hex_digit(s[i]) by {}
}

/// The one-character text of hexadecimal digit `n`.
fn hex_digit_text(n: u8) -> (t: &'static str)
    requires
        n < 16,
    ensures
        t@ == seq![hex_char(n as int)],
{
    if n == 0 {
        proof {
            reveal_strlit("0");
        }
        "0"
    } else if n == 1 {
        proof {
            reveal_strlit("1");
        }
        "1"
    } else if n == 2 {
        proof {
            reveal_strlit("2");
        }
        "2"
    } else if n == 3 {
        proof {
            reveal_strlit("3");
        }
        "3"
    } else if n == 4 {
        proof {
            reveal_strlit("4");
        }
        "4"
    } else if n == 5 {
        proof {
            reveal_strlit("5");
        }
        "5"
    } else if n == 6 {
        proof {
            reveal_strlit("6");
        }
        "6"
    } else if n == 7 {
        proof {
            reveal_strlit("7");
        }
        "7"
    } else if n == 8 {
        proof {
            reveal_strlit("8");
        }
        "8"
    } else if n == 9 {
        proof {
            reveal_strlit("9");
        }
        "9"
    } else if n == 10 {
        proof {
            reveal_strlit("A");
        }
        "A"
    } else if n == 11 {
        proof {
            reveal_strlit("B");
        }
        "B"
    } else if n == 12 {
        proof {
            reveal_strlit("C");
        }
        "C"
    } else if n == 13 {
        proof {
            reveal_strlit("D");
        }
        "D"
    } else if n == 14 {
        proof {
            reveal_strlit("E");
        }
        "E"
    } else {
        proof {
            reveal_strlit("F");
        }
        "F"
    }
}

impl Color {
    /// Reads a color written as `0xRGB`, `0xRGBA`, `0xRRGGBB` or `0xRRGGBBAA`.
    /// Short forms double each digit; a missing alpha is 255.
    pub fn from_hex(value: &str) -> (r: Result<Color, ParseError>)
        ensures
            match r {
                Ok(c) => hex_color(value@) == Some(c),
                Err(e) => hex_color(value@) is None && e.msg@ == "Could not parse '"@ + value@
                    + "' as a hexadecimal value"@,
            },
    {
        let s = Ghost(value@);
        let len: usize = value.unicode_len();
        if len >= 2 && value.get_char(0) == '0' && (value.get_char(1) == 'x' || value.get_char(1)
            == 'X') && (len == 5 || len == 6 || len == 8 || len == 10) {
            let short: bool = len == 5 || len == 6;
            let with_alpha: bool = len == 6 || len == 10;
            let mut channels: [u8; 4] = [255, 255, 255, 255];
            let n_channels: usize = if with_alpha {
                4
            } else {
                3
            };
            let mut k: usize = 0;
            while k < n_channels
                invariant
                    len == s@.len(),
                    s@ == value@,
                    n_channels == 3 || n_channels == 4,
                    n_channels == 4 <==> with_alpha,
                    short <==> (len == 5 || len == 6),
                    with_alpha <==> (len == 6 || len == 10),
                    len == 5 || len == 6 || len == 8 || len == 10,
                    k <= n_channels,
                    forall|j: int| 0 <= j < k ==> channels[j] == hex_channel(s@, j, short),
                    forall|j: int| k <= j < 4 ==> channels[j] == 255,
                    forall|i: int|
                        2 <= i < (if short {
                            2 + k
                        } else {
                            2 + 2 * k
                        }) ==> #[trigger] is_hex_digit(s@[i]),
                decreases n_channels - k,
            {
                let hi: char = if short {
                    value.get_char(2 + k)
                } else {
                    value.get_char(2 + 2 * k)
                };
                let lo: char = if short {
                    hi
                } else {
                    value.get_char(3 + 2 * k)
                };
                match Color::hex_to_u8(hi, lo) {
                    Some(v) => {
                        channels[k] = v;
                    },
                    None => {
                        proof {
                            if short {
                                assert(!is_hex_digit(s@[2 + k]));
                            } else {
                                assert(!is_hex_digit(s@[2 + 2 * k]) || !is_hex_digit(
                                    s@[3 + 2 * k],
                                ));
                            }
                        }
                        return Err(hex_error(value));
                    },
                }
                k = k + 1;
            }
            let c = Color::new(channels[0], channels[1], channels[2], channels[3]);
            assert(hex_color(value@) == Some(c));
            Ok(c)
        } else {
            Err(hex_error(value))
        }
    }

    /// Reads the byte written by two hexadecimal digits, or `None` where either
    /// is not a hexadecimal digit. The short forms pass one digit twice.
    fn hex_to_u8(hi: char, lo: char) -> (r: Option<u8>)
        ensures
            r is Some <==> is_hex_digit(hi) && is_hex_digit(lo),
            match r {
                Some(v) => v as int == hex_pair(hi, lo),
                None => true,
            },
    {
        match (hex_digit(hi), hex_digit(lo)) {
            (Some(h), Some(l)) => Some(16 * h + l),
            _ => None,
        }
    }

    /// Writes this color as `0xRRGGBBAA`, two upper-case digits per channel.
    pub fn to_hex(&self) -> (t: String)
        ensures
            t@ == hex_text(*self),
    {
        let mut t = String::from_str("0x");
        proof {
            reveal_strlit("0x");
        }
        t.append(Color::u8_to_hex(self.r).as_str());
        t.append(Color::u8_to_hex(self.g).as_str());
        t.append(Color::u8_to_hex(self.b).as_str());
        t.append(Color::u8_to_hex(self.a).as_str());
        assert(t@ =~= hex_text(*self));
        t
    }

    /// Writes `value` as two upper-case hexadecimal digits.
    fn u8_to_hex(value: u8) -> (t: String)
        ensures
            t@ == byte_hex(value),
    {
        let mut t = String::from_str(hex_digit_text(value / 16));
        t.append(hex_digit_text(value % 16));
        assert(t@ =~= byte_hex(value));
        t
    }
}

} // verus!
