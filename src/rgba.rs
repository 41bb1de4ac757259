use vstd::prelude::*;

use crate::color::Color;
use crate::parse_error::ParseError;

verus! {

/// The comma-separated fields of `s`, in order; empty ones included.
pub open spec fn fields(s: Seq<char>) -> Seq<Seq<char>>
    decreases s.len(),
{
    if s.len() == 0 {
        seq![Seq::empty()]
    } else {
        let f = fields(s.drop_last());
        if s.last() == ',' {
            f.push(Seq::empty())
        } else {
            f.update(f.len() - 1, f.last().push(s.last()))
        }
    }
}

pub open spec fn all_digits(f: Seq<char>) -> bool {
    forall|i: int| 0 <= i < f.len() ==> '0' <= #[trigger] f[i] <= '9'
}

/// One to three decimal digits.
pub open spec fn is_decimal_field(f: Seq<char>) -> bool {
    1 <= f.len() <= 3 && all_digits(f)
}

/// The number that the decimal digits `f` write.
pub open spec fn decimal_value(f: Seq<char>) -> int
    decreases f.len(),
{
    if f.len() == 0 {
        0
    } else {
        10 * decimal_value(f.drop_last()) + (f.last() as int - '0' as int)
    }
}

/// `s` has the shape `r,g,b` or `r,g,b,a`, each part one to three decimal digits.
pub open spec fn rgba_well_formed(s: Seq<char>) -> bool {
    let fs = fields(s);
    (fs.len() == 3 || fs.len() == 4) && forall|j: int|
        0 <= j < fs.len() ==> #[trigger] is_decimal_field(fs[j])
}

/// Every field of `s` is at most 255.
pub open spec fn rgba_in_range(s: Seq<char>) -> bool {
    forall|j: int| 0 <= j < fields(s).len() ==> #[trigger] decimal_value(fields(s)[j]) <= 255
}

/// The color that a well-formed, in-range `s` writes; alpha 255 when absent.
pub open spec fn rgba_color(s: Seq<char>) -> Color {
    let fs = fields(s);
    Color {
        r: decimal_value(fs[0]) as u8,
        g: decimal_value(fs[1]) as u8,
        b: decimal_value(fs[2]) as u8,
        a: if fs.len() == 4 {
            decimal_value(fs[3]) as u8
        } else {
            255
        },
    }
}

proof fn lemma_fields_nonempty(s: Seq<char>)
    ensures
        fields(s).len() >= 1,
    decreases s.len(),
{
    if s.len() > 0 {
        lemma_fields_nonempty(s.drop_last());
    }
}

proof fn lemma_decimal_bound(f: Seq<char>)
    requires
        all_digits(f),
        f.len() <= 3,
    ensures
        0 <= decimal_value(f) <= 999,
        f.len() <= 2 ==> decimal_value(f) <= 99,
        f.len() <= 1 ==> decimal_value(f) <= 9,
        f.len() == 0 ==> decimal_value(f) == 0,
    decreases f.len(),
{
    if f.len() > 0 {
        let g = f.drop_last();
        assert(all_digits(g)) by {
            assert forall|i: int| 0 <= i < g.len() implies '0' <= #[trigger] g[i] <= '9' by {
                assert(g[i] == f[i]);
            }
        }
        assert('0' <= f[f.len() - 1] <= '9');
        lemma_decimal_bound(g);
    }
}

/// The error for text that is not of the RGBA shape.
fn rgba_shape_error(value: &str) -> (e: ParseError)
    ensures
        e.msg@ == "Could not parse '"@ + value@ + "' as a RGBA value"@,
{
    let mut msg = String::from_str("Could not parse '");
    msg.append(value);
    msg.append("' as a RGBA value");
    ParseError { msg }
}

/// The error for RGBA text with a number above 255.
fn rgba_range_error(value: &str) -> (e: ParseError)
    ensures
        e.msg@ == "All numbers in '"@ + value@ + "' must be between 0-255"@,
{
    let mut msg = String::from_str("All numbers in '");
    msg.append(value);
    msg.append("' must be between 0-255");
    ParseError { msg }
}

/// The fields `fs` of the text read so far can still begin RGBA text: at most four
/// fields, the finished ones decimal fields, the last at most three digits.
spec fn rgba_prefix_ok(fs: Seq<Seq<char>>) -> bool {
    &&& fs.len() <= 4
    &&& forall|j: int| 0 <= j < fs.len() - 1 ==> #[trigger] is_decimal_field(fs[j])
    &&& fs.last().len() <= 3
    &&& all_digits(fs.last())
}

impl Color {
    /// Reads a color written as `r,g,b` or `r,g,b,a` in decimal, one to three
    /// digits each; a missing alpha is 255. A number above 255 is an error.
    pub fn from_rgba(value: &str) -> (r: Result<Color, ParseError>)
        ensures
            match r {
                Ok(c) => rgba_well_formed(value@) && rgba_in_range(value@) && c == rgba_color(
                    value@,
                ),
                Err(e) => {
                    &&& !(rgba_well_formed(value@) && rgba_in_range(value@))
                    &&& !rgba_well_formed(value@) ==> e.msg@ == "Could not parse '"@ + value@
                        + "' as a RGBA value"@
                    &&& rgba_well_formed(value@) ==> e.msg@ == "All numbers in '"@ + value@
                        + "' must be between 0-255"@
                },
            },
    {
        let ghost s = value@;
        let len: usize = value.unicode_len();
        let mut ok: bool = true;
        let mut vals: Vec<u16> = Vec::new();
        let mut cur_val: u16 = 0;
        let mut cur_len: usize = 0;
        let mut i: usize = 0;
        assert(s.take(0) =~= Seq::<char>::empty());
        assert(fields(s.take(0)) =~= seq![Seq::<char>::empty()]);
        while i < len
            invariant
                len == s.len(),
                s == value@,
                i <= len,
                fields(s.take(i as int)).len() >= 1,
                ok == rgba_prefix_ok(fields(s.take(i as int))),
                ok ==> {
                    let fs = fields(s.take(i as int));
                    &&& vals@.len() == fs.len() - 1
                    &&& forall|j: int| 0 <= j < vals@.len() ==> vals@[j] == decimal_value(fs[j])
                    &&& cur_len == fs.last().len()
                    &&& cur_val == decimal_value(fs.last())
                },
            decreases len - i,
        {
            let c: char = value.get_char(i);
            let ghost fs = fields(s.take(i as int));
            let ghost t = s.take(i + 1);
            assert(t.drop_last() =~= s.take(i as int));
            assert(t.last() == c);
            if c == ',' {
                assert(fields(t) == fs.push(Seq::<char>::empty()));
                if ok && cur_len >= 1 && vals.len() < 3 {
                    vals.push(cur_val);
                    cur_val = 0;
                    cur_len = 0;
                } else {
                    ok = false;
                }
                proof {
                    let ft = fields(t);
                    assert(ft[ft.len() - 1] =~= Seq::<char>::empty());
                    assert(ft.len() - 1 == fs.len());
                    assert forall|j: int| 0 <= j < fs.len() implies ft[j] == fs[j] by {}
                    if rgba_prefix_ok(ft) {
                        assert(is_decimal_field(ft[fs.len() - 1]));
                    }
                }
            } else {
                let ghost nl = fs.last().push(c);
                assert(fields(t) == fs.update(fs.len() - 1, nl));
                if ok && '0' <= c && c <= '9' && cur_len < 3 {
                    proof {
                        lemma_decimal_bound(fs.last());
                        assert(nl.drop_last() =~= fs.last());
                    }
                    cur_val = cur_val * 10 + (c as u32 - '0' as u32) as u16;
                    cur_len = cur_len + 1;
                    proof {
                        assert(all_digits(nl)) by {
                            assert forall|k: int| 0 <= k < nl.len() implies '0' <= #[trigger] nl[k]
                                <= '9' by {
                                if k < fs.last().len() {
                                    assert(nl[k] == fs.last()[k]);
                                }
                            }
                        }
                    }
                } else {
                    ok = false;
                    proof {
                        let ft = fields(t);
                        if rgba_prefix_ok(ft) {
                            assert(ft.last() == nl);
                            assert(nl[nl.len() - 1] == c);
                            assert('0' <= c <= '9');
                            assert forall|k: int| 0 <= k < fs.last().len() implies '0'
                                <= #[trigger] fs.last()[k] <= '9' by {
                                assert(nl[k] == fs.last()[k]);
                            }
                            assert forall|j: int| 0 <= j < fs.len() - 1 implies #[trigger] is_decimal_field(
                                fs[j],
                            ) by {
                                assert(ft[j] == fs[j]);
                            }
                        }
                    }
                }
            }
            i = i + 1;
        }
        assert(s.take(len as int) =~= s);
        let ghost fs = fields(s);
        if !(ok && vals.len() >= 2 && cur_len >= 1) {
            proof {
                if rgba_well_formed(s) {
                    assert(is_decimal_field(fs[fs.len() - 1]));
                    assert(rgba_prefix_ok(fs));
                }
            }
            return Err(rgba_shape_error(value));
        }
        assert(rgba_well_formed(s)) by {
            assert(is_decimal_field(fs[fs.len() - 1]));
        }
        let mut in_range: bool = cur_val <= 255;
        let mut k: usize = 0;
        while k < vals.len()
            invariant
                k <= vals@.len(),
                in_range == (cur_val <= 255 && forall|j: int| 0 <= j < k ==> vals@[j] <= 255),
            decreases vals@.len() - k,
        {
            in_range = in_range && vals[k] <= 255;
            k = k + 1;
        }
        if !in_range {
            proof {
                if rgba_in_range(s) {
                    assert forall|j: int| 0 <= j < vals@.len() implies vals@[j] <= 255 by {
                        assert(decimal_value(fs[j]) <= 255);
                    }
                    assert(decimal_value(fs[fs.len() - 1]) <= 255);
                }
            }
            return Err(rgba_range_error(value));
        }
        assert(rgba_in_range(s)) by {
            assert forall|j: int| 0 <= j < fs.len() implies #[trigger] decimal_value(fs[j]) <= 255 by {
                if j < vals@.len() {
                    assert(vals@[j] <= 255);
                }
            }
        }
        let a: u16 = if vals.len() == 3 {
            cur_val
        } else {
            255
        };
        let b: u16 = if vals.len() == 3 {
            vals[2]
        } else {
            cur_val
        };
        Ok(Color::new(vals[0] as u8, vals[1] as u8, b as u8, a as u8))
    }
}

} // verus!
