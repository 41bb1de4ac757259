use std::cmp::Ordering;
use vstd::math::abs;
use vstd::prelude::*;
use vstd::std_specs::cmp::{PartialEqSpec, PartialOrdSpec};

verus! {

/// A single RGBA color. Equality and order go by brightness alone.
#[derive(Clone, Copy, Debug)]
pub struct Color {
    pub r: u8,
    pub g: u8,
    pub b: u8,
    pub a: u8,
}

/// The weighted sum of squares behind brightness, scaled by 1000:
/// `1000 * (0.241 r² + 0.691 g² + 0.068 b²)`.
pub open spec fn weighted_square_sum(r: int, g: int, b: int) -> int {
    241 * r * r + 691 * g * g + 68 * b * b
}

/// `n` is `floor(sqrt(s / 1000))`.
pub open spec fn is_floor_root(s: int, n: int) -> bool {
    0 <= n && 1000 * n * n <= s && s < 1000 * (n + 1) * (n + 1)
}

proof fn lemma_floor_root_unique(s: int, n: int, m: int)
    requires
        is_floor_root(s, n),
        is_floor_root(s, m),
    ensures
        n == m,
{
    if n < m {
        assert(1000 * (n + 1) * (n + 1) <= 1000 * m * m) by (nonlinear_arith)
            requires
                0 <= n,
                n + 1 <= m,
        ;
    } else if m < n {
        assert(1000 * (m + 1) * (m + 1) <= 1000 * n * n) by (nonlinear_arith)
            requires
                0 <= m,
                m + 1 <= n,
        ;
    }
}

/// The first index at or after `i` whose entry is at least as bright as `q`,
/// or the length of `p` when there is none.
pub open spec fn first_at_or_above(q: int, p: Seq<Color>, i: int) -> int
    decreases p.len() - i,
{
    if i < 0 || i >= p.len() {
        p.len() as int
    } else if p[i].brightness() >= q {
        i
    } else {
        first_at_or_above(q, p, i + 1)
    }
}

/// The index that the palette scan settles on for a query of brightness `q`.
/// The scan looks no further than the crossover `k`, the first entry after the
/// first one that is at least as bright as the query; it then keeps the entry
/// before `k` unless `k` is strictly closer.
pub open spec fn match_index(q: int, p: Seq<Color>) -> int {
    let k = first_at_or_above(q, p, 1);
    if k >= p.len() {
        p.len() - 1
    } else if p[k].brightness() - q < q - p[k - 1].brightness() {
        k
    } else {
        k - 1
    }
}

/// The palette is sorted ascending by brightness.
pub open spec fn sorted_by_brightness(p: Seq<Color>) -> bool {
    forall|i: int, j: int| 0 <= i <= j < p.len() ==> p[i].brightness() <= p[j].brightness()
}

impl Color {
    pub open spec fn weighted(self) -> int {
        weighted_square_sum(self.r as int, self.g as int, self.b as int)
    }

    /// Perceived brightness: `floor(sqrt(0.241 r² + 0.691 g² + 0.068 b²))`.
    pub open spec fn brightness(self) -> int {
        choose|n: int| is_floor_root(self.weighted(), n)
    }

    /// The color with red, green and blue replaced by `255 - channel`.
    pub open spec fn inverted(self) -> Color {
        Color { r: (255 - self.r) as u8, g: (255 - self.g) as u8, b: (255 - self.b) as u8, a: self.a }
    }

    /// Creates a color from its four channels.
    pub fn new(r: u8, g: u8, b: u8, a: u8) -> (c: Color)
        ensures
            c == (Color { r, g, b, a }),
    {
        Color { r, g, b, a }
    }

    /// Inverts red, green and blue in place; alpha is kept.
    pub fn invert(&mut self)
        ensures
            *final(self) == old(self).inverted(),
    {
        self.r = 255 - self.r;
        self.g = 255 - self.g;
        self.b = 255 - self.b;
    }

    /// Computes the perceived brightness of this color.
    pub fn calculate_brightness(&self) -> (n: u8)
        ensures
            is_floor_root(self.weighted(), n as int),
            n as int == self.brightness(),
    {
        let r: u32 = self.r as u32;
        let g: u32 = self.g as u32;
        let b: u32 = self.b as u32;
        assert(r * r <= 65025 && g * g <= 65025 && b * b <= 65025) by (nonlinear_arith)
            requires
                r <= 255,
                g <= 255,
                b <= 255,
        ;
        let s: u32 = 241 * (r * r) + 691 * (g * g) + 68 * (b * b);
        assert(s as int == self.weighted()) by (nonlinear_arith)
            requires
                s == 241 * (r * r) + 691 * (g * g) + 68 * (b * b),
                r == self.r,
                g == self.g,
                b == self.b,
        ;
        let mut lo: u32 = 0;
        let mut hi: u32 = 256;
        while hi - lo > 1
            invariant
                lo < hi <= 256,
                s <= 65025000,
                1000 * lo * lo <= s,
                s < 1000 * hi * hi,
            decreases hi - lo,
        {
            let mid: u32 = lo + (hi - lo) / 2;
            assert(1000 * mid * mid <= 1000 * 256 * 256) by (nonlinear_arith)
                requires
                    mid <= 256,
            ;
            if 1000 * mid * mid <= s {
                lo = mid;
            } else {
                hi = mid;
            }
        }
        assert(is_floor_root(s as int, lo as int));
        proof {
            let n = self.brightness();
            assert(is_floor_root(self.weighted(), n));
            lemma_floor_root_unique(self.weighted(), n, lo as int);
        }
        lo as u8
    }

    /// Finds the palette entry whose brightness is closest to that of `original`.
    /// The scan stops at the first entry (after the first) that is at least as
    /// bright as `original`, so the answer is only the closest one when the
    /// palette is sorted ascending by brightness.
    pub fn find_most_similar<'a>(original: &Color, palette: &'a Vec<Color>) -> (r: Option<&'a Color>)
        ensures
            r is Some <==> palette@.len() > 0,
            match r {
                Some(c) => *c == palette@[match_index(original.brightness(), palette@)],
                None => true,
            },
    {
        if palette.len() == 0 {
            return None;
        }
        let q: u8 = original.calculate_brightness();
        let ghost qi = q as int;
        let mut i: usize = 1;
        while i < palette.len()
            invariant
                1 <= i <= palette@.len(),
                qi == q,
                qi == original.brightness(),
                first_at_or_above(qi, palette@, 1) == first_at_or_above(qi, palette@, i as int),
            decreases palette@.len() - i,
        {
            let cb: u8 = palette[i].calculate_brightness();
            if cb >= q {
                assert(first_at_or_above(qi, palette@, i as int) == i as int);
                let pb: u8 = palette[i - 1].calculate_brightness();
                if (cb as u16) + (pb as u16) < 2 * (q as u16) {
                    return Some(&palette[i]);
                } else {
                    return Some(&palette[i - 1]);
                }
            }
            assert(first_at_or_above(qi, palette@, i as int) == first_at_or_above(
                qi,
                palette@,
                i + 1,
            ));
            i = i + 1;
        }
        assert(first_at_or_above(qi, palette@, i as int) == palette@.len());
        Some(&palette[palette.len() - 1])
    }

}

impl PartialEq for Color {
    /// Two colors are equal when their brightness is.
    fn eq(&self, other: &Color) -> (r: bool) {
        self.calculate_brightness() == other.calculate_brightness()
    }
}

impl vstd::std_specs::cmp::PartialEqSpecImpl for Color {
    open spec fn obeys_eq_spec() -> bool {
        true
    }

    open spec fn eq_spec(&self, other: &Color) -> bool {
        self.brightness() == other.brightness()
    }
}

impl Eq for Color {

}

/// Orders two brightness values.
pub open spec fn compare_brightness(x: int, y: int) -> Ordering {
    if x < y {
        Ordering::Less
    } else if x == y {
        Ordering::Equal
    } else {
        Ordering::Greater
    }
}

impl PartialOrd for Color {
    /// Colors are ordered by their brightness.
    fn partial_cmp(&self, other: &Color) -> (r: Option<Ordering>) {
        let x: u8 = self.calculate_brightness();
        let y: u8 = other.calculate_brightness();
        if x < y {
            Some(Ordering::Less)
        } else if x == y {
            Some(Ordering::Equal)
        } else {
            Some(Ordering::Greater)
        }
    }
}

impl vstd::std_specs::cmp::PartialOrdSpecImpl for Color {
    open spec fn obeys_partial_cmp_spec() -> bool {
        true
    }

    open spec fn partial_cmp_spec(&self, other: &Color) -> Option<Ordering> {
        Some(compare_brightness(self.brightness(), other.brightness()))
    }
}

/// Two colors of equal brightness are equal, and neither is less or greater,
/// whatever their channels.
pub proof fn lemma_equal_brightness_is_equal(x: Color, y: Color)
    requires
        x.brightness() == y.brightness(),
    ensures
        x.eq_spec(&y),
        x.partial_cmp_spec(&y) == Some(Ordering::Equal),
{
}

proof fn lemma_first_at_or_above(q: int, p: Seq<Color>, i: int)
    requires
        0 <= i <= p.len(),
    ensures
        i <= first_at_or_above(q, p, i) <= p.len(),
        forall|j: int| i <= j < first_at_or_above(q, p, i) ==> #[trigger] p[j].brightness() < q,
        first_at_or_above(q, p, i) < p.len() ==> p[first_at_or_above(q, p, i)].brightness() >= q,
    decreases p.len() - i,
{
    if i < p.len() && p[i].brightness() < q {
        lemma_first_at_or_above(q, p, i + 1);
    }
}

/// The scan never settles past the crossover, the first entry after the first
/// one that is at least as bright as the query: later entries are never chosen,
/// even when closer, and every entry it passed over was dimmer than the query.
pub proof fn lemma_match_stops_at_crossover(q: int, p: Seq<Color>)
    requires
        p.len() > 0,
    ensures
        0 <= match_index(q, p) < p.len(),
        match_index(q, p) <= first_at_or_above(q, p, 1),
        forall|j: int| 1 <= j < match_index(q, p) ==> #[trigger] p[j].brightness() < q,
{
    lemma_first_at_or_above(q, p, 1);
}

/// On a palette sorted ascending by brightness, the scan settles on an entry
/// whose brightness is as close to the query's as any entry's.
pub proof fn lemma_sorted_match_is_closest(q: int, p: Seq<Color>)
    requires
        p.len() > 0,
        sorted_by_brightness(p),
    ensures
        forall|j: int|
            0 <= j < p.len() ==> abs(p[match_index(q, p)].brightness() - q) <= abs(
                #[trigger] p[j].brightness() - q,
            ),
{
    lemma_first_at_or_above(q, p, 1);
    let k = first_at_or_above(q, p, 1);
    let m = match_index(q, p);
    assert forall|j: int| 0 <= j < p.len() implies abs(p[m].brightness() - q) <= abs(
        #[trigger] p[j].brightness() - q,
    ) by {
        if k < p.len() {
            assert(p[k - 1].brightness() <= p[k].brightness());
            if j >= k {
                assert(p[k].brightness() <= p[j].brightness());
            } else {
                assert(p[j].brightness() <= p[k - 1].brightness());
            }
        } else {
            assert(p[j].brightness() <= p[p.len() - 1].brightness());
            if p.len() > 1 {
                assert(p[p.len() - 1].brightness() < q);
            }
        }
    }
}

/// Inverting twice gives back the color.
pub proof fn lemma_invert_involution(c: Color)
    ensures
        c.inverted().inverted() == c,
{
}

} // verus!
