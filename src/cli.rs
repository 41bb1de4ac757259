use vstd::prelude::*;

use crate::color::{sorted_by_brightness, Color};
use crate::hex::hex_color;
use crate::rgba::{rgba_color, rgba_in_range, rgba_well_formed};
use crate::parse_error::ParseError;

verus! {

broadcast use vstd::seq_lib::group_to_multiset_ensures;

/// The color that a palette token writes: hexadecimal when it starts with
/// `0x`, comma-separated decimal otherwise.
pub open spec fn token_color(s: Seq<char>) -> Option<Color> {
    if s.len() >= 2 && s[0] == '0' && s[1] == 'x' {
        hex_color(s)
    } else if rgba_well_formed(s) && rgba_in_range(s) {
        Some(rgba_color(s))
    } else {
        None
    }
}

/// The palette as given, with every color inverted when `invert` is set.
pub open spec fn adjusted_colors(invert: bool, palette: Seq<Color>) -> Seq<Color> {
    if invert {
        palette.map_values(|c: Color| c.inverted())
    } else {
        palette
    }
}

/// Holds of the colors whose brightness is `k`.
pub open spec fn brightness_is(k: int) -> spec_fn(Color) -> bool {
    |c: Color| c.brightness() == k
}

proof fn lemma_filter_single(x: Color, k: int)
    ensures
        seq![x].filter(brightness_is(k)) == if x.brightness() == k {
            seq![x]
        } else {
            Seq::<Color>::empty()
        },
{
    reveal_with_fuel(Seq::filter, 2);
    assert(seq![x].drop_last() =~= Seq::<Color>::empty());
}

proof fn lemma_filter_none(s: Seq<Color>, k: int)
    requires
        forall|i: int| 0 <= i < s.len() ==> #[trigger] s[i].brightness() != k,
    ensures
        s.filter(brightness_is(k)) == Seq::<Color>::empty(),
    decreases s.len(),
{
    reveal(Seq::filter);
    if s.len() > 0 {
        lemma_filter_none(s.drop_last(), k);
    }
}

/// The options of one recoloring run.
pub struct Cli {
    /// Invert the palette colors before use.
    pub invert: bool,
    /// Path of the image to recolor.
    pub image: String,
    /// The palette, sorted ascending by brightness once adjusted.
    pub palette: Vec<Color>,
}

impl Cli {
    /// Creates the options of a run and adjusts the palette: every color is
    /// inverted when `invert` is set, then the palette is sorted by brightness.
    pub fn new(invert: bool, image: String, palette: Vec<Color>) -> (cli: Cli)
        ensures
            cli.invert == invert,
            cli.image == image,
            sorted_by_brightness(cli.palette@),
            cli.palette@.to_multiset() == adjusted_colors(invert, palette@).to_multiset(),
            forall|k: int| #[trigger]
                cli.palette@.filter(brightness_is(k)) == adjusted_colors(invert, palette@).filter(
                    brightness_is(k),
                ),
    {
        let mut cli = Cli { invert, image, palette };
        cli.adjust_palette();
        cli
    }

    /// Inverts each palette color when the invert flag is set, then sorts the
    /// palette ascending by brightness.
    fn adjust_palette(&mut self)
        ensures
            final(self).invert == old(self).invert,
            final(self).image == old(self).image,
            sorted_by_brightness(final(self).palette@),
            final(self).palette@.to_multiset() == adjusted_colors(
                old(self).invert,
                old(self).palette@,
            ).to_multiset(),
            forall|k: int| #[trigger]
                final(self).palette@.filter(brightness_is(k)) == adjusted_colors(
                    old(self).invert,
                    old(self).palette@,
                ).filter(brightness_is(k)),
    {
        if self.invert {
            let mut i: usize = 0;
            while i < self.palette.len()
                invariant
                    self.invert == old(self).invert,
                    self.image == old(self).image,
                    self.palette@.len() == old(self).palette@.len(),
                    i <= self.palette@.len(),
                    forall|j: int|
                        0 <= j < i ==> self.palette@[j] == old(self).palette@[j].inverted(),
                    forall|j: int| i <= j < self.palette@.len() ==> self.palette@[j] == old(
                        self,
                    ).palette@[j],
                decreases self.palette@.len() - i,
            {
                let mut c: Color = self.palette[i];
                c.invert();
                self.palette.set(i, c);
                i = i + 1;
            }
            assert(self.palette@ =~= adjusted_colors(old(self).invert, old(self).palette@));
        }
        self.palette = sort_by_brightness(&self.palette);
    }

    /// Reads one palette token: `0x` followed by hexadecimal digits, or
    /// comma-separated decimal channels.
    pub fn parse_color(value: &str) -> (r: Result<Color, ParseError>)
        ensures
            r is Ok <==> token_color(value@) is Some,
            match r {
                Ok(c) => token_color(value@) == Some(c),
                Err(_) => true,
            },
    {
        let len: usize = value.unicode_len();
        if len >= 2 && value.get_char(0) == '0' && value.get_char(1) == 'x' {
            Color::from_hex(value)
        } else {
            Color::from_rgba(value)
        }
    }
}

/// The palette's colors, sorted ascending by brightness; colors of equal
/// brightness keep their order.
fn sort_by_brightness(palette: &Vec<Color>) -> (sorted: Vec<Color>)
    ensures
        sorted_by_brightness(sorted@),
        sorted@.to_multiset() == palette@.to_multiset(),
        forall|k: int| #[trigger]
            sorted@.filter(brightness_is(k)) == palette@.filter(brightness_is(k)),
{
    let mut sorted: Vec<Color> = Vec::new();
    let mut i: usize = 0;
    while i < palette.len()
        invariant
            i <= palette@.len(),
            sorted_by_brightness(sorted@),
            sorted@.to_multiset() == palette@.take(i as int).to_multiset(),
            forall|k: int| #[trigger]
                sorted@.filter(brightness_is(k)) == palette@.take(i as int).filter(brightness_is(k)),
        decreases palette@.len() - i,
    {
        let x: Color = palette[i];
        let xb: u8 = x.calculate_brightness();
        let mut pos: usize = 0;
        while pos < sorted.len() && sorted[pos].calculate_brightness() <= xb
            invariant
                pos <= sorted@.len(),
                forall|k: int| 0 <= k < pos ==> sorted@[k].brightness() <= xb,
            decreases sorted@.len() - pos,
        {
            pos = pos + 1;
        }
        let ghost before = sorted@;
        sorted.insert(pos, x);
        proof {
            assert forall|k: int| pos <= k < before.len() implies xb < #[trigger] before[k].brightness() by {
                assert(xb < before[pos as int].brightness());
            }
            assert forall|a: int, b: int| 0 <= a <= b < sorted@.len() implies sorted@[a].brightness()
                <= sorted@[b].brightness() by {
                if a < pos && b > pos {
                    assert(sorted@[b] == before[b - 1]);
                } else if a < pos && b < pos {
                } else if a > pos {
                    assert(sorted@[a] == before[a - 1]);
                    assert(sorted@[b] == before[b - 1]);
                }
            }
            assert(sorted@.remove(pos as int) =~= before);
            assert(palette@.take(i + 1) =~= palette@.take(i as int).push(x));
            assert(sorted@.to_multiset() =~= before.to_multiset().insert(x));
            let head = before.take(pos as int);
            let tail = before.skip(pos as int);
            assert(before =~= head + tail);
            assert(sorted@ =~= head + seq![x] + tail);
            assert forall|k: int| #[trigger]
                sorted@.filter(brightness_is(k)) == palette@.take(i + 1).filter(brightness_is(k)) by {
                let f = brightness_is(k);
                assert(palette@.take(i + 1) =~= palette@.take(i as int) + seq![x]);
                assert(before.filter(f) == palette@.take(i as int).filter(f));
                Seq::filter_distributes_over_add(head, tail, f);
                Seq::filter_distributes_over_add(head, seq![x], f);
                Seq::filter_distributes_over_add(head + seq![x], tail, f);
                Seq::filter_distributes_over_add(palette@.take(i as int), seq![x], f);
                lemma_filter_single(x, k);
                if x.brightness() == k {
                    assert forall|j: int| 0 <= j < tail.len() implies #[trigger] tail[j].brightness()
                        != k by {
                        assert(tail[j] == before[pos + j]);
                    }
                    lemma_filter_none(tail, k);
                    assert(tail.filter(f) =~= Seq::<Color>::empty());
                    assert(sorted@.filter(f) =~= head.filter(f) + seq![x] + tail.filter(f));
                    assert(sorted@.filter(f) =~= before.filter(f) + seq![x]);
                } else {
                    assert(sorted@.filter(f) =~= head.filter(f) + tail.filter(f));
                }
            }
        }
        i = i + 1;
    }
    assert(palette@.take(i as int) =~= palette@);
    sorted
}

} // verus!
