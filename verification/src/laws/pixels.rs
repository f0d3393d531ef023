//! Glyphs: how their pixels are mixed into what is there, and where they are placed.

use vstd::arithmetic::div_mod::{
    lemma_fundamental_div_mod_converse_div, lemma_fundamental_div_mod_converse_mod,
};
use vstd::prelude::*;

use crate::laws::windows::pixel;
use crate::ui::gui::font::{blended, drawn, inked, pen_after, stamped, Glyph};

verus! {

/// The red, green and blue of a colour.
pub open spec fn red(p: u32) -> int {
    p as int / 0x10000 % 256
}

pub open spec fn green(p: u32) -> int {
    p as int / 0x100 % 256
}

pub open spec fn blue(p: u32) -> int {
    p as int % 256
}

/// Whether `m` is `a` parts of 255 of `f` and the rest of `b`, rounded down.
pub open spec fn is_mix(m: int, f: int, b: int, a: int) -> bool {
    255 * m <= f * a + b * (255 - a) < 255 * m + 255
}

/// Each channel of a mixed colour is a mix of that channel in the two, `a` parts of 255 of the
/// first, and there is nothing above the three.
pub proof fn law_channels_are_mixed_one_by_one(bg: u32, fg: u32, a: nat)
    requires
        a <= 255,
    ensures
        is_mix(red(blended(bg, fg, a)), red(fg), red(bg), a as int),
        is_mix(green(blended(bg, fg, a)), green(fg), green(bg), a as int),
        is_mix(blue(blended(bg, fg, a)), blue(fg), blue(bg), a as int),
        blended(bg, fg, a) <= 0xffffff,
{
    let r = (red(fg) * a + red(bg) * (255 - a)) / 255;
    let g = (green(fg) * a + green(bg) * (255 - a)) / 255;
    let b = (blue(fg) * a + blue(bg) * (255 - a)) / 255;
    lemma_mix(red(fg), red(bg), a as int);
    lemma_mix(green(fg), green(bg), a as int);
    lemma_mix(blue(fg), blue(bg), a as int);
    assert(blended(bg, fg, a) == r * 0x10000 + g * 0x100 + b);
}

proof fn lemma_mix(f: int, b: int, a: int)
    by (nonlinear_arith)
    requires
        0 <= f < 256,
        0 <= b < 256,
        0 <= a <= 255,
    ensures
        0 <= f * a + b * (255 - a),
        0 <= (f * a + b * (255 - a)) / 255 <= 255,
        is_mix((f * a + b * (255 - a)) / 255, f, b, a),
{
}

/// A pixel that a glyph does not cover stays as it is, whole.
pub proof fn law_an_uncovered_pixel_stays(p: u32, colour: u32, a: nat)
    ensures
        inked(p, colour, 0) == p,
        a > 0 ==> inked(p, colour, a) == blended(p, colour, a),
{
}

/// A glyph covers the pixels its bitmap covers, with the left edge of the bitmap at the pen and
/// its bottom on the baseline, each moved by what the glyph says, and no others.
pub proof fn law_a_glyph_is_placed_at_the_pen(
    px: Seq<u32>,
    stride: int,
    height: int,
    pen: int,
    y: int,
    g: Glyph,
    colour: u32,
    row: int,
    col: int,
    past: int,
)
    requires
        0 <= row < height,
        0 <= col < stride,
        stride * height <= px.len(),
        stride * height <= past,
    ensures
        ({
            let after = stamped(px, stride, height, pen, y, g, colour);
            let at = pixel(row, col, stride);
            // The row and the column of the bitmap.
            let r = row - (y - g.ymin - g.height);
            let c = col - (pen + g.xmin);
            let inside = 0 <= r < g.height && 0 <= c < g.width;
            &&& after.len() == px.len()
            &&& inside && g.bitmap@[r * g.width + c] > 0 ==> after[at] == blended(
                px[at],
                colour,
                g.bitmap@[r * g.width + c] as nat,
            )
            &&& !inside || g.bitmap@[r * g.width + c] == 0 ==> after[at] == px[at]
            &&& past < px.len() ==> after[past] == px[past]
        }),
{
    let at = pixel(row, col, stride);
    lemma_fundamental_div_mod_converse_div(at, stride, row, col);
    lemma_fundamental_div_mod_converse_mod(at, stride, row, col);
    assert(0 <= row * stride + col < stride * height) by (nonlinear_arith)
        requires
            0 <= row < height,
            0 <= col < stride,
    ;
}

/// Glyphs are drawn one after the other, each where the pen stands after those before it, and
/// the pen moves on by the advance of each.
pub proof fn law_glyphs_follow_each_other(
    px: Seq<u32>,
    stride: int,
    height: int,
    pen: int,
    y: int,
    a: Seq<&Glyph>,
    g: &Glyph,
    colour: u32,
)
    ensures
        pen_after(pen, Seq::empty()) == pen,
        pen_after(pen, a.push(g)) == pen_after(pen, a) + g.advance,
        drawn(px, stride, height, pen, y, Seq::empty(), colour) == px,
        drawn(px, stride, height, pen, y, a.push(g), colour) == stamped(
            drawn(px, stride, height, pen, y, a, colour),
            stride,
            height,
            pen_after(pen, a),
            y,
            *g,
            colour,
        ),
    decreases a.len(),
{
    let all = a.push(g);
    if a.len() == 0 {
        assert(all[0] == g);
        assert(all.drop_first() =~= Seq::<&Glyph>::empty());
        reveal_with_fuel(drawn, 2);
        reveal_with_fuel(pen_after, 2);
    } else {
        assert(all[0] == a[0]);
        assert(all.drop_first() =~= a.drop_first().push(g));
        law_glyphs_follow_each_other(
            stamped(px, stride, height, pen, y, *a[0], colour),
            stride,
            height,
            pen + a[0].advance,
            y,
            a.drop_first(),
            g,
            colour,
        );
    }
}

} // verus!
