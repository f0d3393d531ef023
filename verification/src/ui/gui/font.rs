//! Text, drawn a glyph at a time onto a plain pixel buffer.

use vstd::arithmetic::div_mod::{lemma_fundamental_div_mod, lemma_fundamental_div_mod_converse};
use vstd::prelude::*;

verus! {

/// A rasterised character.
pub struct Glyph {
    /// The size of the bitmap.
    pub width: usize,
    pub height: usize,
    /// Where the bitmap's left edge lies, seen from the pen.
    pub xmin: i32,
    /// Where the bitmap's bottom edge lies, seen from the baseline, upwards.
    pub ymin: i32,
    /// How far the pen moves.
    pub advance: i32,
    /// How much of each pixel the character covers, row by row from the top: 255 is all of
    /// it.
    pub bitmap: Vec<u8>,
}

impl Glyph {
    /// The bitmap has the size it is said to have.
    pub open spec fn wf(&self) -> bool {
        &&& self.width <= i32::MAX
        &&& self.height <= i32::MAX
        &&& self.bitmap@.len() == self.width * self.height
    }

    /// Whether the bitmap has the size it is said to have.
    pub fn is_whole(&self) -> (r: bool)
        ensures
            r == self.wf(),
    {
        if self.width > 2_147_483_647 || self.height > 2_147_483_647 {
            return false;
        }
        assert(self.width * self.height <= 2_147_483_647 * 2_147_483_647) by (nonlinear_arith)
            requires
                self.width <= 2_147_483_647,
                self.height <= 2_147_483_647,
        ;
        self.bitmap.len() as u64 == self.width as u64 * self.height as u64
    }
}

/// One channel of a pixel: 2 is red, 1 is green, 0 is blue.
pub open spec fn channel(p: u32, which: nat) -> nat {
    if which == 2 {
        (p / 0x10000) as nat % 256
    } else if which == 1 {
        (p / 0x100) as nat % 256
    } else {
        p as nat % 256
    }
}

/// One channel of `fg` mixed into that of `bg`, `a` parts of 255.
pub open spec fn mixed(bg: u32, fg: u32, a: nat, which: nat) -> nat {
    (channel(fg, which) * a + channel(bg, which) * (255 - a) as nat) / 255
}

/// `fg` mixed into `bg`, channel by channel.
pub open spec fn blended(bg: u32, fg: u32, a: nat) -> u32 {
    (mixed(bg, fg, a, 2) * 0x10000 + mixed(bg, fg, a, 1) * 0x100 + mixed(bg, fg, a, 0)) as u32
}

proof fn lemma_mixed(f: nat, b: nat, a: nat)
    by (nonlinear_arith)
    requires
        f < 256,
        b < 256,
        a <= 255,
    ensures
        f * a + b * (255 - a) as nat <= 255 * 255,
        (f * a + b * (255 - a) as nat) / 255 <= 255,
{
}

/// Mixes one channel.
fn mix(f: u32, b: u32, a: u32) -> (m: u32)
    requires
        f < 256,
        b < 256,
        a <= 255,
    ensures
        m == (f as nat * a as nat + b as nat * (255 - a) as nat) / 255,
        m <= 255,
{
    proof {
        lemma_mixed(f as nat, b as nat, a as nat);
    }
    assert(0 <= f * a <= 65_025 && 0 <= b * (255 - a) <= 65_025) by (nonlinear_arith)
        requires
            f < 256,
            b < 256,
            a <= 255,
    ;
    (f * a + b * (255 - a)) / 255
}

/// Mixes `fg` into `bg` by coverage. Plain integer arithmetic per channel: the buffer is 0RGB
/// with no alpha channel of its own, so the blend has to happen here or the glyph edges come
/// out as hard steps.
pub fn blend(bg: u32, fg: u32, a: u32) -> (p: u32)
    requires
        a <= 255,
    ensures
        p == blended(bg, fg, a as nat),
        p <= 0xffffff,
{
    let r = mix((fg / 0x10000) % 256, (bg / 0x10000) % 256, a);
    let g = mix((fg / 0x100) % 256, (bg / 0x100) % 256, a);
    let b = mix(fg % 256, bg % 256, a);
    r * 0x10000 + g * 0x100 + b
}

/// How much of the pixel in `row` and `col` a glyph covers that stands at `pen` on the
/// baseline `y`.
pub open spec fn coverage(g: Glyph, pen: int, y: int, row: int, col: int) -> nat {
    let r = row - (y - g.height - g.ymin);
    let c = col - (pen + g.xmin);
    if 0 <= r < g.height && 0 <= c < g.width {
        g.bitmap@[r * g.width + c] as nat
    } else {
        0
    }
}

/// A pixel that is covered in this colour.
pub open spec fn inked(p: u32, colour: u32, a: nat) -> u32 {
    if a == 0 {
        p
    } else {
        blended(p, colour, a)
    }
}

/// Pixels after a glyph was drawn. `stride` pixels make a row, and there are `height` rows.
pub open spec fn stamped(
    px: Seq<u32>,
    stride: int,
    height: int,
    pen: int,
    y: int,
    g: Glyph,
    colour: u32,
) -> Seq<u32> {
    Seq::new(
        px.len(),
        |i: int|
            if i < stride * height {
                inked(px[i], colour, coverage(g, pen, y, i / stride, i % stride))
            } else {
                px[i]
            },
    )
}

/// Pixels after several glyphs were drawn, one after the other.
pub open spec fn drawn(
    px: Seq<u32>,
    stride: int,
    height: int,
    pen: int,
    y: int,
    glyphs: Seq<&Glyph>,
    colour: u32,
) -> Seq<u32>
    decreases glyphs.len(),
{
    if glyphs.len() == 0 {
        px
    } else {
        drawn(
            stamped(px, stride, height, pen, y, *glyphs[0], colour),
            stride,
            height,
            pen + glyphs[0].advance,
            y,
            glyphs.drop_first(),
            colour,
        )
    }
}

/// Where the pen is after several glyphs.
pub open spec fn pen_after(pen: int, glyphs: Seq<&Glyph>) -> int
    decreases glyphs.len(),
{
    if glyphs.len() == 0 {
        pen
    } else {
        pen_after(pen + glyphs[0].advance, glyphs.drop_first())
    }
}

/// The row and column of a pixel.
proof fn lemma_place(i: int, stride: int, row: int)
    requires
        stride > 0,
        row * stride <= i < row * stride + stride,
    ensures
        i / stride == row,
        i % stride == i - row * stride,
{
    lemma_fundamental_div_mod_converse(i, stride, row, i - row * stride);
}

/// A pixel lies in the row it is in.
proof fn lemma_row(i: int, stride: int)
    requires
        stride > 0,
    ensures
        (i / stride) * stride <= i < (i / stride) * stride + stride,
        i % stride == i - (i / stride) * stride,
{
    lemma_fundamental_div_mod(i, stride);
    assert((i / stride) * stride == stride * (i / stride)) by (nonlinear_arith);
}

/// A row that is one of `height` ends before the pixels do.
proof fn lemma_within(row: int, stride: int, height: int)
    by (nonlinear_arith)
    requires
        0 <= row < height,
        0 <= stride,
    ensures
        0 <= row * stride,
        row * stride + stride <= stride * height,
{
}

/// A place in a bitmap.
proof fn lemma_in_bitmap(r: int, c: int, width: int, height: int)
    by (nonlinear_arith)
    requires
        0 <= r < height,
        0 <= c < width,
    ensures
        0 <= r * width + c < width * height,
{
}

/// Draws one row of a glyph into the row of pixels that starts at `base`.
fn stamp_row(
    buf: &mut [u32],
    base: usize,
    stride: usize,
    gx: i64,
    g: &Glyph,
    row: usize,
    colour: u32,
)
    requires
        g.wf(),
        row < g.height,
        base + stride <= old(buf)@.len(),
        -0x4000_0000_0000_0000 <= gx <= 0x4000_0000_0000_0000,
    ensures
        final(buf)@ == Seq::new(
            old(buf)@.len(),
            |i: int|
                if base <= i < base + stride && 0 <= i - base - gx < g.width {
                    inked(
                        old(buf)@[i],
                        colour,
                        g.bitmap@[row * g.width + (i - base - gx)] as nat,
                    )
                } else {
                    old(buf)@[i]
                },
        ),
{
    let ghost before = buf@;
    let size: usize = g.bitmap.len();
    let total: usize = buf.len();
    let mut col: usize = 0;
    assert(buf@ =~= Seq::new(before.len(), |i: int| before[i]));
    while col < g.width
        invariant
            g.wf(),
            row < g.height,
            col <= g.width,
            g.bitmap@.len() == size,
            before.len() == total,
            buf@.len() == before.len(),
            base + stride <= before.len(),
            -0x4000_0000_0000_0000 <= gx <= 0x4000_0000_0000_0000,
            forall|i: int|
                0 <= i < before.len() ==> #[trigger] buf@[i] == if base <= i < base + stride && 0
                    <= i - base - gx < col {
                    inked(before[i], colour, g.bitmap@[row * g.width + (i - base - gx)] as nat)
                } else {
                    before[i]
                },
        decreases g.width - col,
    {
        let x: i64 = gx + col as i64;
        if x >= 0 && (x as u64) < stride as u64 {
            proof {
                lemma_in_bitmap(row as int, col as int, g.width as int, g.height as int);
            }
            let place: usize = row * g.width + col;
            let a = g.bitmap[place];
            if a != 0 {
                let at: usize = base + x as usize;
                let mixed = blend(buf[at], colour, a as u32);
                buf[at] = mixed;
            }
        }
        col += 1;
    }
    assert(buf@ =~= Seq::new(
        before.len(),
        |i: int|
            if base <= i < base + stride && 0 <= i - base - gx < g.width {
                inked(before[i], colour, g.bitmap@[row * g.width + (i - base - gx)] as nat)
            } else {
                before[i]
            },
    ));
}

/// Draws a glyph that stands at `pen` on the baseline `y`.
fn stamp(buf: &mut [u32], stride: usize, height: usize, pen: i64, y: i32, g: &Glyph, colour: u32)
    requires
        g.wf(),
        stride * height <= old(buf)@.len(),
        -0x3fff_ffff_0000_0000 <= pen <= 0x3fff_ffff_0000_0000,
    ensures
        final(buf)@ == stamped(
            old(buf)@,
            stride as int,
            height as int,
            pen as int,
            y as int,
            *g,
            colour,
        ),
{
    let ghost before = buf@;
    let gx: i64 = pen + g.xmin as i64;
    let gy: i64 = y as i64 - g.height as i64 - g.ymin as i64;
    let total: usize = buf.len();
    let mut row: usize = 0;
    while row < g.height
        invariant
            g.wf(),
            row <= g.height,
            before.len() == total,
            buf@.len() == before.len(),
            stride * height <= before.len(),
            gx == pen + g.xmin,
            gy == y - g.height - g.ymin,
            -0x3fff_ffff_0000_0000 <= pen <= 0x3fff_ffff_0000_0000,
            forall|i: int|
                0 <= i < before.len() ==> #[trigger] buf@[i] == if i < stride * height && i / (
                stride as int) - gy < row {
                    inked(
                        before[i],
                        colour,
                        coverage(*g, pen as int, y as int, i / (stride as int), i % (stride as int)),
                    )
                } else {
                    before[i]
                },
        decreases g.height - row,
    {
        let py: i64 = gy + row as i64;
        let ghost mid = buf@;
        if stride > 0 && py >= 0 && (py as u64) < height as u64 {
            proof {
                lemma_within(py as int, stride as int, height as int);
            }
            let base: usize = py as usize * stride;
            stamp_row(buf, base, stride, gx, g, row, colour);
            assert forall|i: int| 0 <= i < before.len() implies #[trigger] buf@[i] == (if i < stride
                * height && i / (stride as int) - gy < row + 1 {
                inked(
                    before[i],
                    colour,
                    coverage(*g, pen as int, y as int, i / (stride as int), i % (stride as int)),
                )
            } else {
                before[i]
            }) by {
                lemma_row(i, stride as int);
                if base <= i < base + stride {
                    lemma_place(i, stride as int, py as int);
                } else {
                    assert(i / (stride as int) != py);
                }
                assert(mid[i] == mid[i]);
            }
        } else {
            assert forall|i: int| 0 <= i < before.len() implies #[trigger] buf@[i] == (if i < stride
                * height && i / (stride as int) - gy < row + 1 {
                inked(
                    before[i],
                    colour,
                    coverage(*g, pen as int, y as int, i / (stride as int), i % (stride as int)),
                )
            } else {
                before[i]
            }) by {
                if i < stride * height {
                    assert(stride > 0) by (nonlinear_arith)
                        requires
                            0 <= i < stride * height,
                    ;
                    lemma_row(i, stride as int);
                    lemma_row_in(i, stride as int, height as int);
                }
            }
        }
        row += 1;
    }
    assert(buf@ =~= stamped(
        before,
        stride as int,
        height as int,
        pen as int,
        y as int,
        *g,
        colour,
    ));
}

/// A pixel's row is one of `height`.
pub(crate) proof fn lemma_row_in(i: int, stride: int, height: int)
    requires
        stride > 0,
        0 <= i < stride * height,
    ensures
        0 <= i / stride < height,
{
    lemma_row(i, stride);
    let q = i / stride;
    assert(0 <= q < height) by (nonlinear_arith)
        requires
            q * stride <= i < q * stride + stride,
            0 <= i < stride * height,
            stride > 0,
    ;
}

/// Draws glyphs with their BASELINE at `y`, the first at `x`, and returns where the pen ends
/// up.
///
/// Baseline rather than top edge, because that is the only reference that keeps mixed scripts
/// on the same line: Cyrillic and Latin have different cap heights, and aligning by the top
/// would make one of them float. What falls outside the buffer is left out.
pub fn draw(
    buf: &mut [u32],
    stride: usize,
    height: usize,
    x: i32,
    y: i32,
    glyphs: &Vec<&Glyph>,
    colour: u32,
) -> (pen: i64)
    requires
        stride * height <= old(buf)@.len(),
        glyphs@.len() <= 0x3fff_ffff,
        forall|i: int| 0 <= i < glyphs@.len() ==> (#[trigger] glyphs@[i]).wf(),
    ensures
        final(buf)@ == drawn(
            old(buf)@,
            stride as int,
            height as int,
            x as int,
            y as int,
            glyphs@,
            colour,
        ),
        pen == pen_after(x as int, glyphs@),
{
    let ghost before = buf@;
    let mut pen: i64 = x as i64;
    let mut i: usize = 0;
    assert(glyphs@.skip(0) =~= glyphs@);
    while i < glyphs.len()
        invariant
            i <= glyphs@.len() <= 0x3fff_ffff,
            buf@.len() == before.len(),
            stride * height <= before.len(),
            forall|k: int| 0 <= k < glyphs@.len() ==> (#[trigger] glyphs@[k]).wf(),
            -0x8000_0000 * (i + 1) <= pen <= 0x8000_0000 * (i + 1),
            drawn(
                before,
                stride as int,
                height as int,
                x as int,
                y as int,
                glyphs@,
                colour,
            ) == drawn(
                buf@,
                stride as int,
                height as int,
                pen as int,
                y as int,
                glyphs@.skip(i as int),
                colour,
            ),
            pen_after(x as int, glyphs@) == pen_after(pen as int, glyphs@.skip(i as int)),
        decreases glyphs@.len() - i,
    {
        let ghost rest = glyphs@.skip(i as int);
        let g: &Glyph = glyphs[i];
        assert(rest[0] == g);
        assert(rest.drop_first() =~= glyphs@.skip(i + 1));
        stamp(buf, stride, height, pen, y, g, colour);
        pen = pen + g.advance as i64;
        i += 1;
    }
    pen
}

/// A covered pixel takes the colour, an uncovered one keeps its own, and where the two are
/// the same nothing shows.
pub proof fn law_coverage_runs_from_none_to_all(bg: u32, fg: u32, a: nat)
    requires
        bg <= 0xffffff,
        fg <= 0xffffff,
        a <= 255,
    ensures
        blended(bg, fg, 0) == bg,
        blended(bg, fg, 255) == fg,
        blended(bg, bg, a) == bg,
{
    lemma_channel(channel(fg, 2), channel(bg, 2), a);
    lemma_channel(channel(fg, 1), channel(bg, 1), a);
    lemma_channel(channel(fg, 0), channel(bg, 0), a);
}

proof fn lemma_channel(f: nat, b: nat, a: nat)
    requires
        a <= 255,
    ensures
        (f * 0 + b * (255 - 0) as nat) / 255 == b,
        (f * 255 + b * (255 - 255) as nat) / 255 == f,
        (b * a + b * (255 - a) as nat) / 255 == b,
{
    assert(b * a + b * (255 - a) as nat == b * 255) by (nonlinear_arith)
        requires
            a <= 255,
    ;
    assert(b * (255 - 255) as nat == 0) by (nonlinear_arith);
}

} // verus!
