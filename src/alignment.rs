//! Horizontal and vertical alignment, height modes and the text box style.
use vstd::prelude::*;

verus! {

/// Where each line stands between the left and right edges.
#[derive(Debug, Clone, Copy, PartialEq, Eq)]
pub enum HorizontalAlignment {
    Left,
    Right,
    Center,
    /// Interior whitespace is stretched so that wrapped lines fill the width.
    Justified,
}

/// Where the block of lines stands between the top and bottom edges.
#[derive(Debug, Clone, Copy, PartialEq, Eq)]
pub enum VerticalAlignment {
    Top,
    Center,
    Bottom,
}

/// How the box's height follows from its text.
#[derive(Debug, Clone, Copy, PartialEq, Eq)]
pub enum HeightMode {
    /// The given height is kept.
    Exact,
    /// The height becomes that of the text.
    FitToText,
    /// The height becomes that of the text, but never more than given.
    ShrinkToText,
}

/// What layout needs of a font: how far each character advances the pen,
/// and the height of a line.
#[derive(Debug, Clone, PartialEq, Eq)]
pub struct FontMetrics {
    /// Advances of the characters listed; the first entry of a character counts.
    pub widths: Vec<(char, u32)>,
    /// Advance of a character that is not listed.
    pub default_width: u32,
    pub line_height: u32,
}

/// The advance `ws` lists first for `c`, or `d` when it lists none.
pub open spec fn width_in(ws: Seq<(char, u32)>, c: char, d: u32) -> u32
    decreases ws.len(),
{
    if ws.len() == 0 {
        d
    } else if ws[0].0 == c {
        ws[0].1
    } else {
        width_in(ws.drop_first(), c, d)
    }
}

/// How far `c` advances the pen in `font`.
pub open spec fn advance(font: FontMetrics, c: char) -> nat {
    width_in(font.widths@, c, font.default_width) as nat
}

impl FontMetrics {
    /// Looks up how far `c` advances the pen.
    pub fn advance(&self, c: char) -> (r: u32)
        ensures
            r == advance(*self, c),
    {
        let ghost ws = self.widths@;
        let n = self.widths.len();
        let mut i: usize = 0;
        assert(ws.subrange(0, n as int) =~= ws);
        while i < n
            invariant
                i <= n,
                n == ws.len(),
                ws == self.widths@,
                width_in(ws, c, self.default_width) == width_in(
                    ws.subrange(i as int, n as int),
                    c,
                    self.default_width,
                ),
            decreases n - i,
        {
            let (k, w) = self.widths[i];
            assert(ws.subrange(i as int, n as int).drop_first() =~= ws.subrange(i + 1, n as int));
            if k == c {
                return w;
            }
            i += 1;
        }
        self.default_width
    }
}

/// A box on the pixel grid: its top left corner and its size.
#[derive(Debug, Clone, Copy, PartialEq, Eq)]
pub struct Rect {
    pub x: i32,
    pub y: i32,
    pub width: u32,
    pub height: u32,
}

impl Rect {
    /// Whether the pixel `(x, y)` lies inside the box.
    pub fn contains(&self, x: i64, y: i64) -> (r: bool)
        ensures
            r == (self.x <= x < self.x + self.width && self.y <= y < self.y + self.height),
    {
        self.x as i64 <= x && x < self.x as i64 + self.width as i64 && self.y as i64 <= y && y
            < self.y as i64 + self.height as i64
    }
}

/// How a text box lays out its text.
#[derive(Debug, Clone, PartialEq, Eq)]
pub struct TextBoxStyle {
    pub font: FontMetrics,
    pub alignment: HorizontalAlignment,
    pub vertical_alignment: VerticalAlignment,
    pub height_mode: HeightMode,
}

/// The state a right-aligned renderer starts each line in.
#[derive(Debug, Clone, Copy, PartialEq, Eq)]
pub enum RightAlignedState {
    StartNewLine,
}

impl Default for RightAlignedState {
    fn default() -> (r: Self)
        ensures
            r == RightAlignedState::StartNewLine,
    {
        RightAlignedState::StartNewLine
    }
}

/// Right alignment as a value of its own.
#[derive(Debug, Clone, Copy, PartialEq, Eq)]
pub struct RightAligned;

impl RightAligned {
    /// The alignment this value stands for.
    pub fn alignment(&self) -> (r: HorizontalAlignment)
        ensures
            r == HorizontalAlignment::Right,
    {
        HorizontalAlignment::Right
    }
}

/// Left offset of a line `line_px` pixels wide in a box `width` pixels wide.
pub open spec fn line_offset(align: HorizontalAlignment, line_px: nat, width: nat) -> nat {
    if line_px > width {
        0
    } else {
        match align {
            HorizontalAlignment::Right => (width - line_px) as nat,
            HorizontalAlignment::Center => ((width - line_px) / 2) as nat,
            _ => 0,
        }
    }
}

/// Extra pixels for the `k`-th of `g` stretched gaps when `extra` pixels are
/// shared out: the remainder goes one each to the leftmost gaps.
pub open spec fn gap_extra(extra: nat, g: nat, k: nat) -> nat {
    if g == 0 {
        0
    } else {
        extra / g + if k < extra % g {
            1nat
        } else {
            0nat
        }
    }
}

/// Extra pixels of the first `n` gaps.
pub open spec fn extra_sum(extra: nat, g: nat, n: nat) -> nat
    decreases n,
{
    if n == 0 {
        0
    } else {
        extra_sum(extra, g, (n - 1) as nat) + gap_extra(extra, g, (n - 1) as nat)
    }
}

proof fn lemma_extra_sum_prefix(extra: nat, g: nat, n: nat)
    requires
        g > 0,
        n <= g,
    ensures
        extra_sum(extra, g, n) == n * (extra / g) + if n < extra % g {
            n
        } else {
            extra % g
        },
    decreases n,
{
    if n > 0 {
        lemma_extra_sum_prefix(extra, g, (n - 1) as nat);
        let q = extra / g;
        assert(n * q == (n - 1) * q + q) by (nonlinear_arith)
            requires
                n > 0,
        ;
        assert(extra_sum(extra, g, n) == extra_sum(extra, g, (n - 1) as nat) + gap_extra(
            extra,
            g,
            (n - 1) as nat,
        ));
    } else {
        let q = extra / g;
        assert(0 * q == 0) by (nonlinear_arith);
    }
}

/// The stretched gaps of a line together take exactly the pixels it lacks.
pub proof fn lemma_extra_sum_total(extra: nat, g: nat)
    requires
        g > 0,
    ensures
        extra_sum(extra, g, g) == extra,
{
    lemma_extra_sum_prefix(extra, g, g);
    assert(extra % g < g) by (nonlinear_arith)
        requires
            g > 0,
    ;
    assert(g * (extra / g) + extra % g == extra) by (nonlinear_arith)
        requires
            g > 0,
    ;
}

/// Top offset of a block `content` pixels high in a box `height` pixels high.
pub open spec fn block_offset(align: VerticalAlignment, content: nat, height: nat) -> nat {
    if content > height {
        0
    } else {
        match align {
            VerticalAlignment::Top => 0,
            VerticalAlignment::Center => ((height - content) / 2) as nat,
            VerticalAlignment::Bottom => (height - content) as nat,
        }
    }
}

/// Height of the box once the height mode has been applied to a text
/// `content` pixels high.
pub open spec fn box_height(mode: HeightMode, content: nat, height: nat) -> nat {
    match mode {
        HeightMode::Exact => height,
        HeightMode::FitToText => if content > u32::MAX {
            u32::MAX as nat
        } else {
            content
        },
        HeightMode::ShrinkToText => if content < height {
            content
        } else {
            height
        },
    }
}

/// Computes the left offset of a line.
pub fn horizontal_offset(align: HorizontalAlignment, line_px: u128, width: u32) -> (r: u128)
    ensures
        r == line_offset(align, line_px as nat, width as nat),
        r <= width,
{
    if line_px > width as u128 {
        0
    } else {
        match align {
            HorizontalAlignment::Right => width as u128 - line_px,
            HorizontalAlignment::Center => (width as u128 - line_px) / 2,
            _ => 0,
        }
    }
}

/// Computes the extra pixels of the `k`-th of `g` stretched gaps.
pub fn justified_gap_extra(extra: u128, g: u64, k: u64) -> (r: u128)
    requires
        extra <= u64::MAX,
    ensures
        r == gap_extra(extra as nat, g as nat, k as nat),
        r <= extra,
{
    if g == 0 {
        0
    } else {
        let base = extra / g as u128;
        let rem = extra % g as u128;
        assert(rem < g && base * g + rem == extra) by (nonlinear_arith)
            requires
                g > 0,
                base as int == extra as int / g as int,
                rem as int == extra as int % g as int,
        ;
        assert(base + 1 <= extra || rem == 0) by (nonlinear_arith)
            requires
                g > 0,
                rem < g,
                base * g + rem == extra,
        ;
        if (k as u128) < rem {
            base + 1
        } else {
            base
        }
    }
}

/// Computes the top offset of a block of text.
pub fn vertical_offset(align: VerticalAlignment, content: u128, height: u32) -> (r: u128)
    ensures
        r == block_offset(align, content as nat, height as nat),
        r <= height,
{
    if content > height as u128 {
        0
    } else {
        match align {
            VerticalAlignment::Top => 0,
            VerticalAlignment::Center => (height as u128 - content) / 2,
            VerticalAlignment::Bottom => height as u128 - content,
        }
    }
}

/// Computes the height of the box under a height mode.
pub fn apply_height_mode(mode: HeightMode, content: u128, height: u32) -> (r: u32)
    ensures
        r == box_height(mode, content as nat, height as nat),
{
    match mode {
        HeightMode::Exact => height,
        HeightMode::FitToText => if content > u32::MAX as u128 {
            u32::MAX
        } else {
            content as u32
        },
        HeightMode::ShrinkToText => if content < height as u128 {
            content as u32
        } else {
            height
        },
    }
}

} // verus!
