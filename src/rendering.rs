//! Placing every character of a text box on the pixel grid.
use vstd::prelude::*;
use crate::alignment::{
    advance, apply_height_mode, block_offset, box_height, extra_sum, gap_extra,
    horizontal_offset, justified_gap_extra, lemma_extra_sum_total, line_offset, vertical_offset,
    FontMetrics, HorizontalAlignment, Rect, TextBoxStyle,
};
use crate::layout::{
    count_lines, fill_line_from, lemma_count_lines_bound, lemma_line_progress,
    lemma_shared_line_fits, lemma_total_width_bound, line_at, line_count, spaces_width,
    token_views, total_cols, total_width, word_advance, word_width, Piece, PieceView,
};
use crate::parser::{lemma_tokens_fit, text_fits, tokens_of, Parser, TokenView};

verus! {

/// Something drawn at a place of the pixel grid: a character whose glyph has
/// its top left corner at `(x, y)`, or a stretch of whitespace `width` pixels
/// wide (drawn only with a background color).
#[derive(Debug, Clone, Copy, PartialEq, Eq)]
pub enum Placed {
    Char { c: char, x: i64, y: i64 },
    Space { x: i64, y: i64, width: u64 },
}

/// Number of gaps among `ps[k..]`.
pub open spec fn count_gaps(ps: Seq<PieceView>, k: int) -> nat
    decreases ps.len() - k,
{
    if k < 0 || k >= ps.len() {
        0
    } else {
        (if ps[k] is Gap {
            1nat
        } else {
            0nat
        }) + count_gaps(ps, k + 1)
    }
}

/// The characters of `w` from the `j`-th on, the first at `x` pixels from the
/// box's left edge `ox`, each after the advance of the one before, up to the
/// right edge.
pub open spec fn draw_word(
    font: FontMetrics,
    w: Seq<char>,
    j: int,
    x: nat,
    y: int,
    ox: int,
    width: nat,
) -> Seq<Placed>
    decreases w.len() - j,
{
    if j < 0 || j >= w.len() || x >= width {
        Seq::empty()
    } else {
        seq![Placed::Char { c: w[j], x: (ox + x) as i64, y: y as i64 }] + draw_word(
            font,
            w,
            j + 1,
            x + advance(font, w[j]),
            y,
            ox,
            width,
        )
    }
}

/// The pieces of a line from the `k`-th on, starting `x` pixels from the left
/// edge, `gi` stretched gaps already passed. A gap after a word is stretched
/// by its share of `extra` among `g` gaps; a leading gap is not.
pub open spec fn draw_pieces(
    font: FontMetrics,
    ps: Seq<PieceView>,
    k: int,
    x: nat,
    gi: nat,
    y: int,
    ox: int,
    width: nat,
    extra: nat,
    g: nat,
) -> Seq<Placed>
    decreases ps.len() - k,
{
    if k < 0 || k >= ps.len() || x >= width {
        Seq::empty()
    } else {
        match ps[k] {
            PieceView::Word(w) => draw_word(font, w, 0, x, y, ox, width) + draw_pieces(
                font,
                ps,
                k + 1,
                x + word_width(font, w),
                gi,
                y,
                ox,
                width,
                extra,
                g,
            ),
            PieceView::Gap(n) => {
                let px = spaces_width(font, n) + if k == 0 {
                    0
                } else {
                    gap_extra(extra, g, gi)
                };
                let shown = if px < width - x {
                    px
                } else {
                    (width - x) as nat
                };
                seq![Placed::Space { x: (ox + x) as i64, y: y as i64, width: shown as u64 }]
                    + draw_pieces(
                    font,
                    ps,
                    k + 1,
                    x + px,
                    if k == 0 {
                        gi
                    } else {
                        gi + 1
                    },
                    y,
                    ox,
                    width,
                    extra,
                    g,
                )
            },
        }
    }
}

/// Pixels a justified line lacks, or 0 where the line is not stretched: only
/// a line that wrapped, is not the last, and has a gap after a word is.
pub open spec fn stretch(ts: Seq<TokenView>, i: int, bounds: Rect, style: TextBoxStyle) -> nat {
    let l = line_at(ts, style.font, i, bounds.width as nat);
    if style.alignment is Justified && !l.hard && l.end < ts.len() && count_gaps(l.pieces, 1) > 0
        && l.width <= bounds.width {
        (bounds.width - l.width) as nat
    } else {
        0
    }
}

/// What the lines from token `i` on draw, the line at `y` pixels below the
/// top of the text block, which stands `voff` pixels below the box's top.
/// Lines that start below the box are not drawn.
pub open spec fn draw_lines(
    ts: Seq<TokenView>,
    i: int,
    y: nat,
    voff: nat,
    bounds: Rect,
    style: TextBoxStyle,
) -> Seq<Placed>
    decreases ts.len() - i,
{
    if i < 0 || i >= ts.len() || voff + y >= bounds.height {
        Seq::empty()
    } else {
        let l = line_at(ts, style.font, i, bounds.width as nat);
        let here = draw_pieces(
            style.font,
            l.pieces,
            0,
            line_offset(style.alignment, l.width, bounds.width as nat),
            0,
            bounds.y + voff + y,
            bounds.x as int,
            bounds.width as nat,
            stretch(ts, i, bounds, style),
            count_gaps(l.pieces, 1),
        );
        if i < l.end && l.end <= ts.len() {
            here + draw_lines(ts, l.end, y + style.font.line_height as nat, voff, bounds, style)
        } else {
            here
        }
    }
}

/// Height in pixels of the laid-out text.
pub open spec fn content_height(ts: Seq<TokenView>, bounds: Rect, style: TextBoxStyle) -> nat {
    count_lines(ts, style.font, 0, bounds.width as nat) * (style.font.line_height as nat)
}

/// Everything a text box draws, in order.
pub open spec fn draw_box(text: Seq<char>, bounds: Rect, style: TextBoxStyle) -> Seq<Placed> {
    let ts = tokens_of(text);
    draw_lines(
        ts,
        0,
        0,
        block_offset(style.vertical_alignment, content_height(ts, bounds, style), bounds.height as nat),
        bounds,
        style,
    )
}

/// Counts the gaps of a line that follow a word.
fn interior_gaps<'a>(ps: &Vec<Piece<'a>>) -> (r: u64)
    ensures
        r == count_gaps(ps@.map_values(|p: Piece<'a>| p@), 1),
{
    let ghost pv = ps@.map_values(|p: Piece<'a>| p@);
    let mut k: usize = ps.len();
    let mut n: u64 = 0;
    while k > 1
        invariant
            k <= ps.len(),
            ps.len() > 0 ==> k >= 1,
            pv == ps@.map_values(|p: Piece<'a>| p@),
            n == count_gaps(pv, k as int),
            n <= ps.len() - k,
        decreases k,
    {
        k -= 1;
        assert(pv[k as int] == ps@[k as int]@);
        match &ps[k] {
            Piece::Gap(_) => {
                n += 1;
            },
            Piece::Word(_) => {},
        }
    }
    if ps.len() == 0 {
        return 0;
    }
    n
}

fn push_word(
    font: &FontMetrics,
    w: &str,
    x: u128,
    y: i64,
    ox: i64,
    width: u32,
    out: &mut Vec<Placed>,
)
    requires
        ox >= i32::MIN,
        ox <= i32::MAX,
    ensures
        final(out)@ == old(out)@ + draw_word(
            *font,
            w@,
            0,
            x as nat,
            y as int,
            ox as int,
            width as nat,
        ),
{
    let ghost start = out@;
    let n = w.unicode_len();
    let mut j: usize = 0;
    let mut xj: u128 = x;
    while j < n && xj < width as u128
        invariant
            j <= n,
            n == w@.len(),
            ox >= i32::MIN,
            ox <= i32::MAX,
            j == 0 ==> xj == x,
            j > 0 ==> xj <= width as u128 + 0xFFFF_FFFFu128,
            start + draw_word(*font, w@, 0, x as nat, y as int, ox as int, width as nat)
                == out@ + draw_word(*font, w@, j as int, xj as nat, y as int, ox as int, width as nat),
        decreases n - j,
    {
        let c = w.get_char(j);
        let a = font.advance(c);
        let p = Placed::Char { c, x: ox + xj as i64, y };
        let ghost rest = draw_word(
            *font,
            w@,
            j + 1,
            (xj + a) as nat,
            y as int,
            ox as int,
            width as nat,
        );
        assert(draw_word(*font, w@, j as int, xj as nat, y as int, ox as int, width as nat) == seq![p]
            + rest);
        assert(out@ + (seq![p] + rest) =~= out@.push(p) + rest);
        out.push(p);
        xj = xj + a as u128;
        j += 1;
    }
}

fn push_pieces<'a>(
    font: &FontMetrics,
    ps: &Vec<Piece<'a>>,
    x0: u128,
    y: i64,
    ox: i64,
    width: u32,
    extra: u128,
    g: u64,
    out: &mut Vec<Placed>,
)
    requires
        ox >= i32::MIN,
        ox <= i32::MAX,
        x0 <= u32::MAX,
        extra <= u32::MAX,
    ensures
        final(out)@ == old(out)@ + draw_pieces(
            *font,
            ps@.map_values(|p: Piece<'a>| p@),
            0,
            x0 as nat,
            0,
            y as int,
            ox as int,
            width as nat,
            extra as nat,
            g as nat,
        ),
{
    let ghost pv = ps@.map_values(|p: Piece<'a>| p@);
    let ghost f = *font;
    let ghost start = out@;
    let space = font.advance(' ');
    let mut k: usize = 0;
    let mut x: u128 = x0;
    let mut gi: usize = 0;
    while k < ps.len() && x < width as u128
        invariant
            k <= ps.len(),
            gi <= k,
            pv == ps@.map_values(|p: Piece<'a>| p@),
            f == *font,
            space == advance(f, ' '),
            ox >= i32::MIN,
            ox <= i32::MAX,
            extra <= u32::MAX,
            x <= 0x1_0000_0000_0000_0000_0000_0000_0000u128,
            start + draw_pieces(
                f,
                pv,
                0,
                x0 as nat,
                0,
                y as int,
                ox as int,
                width as nat,
                extra as nat,
                g as nat,
            ) == out@ + draw_pieces(
                f,
                pv,
                k as int,
                x as nat,
                gi as nat,
                y as int,
                ox as int,
                width as nat,
                extra as nat,
                g as nat,
            ),
        decreases ps.len() - k,
    {
        assert(pv[k as int] == ps@[k as int]@);
        let ghost before = out@;
        match &ps[k] {
            Piece::Word(w) => {
                push_word(font, w, x, y, ox, width, out);
                let ww = word_advance(font, w);
                let ghost rest = draw_pieces(
                    f,
                    pv,
                    k + 1,
                    (x + ww) as nat,
                    gi as nat,
                    y as int,
                    ox as int,
                    width as nat,
                    extra as nat,
                    g as nat,
                );
                assert(before + (draw_word(f, w@, 0, x as nat, y as int, ox as int, width as nat)
                    + rest) =~= out@ + rest);
                x = x + ww;
            },
            Piece::Gap(n) => {
                assert((*n as u128) * (space as u128) <= 0xFFFF_FFFF_FFFF_FFFF * 0xFFFF_FFFFu128)
                    by (nonlinear_arith)
                    requires
                        *n <= 0xFFFF_FFFF_FFFF_FFFFu64,
                        space <= 0xFFFF_FFFFu32,
                ;
                let add = if k == 0 {
                    0
                } else {
                    justified_gap_extra(extra, g, gi as u64)
                };
                let px = *n as u128 * space as u128 + add;
                let room = width as u128 - x;
                let shown = if px < room {
                    px
                } else {
                    room
                };
                let p = Placed::Space { x: ox + x as i64, y, width: shown as u64 };
                let ghost rest = draw_pieces(
                    f,
                    pv,
                    k + 1,
                    (x + px) as nat,
                    if k == 0 {
                        gi as nat
                    } else {
                        gi as nat + 1
                    },
                    y as int,
                    ox as int,
                    width as nat,
                    extra as nat,
                    g as nat,
                );
                assert(out@ + (seq![p] + rest) =~= out@.push(p) + rest);
                out.push(p);
                x = x + px;
                if k != 0 {
                    gi += 1;
                }
            },
        }
        k += 1;
    }
}

/// Pixel iterator for styled text: hands out what the box draws, one at a time.
#[derive(Debug, Clone)]
pub struct StyledTextBoxIterator {
    items: Vec<Placed>,
    index: usize,
}

impl View for StyledTextBoxIterator {
    type V = Seq<Placed>;

    /// What is left to hand out.
    closed spec fn view(&self) -> Seq<Placed> {
        if self.index <= self.items.len() {
            self.items@.subrange(self.index as int, self.items.len() as int)
        } else {
            Seq::empty()
        }
    }
}

impl StyledTextBoxIterator {
    /// Creates the iterator over everything `styled` draws.
    pub fn new(styled: &StyledTextBox) -> (r: Self)
        requires
            text_fits(styled.text@),
        ensures
            r@ == draw_box(styled.text@, styled.bounds, styled.style),
    {
        let items = styled.draw();
        let r = StyledTextBoxIterator { items, index: 0 };
        assert(r.items@.subrange(0, r.items.len() as int) =~= r.items@);
        r
    }

    /// Hands out the next thing drawn, if any is left.
    pub fn next(&mut self) -> (r: Option<Placed>)
        ensures
            old(self)@.len() > 0 ==> r == Some(old(self)@[0]) && final(self)@ == old(self)@.drop_first(),
            old(self)@.len() == 0 ==> r is None && final(self)@ == old(self)@,
    {
        if self.index < self.items.len() {
            let p = self.items[self.index];
            self.index = self.index + 1;
            assert(self@ =~= old(self)@.drop_first());
            Some(p)
        } else {
            None
        }
    }
}

/// Laying out the same text in the same box with the same style twice draws
/// the same things in the same order.
pub proof fn lemma_layout_repeatable(
    text1: Seq<char>,
    text2: Seq<char>,
    bounds1: Rect,
    bounds2: Rect,
    style1: TextBoxStyle,
    style2: TextBoxStyle,
)
    requires
        text1 == text2,
        bounds1 == bounds2,
        style1 == style2,
    ensures
        draw_box(text1, bounds1, style1) == draw_box(text2, bounds2, style2),
{
}

/// Under `FitToText` the box becomes exactly as high as its lines, whatever
/// height it was given (where that height fits the pixel grid's range).
pub proof fn lemma_fit_to_text_height(text: Seq<char>, bounds: Rect, other: Rect, style: TextBoxStyle)
    requires
        style.height_mode is FitToText,
        other.width == bounds.width,
        content_height(tokens_of(text), bounds, style) <= u32::MAX,
    ensures
        box_height(
            style.height_mode,
            content_height(tokens_of(text), bounds, style),
            bounds.height as nat,
        ) == count_lines(tokens_of(text), style.font, 0, bounds.width as nat)
            * style.font.line_height,
        box_height(
            style.height_mode,
            content_height(tokens_of(text), other, style),
            other.height as nat,
        ) == box_height(
            style.height_mode,
            content_height(tokens_of(text), bounds, style),
            bounds.height as nat,
        ),
{
}

/// A justified line of two words or more that wrapped and is not the last
/// one, and that has a gap after a word, fills the box's width exactly: its
/// words and whitespace at their natural widths plus the extra pixels shared
/// out among its gaps make up the width.
pub proof fn lemma_justified_line_fills_width(
    ts: Seq<TokenView>,
    i: int,
    bounds: Rect,
    style: TextBoxStyle,
)
    requires
        0 <= i < ts.len(),
        style.alignment is Justified,
        line_at(ts, style.font, i, bounds.width as nat).words >= 2,
        !line_at(ts, style.font, i, bounds.width as nat).hard,
        line_at(ts, style.font, i, bounds.width as nat).end < ts.len(),
        count_gaps(line_at(ts, style.font, i, bounds.width as nat).pieces, 1) > 0,
    ensures
        ({
            let l = line_at(ts, style.font, i, bounds.width as nat);
            let g = count_gaps(l.pieces, 1);
            &&& l.width <= bounds.width
            &&& l.width + extra_sum(stretch(ts, i, bounds, style), g, g) == bounds.width
        }),
{
    let l = line_at(ts, style.font, i, bounds.width as nat);
    lemma_shared_line_fits(ts, style.font, i, bounds.width as nat);
    lemma_extra_sum_total(stretch(ts, i, bounds, style), count_gaps(l.pieces, 1));
}

/// A text laid out in a box with a style; the box's height already follows
/// the style's height mode.
#[derive(Debug, Clone)]
pub struct StyledTextBox<'a> {
    pub text: &'a str,
    pub bounds: Rect,
    pub style: TextBoxStyle,
}

proof fn lemma_text_width_fits(text: Seq<char>, font: FontMetrics)
    requires
        text_fits(text),
    ensures
        total_width(font, tokens_of(text)) <= u64::MAX,
        total_cols(tokens_of(text)) <= u32::MAX,
        tokens_of(text).len() <= u32::MAX,
{
    lemma_tokens_fit(text);
    lemma_total_width_bound(font, tokens_of(text));
    let c = total_cols(tokens_of(text));
    assert(c * 0xFFFF_FFFF <= 0xFFFF_FFFF * 0xFFFF_FFFF) by (nonlinear_arith)
        requires
            c <= 0xFFFF_FFFF,
    ;
}

impl<'a> StyledTextBox<'a> {
    /// Lays `text` out in `bounds`; the height of the box becomes what the
    /// height mode makes of the text's height.
    pub fn new(text: &'a str, bounds: Rect, style: TextBoxStyle) -> (r: Self)
        requires
            text_fits(text@),
        ensures
            r.text == text,
            r.style == style,
            r.bounds.x == bounds.x,
            r.bounds.y == bounds.y,
            r.bounds.width == bounds.width,
            r.bounds.height == box_height(
                style.height_mode,
                content_height(tokens_of(text@), bounds, style),
                bounds.height as nat,
            ),
    {
        let ts = Parser::parse(text).tokens();
        proof {
            lemma_text_width_fits(text@, style.font);
            lemma_count_lines_bound(tokens_of(text@), style.font, 0, bounds.width as nat);
        }
        let lines = line_count(&ts, &style.font, bounds.width as u64);
        assert(lines as u128 * style.font.line_height as u128 <= 0xFFFF_FFFF_FFFF_FFFF
            * 0xFFFF_FFFFu128) by (nonlinear_arith)
            requires
                lines <= 0xFFFF_FFFF_FFFF_FFFFu64,
                style.font.line_height <= 0xFFFF_FFFFu32,
        ;
        let content = lines as u128 * style.font.line_height as u128;
        let height = apply_height_mode(style.height_mode, content, bounds.height);
        StyledTextBox { text, bounds: Rect { height, ..bounds }, style }
    }

    /// Everything the box draws, line by line and left to right.
    pub fn draw(&self) -> (r: Vec<Placed>)
        requires
            text_fits(self.text@),
        ensures
            r@ == draw_box(self.text@, self.bounds, self.style),
    {
        let ts = Parser::parse(self.text).tokens();
        let ghost tsv = token_views(ts@);
        let bounds = self.bounds;
        let style = &self.style;
        let font = &style.font;
        proof {
            lemma_text_width_fits(self.text@, style.font);
            lemma_count_lines_bound(tsv, style.font, 0, bounds.width as nat);
        }
        let max = bounds.width as u64;
        let lines = line_count(&ts, font, max);
        assert(lines as u128 * style.font.line_height as u128 <= 0xFFFF_FFFF_FFFF_FFFF
            * 0xFFFF_FFFFu128) by (nonlinear_arith)
            requires
                lines <= 0xFFFF_FFFF_FFFF_FFFFu64,
                style.font.line_height <= 0xFFFF_FFFFu32,
        ;
        let content = lines as u128 * style.font.line_height as u128;
        let voff = vertical_offset(style.vertical_alignment, content, bounds.height);
        let mut out: Vec<Placed> = Vec::new();
        let mut i: usize = 0;
        let mut y: u128 = 0;
        while i < ts.len() && voff + y < bounds.height as u128
            invariant
                i <= ts.len(),
                tsv == token_views(ts@),
                tsv == tokens_of(self.text@),
                tsv.len() == ts.len(),
                total_width(style.font, tsv) <= u64::MAX,
                total_cols(tsv) <= u32::MAX,
                bounds == self.bounds,
                *style == self.style,
                *font == style.font,
                max == bounds.width,
                voff <= bounds.height,
                voff == block_offset(
                    style.vertical_alignment,
                    content_height(tsv, bounds, *style),
                    bounds.height as nat,
                ),
                y <= 0x2_0000_0000u128,
                draw_box(self.text@, bounds, *style) == out@ + draw_lines(
                    tsv,
                    i as int,
                    y as nat,
                    voff as nat,
                    bounds,
                    *style,
                ),
            decreases ts.len() - i,
        {
            proof {
                lemma_line_progress(tsv, style.font, i as int, max as nat);
            }
            let line = fill_line_from(&ts, font, i, max);
            let px = line.width as u128;
            let g = interior_gaps(&line.pieces);
            let justified = match style.alignment {
                HorizontalAlignment::Justified => true,
                _ => false,
            };
            let extra: u128 = if justified && !line.hard && line.end < ts.len() && g > 0 && px
                <= bounds.width as u128 {
                bounds.width as u128 - px
            } else {
                0
            };
            let off = horizontal_offset(style.alignment, px, bounds.width);
            let ly = bounds.y as i64 + (voff + y) as i64;
            let ghost before = out@;
            push_pieces(font, &line.pieces, off, ly, bounds.x as i64, bounds.width, extra, g, &mut out);
            let ghost here = draw_pieces(
                style.font,
                line@.pieces,
                0,
                off as nat,
                0,
                ly as int,
                bounds.x as int,
                bounds.width as nat,
                extra as nat,
                g as nat,
            );
            assert(before + (here + draw_lines(
                tsv,
                line.end as int,
                (y + style.font.line_height) as nat,
                voff as nat,
                bounds,
                *style,
            )) =~= out@ + draw_lines(
                tsv,
                line.end as int,
                (y + style.font.line_height) as nat,
                voff as nat,
                bounds,
                *style,
            ));
            i = line.end;
            y = y + style.font.line_height as u128;
        }
        out
    }
}

} // verus!
