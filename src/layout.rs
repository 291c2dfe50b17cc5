//! Breaking a token stream into lines of a given width, measured in pixels
//! with each character's own advance.
use vstd::prelude::*;
use crate::alignment::{advance, FontMetrics};
use crate::parser::{Token, TokenView};

verus! {

/// A part of a laid-out line.
pub enum PieceView {
    Word(Seq<char>),
    Gap(nat),
}

/// A part of a laid-out line: a word, or the whitespace before a word.
#[derive(Debug, PartialEq, Eq, Clone)]
pub enum Piece<'a> {
    /// A word, drawn character by character.
    Word(&'a str),
    /// A whitespace run of this many spaces, followed by a word.
    Gap(u64),
}

impl<'a> View for Piece<'a> {
    type V = PieceView;

    open spec fn view(&self) -> PieceView {
        match self {
            Piece::Word(w) => PieceView::Word(w@),
            Piece::Gap(n) => PieceView::Gap(*n as nat),
        }
    }
}

/// What one line holds and where the next one starts.
pub struct LineView {
    pub pieces: Seq<PieceView>,
    pub end: int,
    pub hard: bool,
    pub words: nat,
    pub width: nat,
}

/// One laid-out line.
#[derive(Debug, Clone)]
pub struct Line<'a> {
    /// Words and the whitespace between them, trailing whitespace dropped.
    pub pieces: Vec<Piece<'a>>,
    /// Index of the first token of the next line.
    pub end: usize,
    /// Whether the line ended at a newline token.
    pub hard: bool,
    /// Number of words on the line.
    pub words: u64,
    /// Width of the line in pixels.
    pub width: u64,
}

impl<'a> View for Line<'a> {
    type V = LineView;

    open spec fn view(&self) -> LineView {
        LineView {
            pieces: self.pieces@.map_values(|p: Piece<'a>| p@),
            end: self.end as int,
            hard: self.hard,
            words: self.words as nat,
            width: self.width as nat,
        }
    }
}

/// What each token of `ts` stands for.
pub open spec fn token_views<'a>(ts: Seq<Token<'a>>) -> Seq<TokenView> {
    ts.map_values(|t: Token<'a>| t@)
}

/// Characters a token stands for when laid out.
pub open spec fn token_cols(t: TokenView) -> nat {
    match t {
        TokenView::Word(w) => w.len(),
        TokenView::Whitespace(n) => n as nat,
        _ => 0,
    }
}

/// Characters all the tokens stand for together.
pub open spec fn total_cols(ts: Seq<TokenView>) -> nat
    decreases ts.len(),
{
    if ts.len() == 0 {
        0
    } else {
        token_cols(ts[0]) + total_cols(ts.drop_first())
    }
}

/// Pixel width of a word: the sum of its characters' advances.
pub open spec fn word_width(font: FontMetrics, w: Seq<char>) -> nat
    decreases w.len(),
{
    if w.len() == 0 {
        0
    } else {
        word_width(font, w.drop_last()) + advance(font, w.last())
    }
}

/// Pixel width of `n` spaces.
pub open spec fn spaces_width(font: FontMetrics, n: nat) -> nat {
    n * advance(font, ' ')
}

/// Pixel width of a token.
pub open spec fn token_width(font: FontMetrics, t: TokenView) -> nat {
    match t {
        TokenView::Word(w) => word_width(font, w),
        TokenView::Whitespace(n) => spaces_width(font, n as nat),
        _ => 0,
    }
}

/// Pixel width of all the tokens together.
pub open spec fn total_width(font: FontMetrics, ts: Seq<TokenView>) -> nat
    decreases ts.len(),
{
    if ts.len() == 0 {
        0
    } else {
        token_width(font, ts[0]) + total_width(font, ts.drop_first())
    }
}

proof fn lemma_word_width_bound(font: FontMetrics, w: Seq<char>)
    ensures
        word_width(font, w) <= w.len() * 0xFFFF_FFFF,
    decreases w.len(),
{
    if w.len() > 0 {
        lemma_word_width_bound(font, w.drop_last());
    }
}

/// No token is wider than its characters at the largest advance a `u32` holds.
pub proof fn lemma_total_width_bound(font: FontMetrics, ts: Seq<TokenView>)
    ensures
        total_width(font, ts) <= total_cols(ts) * 0xFFFF_FFFF,
    decreases ts.len(),
{
    if ts.len() > 0 {
        lemma_total_width_bound(font, ts.drop_first());
        match ts[0] {
            TokenView::Word(w) => lemma_word_width_bound(font, w),
            TokenView::Whitespace(n) => {
                let a = advance(font, ' ');
                let m = n as nat;
                assert(m * a <= m * 0xFFFF_FFFF) by (nonlinear_arith)
                    requires
                        a <= 0xFFFF_FFFF,
                ;
            },
            _ => {},
        }
    }
}

/// `pieces` with a word appended, after the pending whitespace if any.
pub open spec fn with_word(pieces: Seq<PieceView>, pending: nat, w: Seq<char>) -> Seq<PieceView> {
    if pending > 0 {
        pieces.push(PieceView::Gap(pending)).push(PieceView::Word(w))
    } else {
        pieces.push(PieceView::Word(w))
    }
}

/// Fills a line from token `i` on, at most `max` pixels wide, given what the
/// line already holds (`pending` spaces wait for a word). A word joins the
/// line when it is the first one or when it fits together with the
/// whitespace before it; otherwise the line wraps and the word starts the
/// next line. Whitespace that no word follows on the line is dropped;
/// carriage returns take no room; a newline ends the line.
pub open spec fn fill_line(
    ts: Seq<TokenView>,
    font: FontMetrics,
    i: int,
    max: nat,
    pieces: Seq<PieceView>,
    words: nat,
    pending: nat,
    width: nat,
) -> LineView
    decreases ts.len() - i,
{
    if i < 0 || i >= ts.len() {
        LineView { pieces, end: i, hard: false, words, width }
    } else {
        match ts[i] {
            TokenView::NewLine => LineView { pieces, end: i + 1, hard: true, words, width },
            TokenView::CarriageReturn => fill_line(
                ts,
                font,
                i + 1,
                max,
                pieces,
                words,
                pending,
                width,
            ),
            TokenView::Whitespace(n) => fill_line(
                ts,
                font,
                i + 1,
                max,
                pieces,
                words,
                pending + n as nat,
                width,
            ),
            TokenView::Word(w) => {
                let grown = width + spaces_width(font, pending) + word_width(font, w);
                if words == 0 || grown <= max {
                    fill_line(
                        ts,
                        font,
                        i + 1,
                        max,
                        with_word(pieces, pending, w),
                        words + 1,
                        0,
                        grown,
                    )
                } else {
                    LineView { pieces, end: i, hard: false, words, width }
                }
            },
        }
    }
}

/// The line that starts at token `i`.
pub open spec fn line_at(ts: Seq<TokenView>, font: FontMetrics, i: int, max: nat) -> LineView {
    fill_line(ts, font, i, max, Seq::empty(), 0, 0, 0)
}

/// Number of lines from token `i` to the end.
pub open spec fn count_lines(ts: Seq<TokenView>, font: FontMetrics, i: int, max: nat) -> nat
    decreases ts.len() - i,
{
    if i < 0 || i >= ts.len() {
        0
    } else {
        let e = line_at(ts, font, i, max).end;
        if i < e && e <= ts.len() {
            1 + count_lines(ts, font, e, max)
        } else {
            1
        }
    }
}

proof fn lemma_fill_line_end(
    ts: Seq<TokenView>,
    font: FontMetrics,
    i: int,
    max: nat,
    pieces: Seq<PieceView>,
    words: nat,
    pending: nat,
    width: nat,
)
    requires
        0 <= i <= ts.len(),
    ensures
        i <= fill_line(ts, font, i, max, pieces, words, pending, width).end <= ts.len(),
        words == 0 && i < ts.len() ==> i < fill_line(
            ts,
            font,
            i,
            max,
            pieces,
            words,
            pending,
            width,
        ).end,
        words >= 2 ==> width <= max ==> fill_line(ts, font, i, max, pieces, words, pending, width).width
            <= max,
        fill_line(ts, font, i, max, pieces, words, pending, width).words >= 2 && (words >= 2 ==> width
            <= max) ==> fill_line(ts, font, i, max, pieces, words, pending, width).width <= max,
    decreases ts.len() - i,
{
    if i < ts.len() {
        match ts[i] {
            TokenView::NewLine => {},
            TokenView::CarriageReturn => lemma_fill_line_end(
                ts,
                font,
                i + 1,
                max,
                pieces,
                words,
                pending,
                width,
            ),
            TokenView::Whitespace(n) => lemma_fill_line_end(
                ts,
                font,
                i + 1,
                max,
                pieces,
                words,
                pending + n as nat,
                width,
            ),
            TokenView::Word(w) => {
                let grown = width + spaces_width(font, pending) + word_width(font, w);
                if words == 0 || grown <= max {
                    lemma_fill_line_end(
                        ts,
                        font,
                        i + 1,
                        max,
                        with_word(pieces, pending, w),
                        words + 1,
                        0,
                        grown,
                    );
                }
            },
        }
    }
}

/// Every line takes at least one token, so laying out always ends.
pub proof fn lemma_line_progress(ts: Seq<TokenView>, font: FontMetrics, i: int, max: nat)
    requires
        0 <= i < ts.len(),
    ensures
        i < line_at(ts, font, i, max).end <= ts.len(),
{
    lemma_fill_line_end(ts, font, i, max, Seq::empty(), 0, 0, 0);
}

/// A line of two words or more is never wider than the line allows: only a
/// lone word may overflow.
pub proof fn lemma_shared_line_fits(ts: Seq<TokenView>, font: FontMetrics, i: int, max: nat)
    requires
        0 <= i <= ts.len(),
        line_at(ts, font, i, max).words >= 2,
    ensures
        line_at(ts, font, i, max).width <= max,
{
    lemma_fill_line_end(ts, font, i, max, Seq::empty(), 0, 0, 0);
}

/// There are no more lines than tokens.
pub proof fn lemma_count_lines_bound(ts: Seq<TokenView>, font: FontMetrics, i: int, max: nat)
    requires
        0 <= i <= ts.len(),
    ensures
        count_lines(ts, font, i, max) <= ts.len() - i,
    decreases ts.len() - i,
{
    if i < ts.len() {
        lemma_line_progress(ts, font, i, max);
        lemma_count_lines_bound(ts, font, line_at(ts, font, i, max).end, max);
    }
}

proof fn lemma_suffix_width(font: FontMetrics, ts: Seq<TokenView>, i: int)
    requires
        0 <= i <= ts.len(),
    ensures
        total_width(font, ts.subrange(i, ts.len() as int)) <= total_width(font, ts),
    decreases i,
{
    if i == 0 {
        assert(ts.subrange(0, ts.len() as int) =~= ts);
    } else {
        lemma_suffix_width(font, ts, i - 1);
        assert(ts.subrange(i - 1, ts.len() as int).drop_first() =~= ts.subrange(i, ts.len() as int));
    }
}

proof fn lemma_suffix_cols(ts: Seq<TokenView>, i: int)
    requires
        0 <= i <= ts.len(),
    ensures
        total_cols(ts.subrange(i, ts.len() as int)) <= total_cols(ts),
    decreases i,
{
    if i == 0 {
        assert(ts.subrange(0, ts.len() as int) =~= ts);
    } else {
        lemma_suffix_cols(ts, i - 1);
        assert(ts.subrange(i - 1, ts.len() as int).drop_first() =~= ts.subrange(i, ts.len() as int));
    }
}

/// Every word of `ts` has at least one character.
pub open spec fn words_nonempty(ts: Seq<TokenView>) -> bool {
    forall|j: int| 0 <= j < ts.len() ==> (#[trigger] ts[j] matches TokenView::Word(w) ==> w.len() > 0)
}

/// Every character of every word of `ts` advances the pen by more than `max`.
pub open spec fn chars_wider_than(ts: Seq<TokenView>, font: FontMetrics, max: nat) -> bool {
    forall|j: int, k: int|
        0 <= j < ts.len() && ts[j] is Word && 0 <= k < ts[j]->Word_0.len() ==> #[trigger] advance(
            font,
            ts[j]->Word_0[k],
        ) > max
}

proof fn lemma_full_line_stays(
    ts: Seq<TokenView>,
    font: FontMetrics,
    i: int,
    max: nat,
    pieces: Seq<PieceView>,
    words: nat,
    pending: nat,
    width: nat,
)
    requires
        0 <= i <= ts.len(),
        words >= 1,
        width > max,
    ensures
        fill_line(ts, font, i, max, pieces, words, pending, width).words == words,
    decreases ts.len() - i,
{
    if i < ts.len() {
        match ts[i] {
            TokenView::CarriageReturn => lemma_full_line_stays(
                ts,
                font,
                i + 1,
                max,
                pieces,
                words,
                pending,
                width,
            ),
            TokenView::Whitespace(n) => lemma_full_line_stays(
                ts,
                font,
                i + 1,
                max,
                pieces,
                words,
                pending + n as nat,
                width,
            ),
            _ => {},
        }
    }
}

proof fn lemma_narrow_line(
    ts: Seq<TokenView>,
    font: FontMetrics,
    i: int,
    max: nat,
    pieces: Seq<PieceView>,
    pending: nat,
)
    requires
        0 <= i <= ts.len(),
        words_nonempty(ts),
        chars_wider_than(ts, font, max),
    ensures
        fill_line(ts, font, i, max, pieces, 0, pending, 0).words <= 1,
        ts.len() > i && ts[i] is Word ==> fill_line(ts, font, i, max, pieces, 0, pending, 0).words == 1,
    decreases ts.len() - i,
{
    if i < ts.len() {
        match ts[i] {
            TokenView::CarriageReturn => lemma_narrow_line(ts, font, i + 1, max, pieces, pending),
            TokenView::Whitespace(n) => lemma_narrow_line(
                ts,
                font,
                i + 1,
                max,
                pieces,
                pending + n as nat,
            ),
            TokenView::Word(w) => {
                assert(ts[i] matches TokenView::Word(w) ==> w.len() > 0);
                assert(advance(font, ts[i]->Word_0[w.len() - 1]) > max);
                assert(word_width(font, w) >= advance(font, w.last()));
                lemma_full_line_stays(
                    ts,
                    font,
                    i + 1,
                    max,
                    with_word(pieces, pending, w),
                    1,
                    0,
                    spaces_width(font, pending) + word_width(font, w),
                );
            },
            _ => {},
        }
    }
}

/// In a box narrower than every character, layout still goes on: every line
/// takes at least one token and holds at most one word, and a line that
/// starts with a word holds that word.
pub proof fn lemma_narrow_box_one_word_per_line(
    ts: Seq<TokenView>,
    font: FontMetrics,
    i: int,
    max: nat,
)
    requires
        0 <= i < ts.len(),
        words_nonempty(ts),
        chars_wider_than(ts, font, max),
    ensures
        i < line_at(ts, font, i, max).end <= ts.len(),
        line_at(ts, font, i, max).words <= 1,
        ts[i] is Word ==> line_at(ts, font, i, max).words == 1,
{
    lemma_line_progress(ts, font, i, max);
    lemma_narrow_line(ts, font, i, max, Seq::empty(), 0);
}

/// Pixel width of a word, the sum of its characters' advances.
pub fn word_advance(font: &FontMetrics, w: &str) -> (r: u128)
    ensures
        r == word_width(*font, w@),
        r <= 0xFFFF_FFFF_FFFF_FFFF * 0xFFFF_FFFFu128,
{
    let n = w.unicode_len();
    let mut j: usize = 0;
    let mut sum: u128 = 0;
    assert(w@.subrange(0, 0) =~= Seq::<char>::empty());
    while j < n
        invariant
            j <= n,
            n == w@.len(),
            sum == word_width(*font, w@.subrange(0, j as int)),
            sum <= j * 0xFFFF_FFFFu128,
        decreases n - j,
    {
        let a = font.advance(w.get_char(j));
        assert(w@.subrange(0, j + 1).drop_last() =~= w@.subrange(0, j as int));
        sum = sum + a as u128;
        j += 1;
    }
    assert(w@.subrange(0, n as int) =~= w@);
    assert(n as int <= 0xFFFF_FFFF_FFFF_FFFF);
    sum
}

/// Counts the lines that the tokens take at most `max` pixels wide.
pub fn line_count<'a>(ts: &Vec<Token<'a>>, font: &FontMetrics, max: u64) -> (r: u64)
    requires
        total_cols(token_views(ts@)) <= u32::MAX,
        total_width(*font, token_views(ts@)) <= u64::MAX,
        ts.len() <= u32::MAX,
    ensures
        r == count_lines(token_views(ts@), *font, 0, max as nat),
{
    let ghost tsv = token_views(ts@);
    let mut i: usize = 0;
    let mut n: u64 = 0;
    while i < ts.len()
        invariant
            i <= ts.len(),
            ts.len() <= u32::MAX,
            tsv == token_views(ts@),
            tsv.len() == ts.len(),
            total_width(*font, tsv) <= u64::MAX,
            total_cols(tsv) <= u32::MAX,
            n <= i,
            n + count_lines(tsv, *font, i as int, max as nat) == count_lines(
                tsv,
                *font,
                0,
                max as nat,
            ),
        decreases ts.len() - i,
    {
        proof {
            lemma_line_progress(tsv, *font, i as int, max as nat);
        }
        let line = fill_line_from(ts, font, i, max);
        i = line.end;
        n = n + 1;
    }
    n
}

/// Lays out the line that starts at token `start`, at most `max` pixels wide
/// (a first word wider than that stands alone on its line).
pub fn fill_line_from<'a>(ts: &Vec<Token<'a>>, font: &FontMetrics, start: usize, max: u64) -> (r:
    Line<'a>)
    requires
        total_cols(token_views(ts@)) <= u32::MAX,
        start <= ts.len(),
        total_width(*font, token_views(ts@)) <= u64::MAX,
    ensures
        r@ == line_at(token_views(ts@), *font, start as int, max as nat),
{
    let ghost tsv = token_views(ts@);
    let ghost f = *font;
    let space = font.advance(' ');
    let mut i: usize = start;
    let mut pieces: Vec<Piece<'a>> = Vec::new();
    let mut words: u64 = 0;
    let mut pending: u64 = 0;
    let mut width: u128 = 0;
    proof {
        lemma_suffix_width(f, tsv, start as int);
        lemma_suffix_cols(tsv, start as int);
        assert(pieces@.map_values(|p: Piece<'a>| p@) =~= Seq::<PieceView>::empty());
    }
    loop
        invariant
            start <= i <= ts.len(),
            tsv == token_views(ts@),
            tsv.len() == ts.len(),
            f == *font,
            space == advance(f, ' '),
            total_width(f, tsv) <= u64::MAX,
            total_cols(tsv) <= u32::MAX,
            pending + total_cols(tsv.subrange(i as int, tsv.len() as int)) <= total_cols(tsv),
            words <= i - start,
            width + spaces_width(f, pending as nat) + total_width(
                f,
                tsv.subrange(i as int, tsv.len() as int),
            ) <= total_width(f, tsv),
            fill_line(
                tsv,
                f,
                i as int,
                max as nat,
                pieces@.map_values(|p: Piece<'a>| p@),
                words as nat,
                pending as nat,
                width as nat,
            ) == line_at(tsv, f, start as int, max as nat),
        decreases ts.len() - i,
    {
        if i >= ts.len() {
            return Line { pieces, end: i, hard: false, words, width: width as u64 };
        }
        let ghost pv = pieces@.map_values(|p: Piece<'a>| p@);
        assert(tsv[i as int] == ts@[i as int]@);
        assert(tsv.subrange(i as int, tsv.len() as int).drop_first() =~= tsv.subrange(
            i + 1,
            tsv.len() as int,
        ));
        assert(pending as u128 * space as u128 == spaces_width(f, pending as nat));
        match &ts[i] {
            Token::NewLine => {
                return Line { pieces, end: i + 1, hard: true, words, width: width as u64 };
            },
            Token::CarriageReturn => {},
            Token::Whitespace(n) => {
                let ghost m = *n as nat;
                let ghost p = pending as nat;
                let ghost a = space as nat;
                assert((p + m) * a == p * a + m * a) by (nonlinear_arith);
                assert(m * a == spaces_width(f, m));
                pending = pending + *n as u64;
            },
            Token::Word(w) => {
                let ww = word_advance(font, *w);
                let grown = width + pending as u128 * space as u128 + ww;
                if words == 0 || grown <= max as u128 {
                    if pending > 0 {
                        pieces.push(Piece::Gap(pending));
                    }
                    pieces.push(Piece::Word(*w));
                    proof {
                        assert(pieces@.map_values(|p: Piece<'a>| p@) =~= with_word(
                            pv,
                            pending as nat,
                            w@,
                        ));
                        assert(spaces_width(f, 0) == 0);
                    }
                    words = words + 1;
                    width = grown;
                    pending = 0;
                } else {
                    return Line { pieces, end: i, hard: false, words, width: width as u64 };
                }
            },
        }
        i += 1;
    }
}

} // verus!
