//! Parse text into words, newlines and whitespace sequences.
use vstd::prelude::*;
use vstd::utf8::{encode_scalar, encode_utf8};

verus! {

/// The zero-width space: splits runs without being shown or counted.
pub const ZWSP: char = '\u{200B}';

/// The non-breaking space: a part of the word it stands in.
pub const NBSP: char = '\u{A0}';

/// The characters with the Unicode `White_Space` property.
pub open spec fn white_space(c: char) -> bool {
    ('\u{9}' <= c && c <= '\u{d}') || c == ' ' || c == '\u{85}' || c == '\u{a0}' || c
        == '\u{1680}' || ('\u{2000}' <= c && c <= '\u{200a}') || c == '\u{2028}' || c
        == '\u{2029}' || c == '\u{202f}' || c == '\u{205f}' || c == '\u{3000}'
}

/// A character that belongs to a word.
pub open spec fn word_char(c: char) -> bool {
    (!white_space(c) || c == NBSP) && c != ZWSP
}

/// A character that continues a whitespace run (the zero-width space included).
pub open spec fn space_char(c: char) -> bool {
    (white_space(c) && c != '\n' && c != '\r' && c != NBSP && c != ZWSP) || c == ZWSP
}

/// ASCII punctuation: a word ends right after one of these.
pub open spec fn breaking_char(c: char) -> bool {
    ('!' <= c && c <= '/') || (':' <= c && c <= '@') || ('[' <= c && c <= '`') || ('{' <= c
        && c <= '~')
}

/// What a token stands for, with the word's characters.
pub enum TokenView {
    NewLine,
    CarriageReturn,
    Whitespace(u32),
    Word(Seq<char>),
}

/// A text token
#[derive(Debug, PartialEq, Eq, Clone)]
pub enum Token<'a> {
    /// A newline character.
    NewLine,
    /// A \r character.
    CarriageReturn,
    /// A number of whitespace characters.
    Whitespace(u32),
    /// A word (a sequence of non-whitespace characters).
    Word(&'a str),
}

impl<'a> View for Token<'a> {
    type V = TokenView;

    open spec fn view(&self) -> TokenView {
        match self {
            Token::NewLine => TokenView::NewLine,
            Token::CarriageReturn => TokenView::CarriageReturn,
            Token::Whitespace(n) => TokenView::Whitespace(*n),
            Token::Word(w) => TokenView::Word(w@),
        }
    }
}

/// End of the word that continues at index `i`: the first index that is not a
/// word character, or the index just past a punctuation character.
pub open spec fn word_end(s: Seq<char>, i: int) -> int
    decreases s.len() - i,
{
    if i >= s.len() {
        s.len() as int
    } else if !word_char(s[i]) {
        i
    } else if breaking_char(s[i]) {
        i + 1
    } else {
        word_end(s, i + 1)
    }
}

/// End of the whitespace run that continues at index `i`.
pub open spec fn space_end(s: Seq<char>, i: int) -> int
    decreases s.len() - i,
{
    if i >= s.len() {
        s.len() as int
    } else if !space_char(s[i]) {
        i
    } else {
        space_end(s, i + 1)
    }
}

/// Number of characters in `s[lo..hi]` other than the zero-width space.
pub open spec fn visible_count(s: Seq<char>, lo: int, hi: int) -> nat
    decreases hi - lo,
{
    if hi <= lo {
        0
    } else {
        visible_count(s, lo, hi - 1) + if s[hi - 1] == ZWSP {
            0nat
        } else {
            1nat
        }
    }
}

/// The next token of `s` and the text that follows it, or `None` when only
/// zero-width spaces are left.
pub open spec fn next_token(s: Seq<char>) -> Option<(TokenView, Seq<char>)>
    decreases s.len(),
{
    if s.len() == 0 {
        None
    } else if word_char(s[0]) {
        let e = if breaking_char(s[0]) {
            1
        } else {
            word_end(s, 1)
        };
        Some((TokenView::Word(s.subrange(0, e)), s.subrange(e, s.len() as int)))
    } else if s[0] == '\n' {
        Some((TokenView::NewLine, s.drop_first()))
    } else if s[0] == '\r' {
        Some((TokenView::CarriageReturn, s.drop_first()))
    } else if s[0] == ZWSP {
        next_token(s.drop_first())
    } else {
        let e = space_end(s, 1);
        Some(
            (
                TokenView::Whitespace((1 + visible_count(s, 1, e)) as u32),
                s.subrange(e, s.len() as int),
            ),
        )
    }
}

/// The token that `next` returns on `s`.
pub open spec fn first_token(s: Seq<char>) -> Option<TokenView> {
    match next_token(s) {
        Some(p) => Some(p.0),
        None => None,
    }
}

/// The text left after `next` on `s`.
pub open spec fn rest_after(s: Seq<char>) -> Seq<char> {
    match next_token(s) {
        Some(p) => p.1,
        None => Seq::empty(),
    }
}

/// All the tokens of `s`, in order.
pub open spec fn tokens_of(s: Seq<char>) -> Seq<TokenView>
    decreases s.len(),
{
    match next_token(s) {
        Some(p) => if p.1.len() < s.len() {
            seq![p.0] + tokens_of(p.1)
        } else {
            seq![p.0]
        },
        None => Seq::empty(),
    }
}

/// The text a token stands for, with each whitespace character shown as a space.
pub open spec fn token_text(t: TokenView) -> Seq<char> {
    match t {
        TokenView::NewLine => seq!['\n'],
        TokenView::CarriageReturn => seq!['\r'],
        TokenView::Whitespace(n) => Seq::new(n as nat, |i: int| ' '),
        TokenView::Word(w) => w,
    }
}

/// The texts of `ts`, one after the other.
pub open spec fn render_tokens(ts: Seq<TokenView>) -> Seq<char>
    decreases ts.len(),
{
    if ts.len() == 0 {
        Seq::empty()
    } else {
        token_text(ts[0]) + render_tokens(ts.drop_first())
    }
}

/// How one character of the input shows in the tokens: zero-width spaces
/// vanish and the other whitespace of a run becomes a space.
pub open spec fn shown_char(c: char) -> Seq<char> {
    if c == ZWSP {
        Seq::empty()
    } else if space_char(c) {
        seq![' ']
    } else {
        seq![c]
    }
}

/// `s` as its tokens show it.
pub open spec fn shown_text(s: Seq<char>) -> Seq<char>
    decreases s.len(),
{
    if s.len() == 0 {
        Seq::empty()
    } else {
        shown_text(s.drop_last()) + shown_char(s.last())
    }
}

proof fn lemma_shown_split(s: Seq<char>, k: int)
    requires
        0 <= k <= s.len(),
    ensures
        shown_text(s) == shown_text(s.subrange(0, k)) + shown_text(s.subrange(k, s.len() as int)),
    decreases s.len() - k,
{
    if k == s.len() {
        assert(s.subrange(0, k) =~= s);
        assert(shown_text(s.subrange(k, s.len() as int)) =~= Seq::<char>::empty());
        assert(shown_text(s) =~= shown_text(s) + Seq::<char>::empty());
    } else {
        lemma_shown_split(s.drop_last(), k);
        assert(s.drop_last().subrange(0, k) =~= s.subrange(0, k));
        let t = s.subrange(k, s.len() as int);
        assert(t.drop_last() =~= s.drop_last().subrange(k, s.len() - 1));
        assert(t.last() == s.last());
        assert(shown_text(s) =~= shown_text(s.subrange(0, k)) + shown_text(t));
    }
}

proof fn lemma_shown_word(w: Seq<char>)
    requires
        forall|j: int| 0 <= j < w.len() ==> #[trigger] word_char(w[j]),
    ensures
        shown_text(w) == w,
    decreases w.len(),
{
    if w.len() > 0 {
        lemma_shown_word(w.drop_last());
        assert(word_char(w[w.len() - 1]));
        assert(shown_text(w) =~= w);
    }
}

proof fn lemma_shown_spaces(s: Seq<char>, hi: int)
    requires
        1 <= hi <= s.len(),
        forall|j: int| 1 <= j < hi ==> #[trigger] space_char(s[j]),
    ensures
        shown_text(s.subrange(1, hi)) == Seq::new(visible_count(s, 1, hi), |i: int| ' '),
    decreases hi,
{
    if hi == 1 {
        assert(shown_text(s.subrange(1, hi)) =~= Seq::new(0, |i: int| ' '));
    } else {
        lemma_shown_spaces(s, hi - 1);
        assert(s.subrange(1, hi).drop_last() =~= s.subrange(1, hi - 1));
        assert(space_char(s[hi - 1]));
        assert(shown_text(s.subrange(1, hi)) =~= Seq::new(visible_count(s, 1, hi), |i: int| ' '));
    }
}

/// Concatenating what every token stands for gives back the input, with
/// zero-width spaces left out and each other whitespace character of a run
/// counted as one space.
pub proof fn lemma_tokens_round_trip(s: Seq<char>)
    requires
        s.len() <= u32::MAX,
    ensures
        render_tokens(tokens_of(s)) == shown_text(s),
    decreases s.len(),
{
    lemma_next_token_shrinks(s);
    if s.len() == 0 {
        assert(render_tokens(tokens_of(s)) =~= shown_text(s));
    } else {
        lemma_shown_split(s, 1);
        let head = s.subrange(0, 1);
        assert(head.drop_last() =~= Seq::<char>::empty());
        assert(head.last() == s[0]);
        assert(shown_text(head.drop_last()) =~= Seq::<char>::empty());
        assert(shown_text(head) =~= shown_char(s[0]));
        assert(s.subrange(1, s.len() as int) =~= s.drop_first());
        if s[0] == ZWSP {
            lemma_tokens_round_trip(s.drop_first());
            lemma_next_token_shrinks(s.drop_first());
            assert(shown_text(s) =~= shown_text(s.drop_first()));
            assert(tokens_of(s) == tokens_of(s.drop_first()));
        } else if word_char(s[0]) || s[0] == '\n' || s[0] == '\r' {
            let e = if word_char(s[0]) && !breaking_char(s[0]) {
                word_end(s, 1)
            } else {
                1
            };
            lemma_word_end_bounds(s, 1);
            let r = s.subrange(e, s.len() as int);
            lemma_tokens_round_trip(r);
            lemma_shown_split(s, e);
            if word_char(s[0]) {
                lemma_shown_word(s.subrange(0, e));
            } else {
                assert(shown_text(s.subrange(0, 1)) =~= token_text(next_token(s).unwrap().0));
            }
            let ts = tokens_of(s);
            assert(ts.drop_first() =~= tokens_of(r));
        } else {
            let e = space_end(s, 1);
            lemma_space_end_bounds(s, 1);
            lemma_visible_count_bound(s, 1, e);
            let r = s.subrange(e, s.len() as int);
            lemma_tokens_round_trip(r);
            lemma_shown_split(s, e);
            let w = s.subrange(0, e);
            lemma_shown_split(w, 1);
            assert(w.subrange(0, 1) =~= head);
            assert(w.subrange(1, e) =~= s.subrange(1, e));
            assert forall|j: int| 1 <= j < e implies #[trigger] space_char(w[j]) by {
                assert(space_char(s[j]));
            }
            lemma_shown_spaces(w, e);
            assert(visible_count(w, 1, e) == visible_count(s, 1, e)) by {
                lemma_visible_count_same(w, s, 1, e);
            }
            assert(shown_text(w) =~= token_text(next_token(s).unwrap().0));
            let ts = tokens_of(s);
            assert(ts.drop_first() =~= tokens_of(r));
        }
    }
}

proof fn lemma_visible_count_same(a: Seq<char>, b: Seq<char>, lo: int, hi: int)
    requires
        0 <= lo <= hi <= a.len(),
        hi <= b.len(),
        forall|j: int| lo <= j < hi ==> a[j] == b[j],
    ensures
        visible_count(a, lo, hi) == visible_count(b, lo, hi),
    decreases hi - lo,
{
    if lo < hi {
        lemma_visible_count_same(a, b, lo, hi - 1);
    }
}

/// The tokens of a text: words are never empty, there are no more tokens than
/// characters, and together they stand for no more characters than the text has.
pub proof fn lemma_tokens_fit(s: Seq<char>)
    requires
        s.len() <= u32::MAX,
    ensures
        crate::layout::words_nonempty(tokens_of(s)),
        tokens_of(s).len() <= s.len(),
        crate::layout::total_cols(tokens_of(s)) <= s.len(),
    decreases s.len(),
{
    lemma_next_token_shrinks(s);
    match next_token(s) {
        Some(p) => {
            lemma_word_end_bounds(s, 1);
            lemma_space_end_bounds(s, 1);
            lemma_tokens_fit(p.1);
            let ts = tokens_of(s);
            assert(ts.drop_first() =~= tokens_of(p.1));
            assert(ts[0] == p.0);
            if s[0] == ZWSP {
                lemma_tokens_fit(s.drop_first());
                lemma_next_token_shrinks(s.drop_first());
                assert(tokens_of(s) == tokens_of(s.drop_first()));
            } else if !word_char(s[0]) && s[0] != '\n' && s[0] != '\r' {
                lemma_visible_count_bound(s, 1, space_end(s, 1));
            }
            assert forall|j: int| 0 <= j < ts.len() implies (#[trigger] ts[j] matches TokenView::Word(
                w,
            ) ==> w.len() > 0) by {
                if j > 0 {
                    assert(ts[j] == tokens_of(p.1)[j - 1]);
                }
            }
        },
        None => {},
    }
}

/// A text a parser can take: its characters are counted in a `u32` and its
/// UTF-8 bytes in a `usize`.
pub open spec fn text_fits(s: Seq<char>) -> bool {
    s.len() <= u32::MAX && encode_utf8(s).len() <= usize::MAX
}

proof fn lemma_encode_suffix(s: Seq<char>, k: int)
    requires
        0 <= k <= s.len(),
    ensures
        encode_utf8(s.subrange(k, s.len() as int)).len() + k <= encode_utf8(s).len(),
    decreases k,
{
    if k == 0 {
        assert(s.subrange(0, s.len() as int) =~= s);
    } else {
        lemma_encode_suffix(s, k - 1);
        let t = s.subrange(k - 1, s.len() as int);
        assert(t.drop_first() =~= s.subrange(k, s.len() as int));
        assert(encode_scalar(t[0] as u32).len() >= 1);
    }
}

/// A text has no UTF-8 bytes exactly when it has no characters.
pub proof fn lemma_encode_empty(s: Seq<char>)
    ensures
        (encode_utf8(s).len() == 0) == (s.len() == 0),
{
    lemma_encode_suffix(s, s.len() as int);
}

/// What `next` leaves is the end of what it was given.
pub proof fn lemma_rest_is_suffix(s: Seq<char>)
    ensures
        rest_after(s).len() <= s.len(),
        rest_after(s) == s.subrange(s.len() - rest_after(s).len(), s.len() as int),
        next_token(s) is Some ==> rest_after(s).len() < s.len(),
    decreases s.len(),
{
    lemma_next_token_shrinks(s);
    if s.len() > 0 {
        lemma_word_end_bounds(s, 1);
        lemma_space_end_bounds(s, 1);
        if s[0] == ZWSP {
            let s1 = s.drop_first();
            lemma_rest_is_suffix(s1);
            assert(s1.subrange(s1.len() - rest_after(s1).len(), s1.len() as int) =~= s.subrange(
                s.len() - rest_after(s1).len(),
                s.len() as int,
            ));
        } else {
            assert(s.drop_first() =~= s.subrange(1, s.len() as int));
        }
    } else {
        assert(s.subrange(0, 0) =~= Seq::<char>::empty());
    }
}

/// What an optional token stands for.
pub open spec fn option_view<'a>(o: Option<Token<'a>>) -> Option<TokenView> {
    match o {
        Some(t) => Some(t@),
        None => None,
    }
}

/// Text parser. Turns a string into a stream of [`Token`] objects.
#[derive(Clone, Copy, Debug)]
pub struct Parser<'a> {
    inner: &'a str,
}

impl<'a> View for Parser<'a> {
    type V = Seq<char>;

    /// The text not parsed yet.
    closed spec fn view(&self) -> Seq<char> {
        self.inner@
    }
}

proof fn lemma_word_end_bounds(s: Seq<char>, i: int)
    requires
        0 <= i <= s.len(),
    ensures
        i <= word_end(s, i) <= s.len(),
        forall|j: int| i <= j < word_end(s, i) ==> #[trigger] word_char(s[j]),
    decreases s.len() - i,
{
    if i < s.len() && word_char(s[i]) && !breaking_char(s[i]) {
        lemma_word_end_bounds(s, i + 1);
    }
}

proof fn lemma_space_end_bounds(s: Seq<char>, i: int)
    requires
        0 <= i <= s.len(),
    ensures
        i <= space_end(s, i) <= s.len(),
        forall|j: int| i <= j < space_end(s, i) ==> #[trigger] space_char(s[j]),
    decreases s.len() - i,
{
    if i < s.len() && space_char(s[i]) {
        lemma_space_end_bounds(s, i + 1);
    }
}

proof fn lemma_visible_count_bound(s: Seq<char>, lo: int, hi: int)
    requires
        lo <= hi,
    ensures
        visible_count(s, lo, hi) <= hi - lo,
    decreases hi - lo,
{
    if lo < hi {
        lemma_visible_count_bound(s, lo, hi - 1);
    }
}

/// Each token takes at least one character off the text.
pub proof fn lemma_next_token_shrinks(s: Seq<char>)
    ensures
        next_token(s) matches Some(p) ==> p.1.len() < s.len(),
    decreases s.len(),
{
    if s.len() > 0 {
        lemma_word_end_bounds(s, 1);
        lemma_space_end_bounds(s, 1);
        if s[0] == ZWSP {
            lemma_next_token_shrinks(s.drop_first());
        }
    }
}

impl<'a> Parser<'a> {
    /// Number of UTF-8 bytes of the text not parsed yet.
    pub open spec fn byte_len(&self) -> nat {
        encode_utf8(self@).len()
    }

    /// Create a new parser object to process the given piece of text.
    pub fn parse(text: &'a str) -> (r: Self)
        requires
            text_fits(text@),
        ensures
            r@ == text@,
    {
        Parser { inner: text }
    }

    /// Returns the next token without advancing.
    pub fn peek(&self) -> (r: Option<Token<'a>>)
        requires
            text_fits(self@),
        ensures
            option_view(r) == first_token(self@),
    {
        let (t, _) = Self::scan(self.inner);
        t
    }

    /// Returns true if there are no tokens to process.
    pub fn is_empty(&self) -> (r: bool)
        ensures
            r == (self@.len() == 0),
            r == (self.byte_len() == 0),
    {
        proof {
            lemma_encode_empty(self@);
        }
        self.inner.is_empty()
    }

    /// Returns the number of unprocessed bytes.
    pub fn remaining(&self) -> (r: usize)
        requires
            text_fits(self@),
        ensures
            r == self.byte_len(),
            (r == 0) == (self@.len() == 0),
    {
        proof {
            lemma_encode_empty(self@);
        }
        self.inner.len()
    }

    /// Whether `c` belongs to a word (the non-breaking space does).
    pub fn is_word_char(c: char) -> (r: bool)
        ensures
            r == word_char(c),
    {
        (!Self::is_white_space(c) || c == NBSP) && c != ZWSP
    }

    /// Whether `c` continues a whitespace run; the zero-width space splits
    /// words and whitespace runs alike, so it counts here.
    pub fn is_space_char(c: char) -> (r: bool)
        ensures
            r == space_char(c),
    {
        (Self::is_white_space(c) && c != '\n' && c != '\r' && c != NBSP && c != ZWSP) || c
            == ZWSP
    }

    /// Whether a word ends right after `c`.
    pub fn is_breaking_char(c: char) -> (r: bool)
        ensures
            r == breaking_char(c),
    {
        ('!' <= c && c <= '/') || (':' <= c && c <= '@') || ('[' <= c && c <= '`') || ('{' <= c
            && c <= '~')
    }

    fn is_white_space(c: char) -> (r: bool)
        ensures
            r == white_space(c),
    {
        ('\u{9}' <= c && c <= '\u{d}') || c == ' ' || c == '\u{85}' || c == '\u{a0}' || c
            == '\u{1680}' || ('\u{2000}' <= c && c <= '\u{200a}') || c == '\u{2028}' || c
            == '\u{2029}' || c == '\u{202f}' || c == '\u{205f}' || c == '\u{3000}'
    }

    fn scan_word_end(s: &str, m: usize) -> (e: usize)
        requires
            m == s@.len(),
            m >= 1,
        ensures
            e == word_end(s@, 1),
    {
        let mut i: usize = 1;
        while i < m
            invariant
                1 <= i <= m,
                m == s@.len(),
                word_end(s@, 1) == word_end(s@, i as int),
            decreases m - i,
        {
            let d = s.get_char(i);
            if !Self::is_word_char(d) {
                return i;
            }
            if Self::is_breaking_char(d) {
                return i + 1;
            }
            i += 1;
        }
        i
    }

    fn scan_space_end(s: &str, m: usize) -> (r: (usize, u32))
        requires
            m == s@.len(),
            1 <= m <= u32::MAX,
        ensures
            r.0 == space_end(s@, 1),
            r.1 == 1 + visible_count(s@, 1, r.0 as int),
    {
        let mut i: usize = 1;
        let mut len: u32 = 1;
        while i < m
            invariant
                1 <= i <= m,
                m == s@.len(),
                m <= u32::MAX,
                space_end(s@, 1) == space_end(s@, i as int),
                len == 1 + visible_count(s@, 1, i as int),
                len <= i,
            decreases m - i,
        {
            let d = s.get_char(i);
            if !Self::is_space_char(d) {
                return (i, len);
            }
            if d != ZWSP {
                len += 1;
            }
            i += 1;
        }
        (i, len)
    }

    /// The next token of `text` and the text after it.
    fn scan(text: &'a str) -> (r: (Option<Token<'a>>, &'a str))
        requires
            text@.len() <= u32::MAX,
        ensures
            option_view(r.0) == first_token(text@),
            r.1@ == rest_after(text@),
    {
        let n = text.unicode_len();
        let mut st: usize = 0;
        assert(text@.subrange(0, n as int) =~= text@);
        while st < n && text.get_char(st) == ZWSP
            invariant
                st <= n,
                n == text@.len(),
                next_token(text@) == next_token(text@.subrange(st as int, n as int)),
            decreases n - st,
        {
            assert(text@.subrange(st as int, n as int).drop_first() =~= text@.subrange(
                st as int + 1,
                n as int,
            ));
            st += 1;
        }
        let rest = text.substring_char(st, n);
        assert(rest@ =~= text@.subrange(st as int, n as int));
        let m = n - st;
        if m == 0 {
            return (None, rest);
        }
        let c = rest.get_char(0);
        if Self::is_word_char(c) {
            let e = if Self::is_breaking_char(c) {
                1
            } else {
                Self::scan_word_end(rest, m)
            };
            proof {
                lemma_word_end_bounds(rest@, 1);
            }
            (Some(Token::Word(rest.substring_char(0, e))), rest.substring_char(e, m))
        } else if c == '\n' {
            (Some(Token::NewLine), rest.substring_char(1, m))
        } else if c == '\r' {
            (Some(Token::CarriageReturn), rest.substring_char(1, m))
        } else {
            let (e, len) = Self::scan_space_end(rest, m);
            proof {
                lemma_space_end_bounds(rest@, 1);
            }
            (Some(Token::Whitespace(len)), rest.substring_char(e, m))
        }
    }

    /// Returns the next token and advances past it.
    pub fn next(&mut self) -> (r: Option<Token<'a>>)
        requires
            text_fits(old(self)@),
        ensures
            option_view(r) == first_token(old(self)@),
            final(self)@ == rest_after(old(self)@),
            final(self)@ == old(self)@.subrange(
                old(self)@.len() - final(self)@.len(),
                old(self)@.len() as int,
            ),
            text_fits(final(self)@),
            final(self).byte_len() <= old(self).byte_len(),
            r is Some ==> final(self)@.len() < old(self)@.len(),
            r is Some ==> final(self).byte_len() < old(self).byte_len(),
            r is None ==> final(self)@.len() == 0 && final(self).byte_len() == 0,
    {
        proof {
            lemma_next_token_shrinks(self@);
            lemma_rest_is_suffix(self@);
            lemma_encode_suffix(self@, self@.len() - rest_after(self@).len());
            lemma_encode_empty(rest_after(self@));
        }
        let (t, rest) = Self::scan(self.inner);
        self.inner = rest;
        t
    }

    /// Consumes the parser and returns all the tokens that are left, in order.
    pub fn tokens(self) -> (r: Vec<Token<'a>>)
        requires
            text_fits(self@),
        ensures
            r@.map_values(|t: Token<'a>| t@) == tokens_of(self@),
    {
        let mut p = self;
        let mut out: Vec<Token<'a>> = Vec::new();
        while !p.is_empty()
            invariant
                text_fits(p@),
                out@.map_values(|t: Token<'a>| t@) + tokens_of(p@) == tokens_of(self@),
            decreases p@.len(),
        {
            proof {
                lemma_next_token_shrinks(p@);
            }
            let ghost before = p@;
            match p.next() {
                Some(t) => {
                    let ghost prev = out@.map_values(|t: Token<'a>| t@);
                    assert(tokens_of(before) == seq![t@] + tokens_of(p@));
                    out.push(t);
                    assert(out@.map_values(|t: Token<'a>| t@) =~= prev.push(t@));
                    assert(prev + tokens_of(before) =~= prev.push(t@) + tokens_of(p@));
                },
                None => {
                    assert(out@.map_values(|t: Token<'a>| t@) + tokens_of(before) =~= out@.map_values(|t: Token<'a>| t@) + tokens_of(p@));
                    assert(tokens_of(p@) =~= Seq::<TokenView>::empty());
                },
            }
        }
        assert(tokens_of(p@) =~= Seq::<TokenView>::empty());
        assert(out@.map_values(|t: Token<'a>| t@) =~= out@.map_values(|t: Token<'a>| t@) + tokens_of(p@));
        out
    }
}

} // verus!
