use embedded_text::parser::{Parser, Token};

fn collect(text: &str) -> Vec<Token<'_>> {
    Parser::parse(text).tokens()
}

#[test]
fn parse() {
    // (At least) for now, \r is considered a whitespace
    let text = "Lorem ipsum \r dolor sit amet, conse😅ctetur adipiscing\nelit";

    assert_eq!(
        collect(text),
        vec![
            Token::Word("Lorem"),
            Token::Whitespace(1),
            Token::Word("ipsum"),
            Token::Whitespace(1),
            Token::CarriageReturn,
            Token::Whitespace(1),
            Token::Word("dolor"),
            Token::Whitespace(1),
            Token::Word("sit"),
            Token::Whitespace(1),
            Token::Word("amet,"),
            Token::Whitespace(1),
            Token::Word("conse😅ctetur"),
            Token::Whitespace(1),
            Token::Word("adipiscing"),
            Token::NewLine,
            Token::Word("elit"),
        ]
    );
}

#[test]
fn parse_multibyte_last() {
    let text = "two\u{200B}words";
    assert_eq!(9, "two\u{200B}words".chars().count());

    assert_eq!(collect(text), vec![Token::Word("two"), Token::Word("words")]);

    assert_eq!(collect("  \u{200B} "), vec![Token::Whitespace(3)]);
}

#[test]
fn parse_zwsp() {
    let text = "test😅";

    assert_eq!(collect(text), vec![Token::Word("test😅"),]);
}

#[test]
fn parse_punctuation() {
    let text = "..word,word";

    assert_eq!(
        collect(text),
        vec![
            Token::Word("."),
            Token::Word("."),
            Token::Word("word,"),
            Token::Word("word")
        ]
    );
}

#[test]
fn parse_nbsp_as_word_char() {
    let text = "test\u{A0}word";

    assert_eq!(9, "test\u{A0}word".chars().count());
    assert_eq!(collect(text), vec![Token::Word("test\u{A0}word"),]);
    assert_eq!(
        collect(" \u{A0}word"),
        vec![Token::Whitespace(1), Token::Word("\u{A0}word"),]
    );
}

#[test]
fn parse_hello_world() {
    assert_eq!(
        collect("Hello, world!\n"),
        vec![
            Token::Word("Hello,"),
            Token::Whitespace(1),
            Token::Word("world!"),
            Token::NewLine
        ]
    );
}

#[test]
fn parse_empty_and_only_zwsp() {
    assert_eq!(collect(""), vec![]);
    assert_eq!(collect("\u{200B}\u{200B}"), vec![]);
    let mut p = Parser::parse("\u{200B}");
    assert_eq!(p.next(), None);
    assert!(p.is_empty());
}

#[test]
fn parse_trailing_zwsp() {
    assert_eq!(collect("word\u{200B}"), vec![Token::Word("word")]);
    assert_eq!(collect("a \u{200B}"), vec![Token::Word("a"), Token::Whitespace(1)]);
}

#[test]
fn parse_tabs_and_unicode_spaces() {
    assert_eq!(
        collect("a\t\u{3000} b"),
        vec![Token::Word("a"), Token::Whitespace(3), Token::Word("b")]
    );
}

#[test]
fn peek_does_not_advance() {
    let mut p = Parser::parse("ab cd\n");
    let remaining = p.remaining();
    assert_eq!(p.peek(), Some(Token::Word("ab")));
    assert_eq!(p.remaining(), remaining);
    assert_eq!(p.peek(), p.clone().next());
    loop {
        let peeked = p.peek();
        let next = p.next();
        assert_eq!(peeked, next);
        if next.is_none() {
            break;
        }
    }
    assert!(p.is_empty());
    assert_eq!(p.remaining(), 0);
}

#[test]
fn remaining_counts_bytes() {
    let mut p = Parser::parse("é x");
    assert_eq!(p.remaining(), 4);
    assert_eq!(p.next(), Some(Token::Word("é")));
    assert_eq!(p.remaining(), 2);
    assert!(!p.is_empty());
}

#[test]
fn char_classes() {
    assert!(Parser::is_word_char('a'));
    assert!(Parser::is_word_char('\u{A0}'));
    assert!(!Parser::is_word_char('\u{200B}'));
    assert!(!Parser::is_word_char(' '));
    assert!(Parser::is_space_char('\u{200B}'));
    assert!(Parser::is_space_char('\t'));
    assert!(!Parser::is_space_char('\n'));
    assert!(!Parser::is_space_char('\u{A0}'));
    assert!(Parser::is_breaking_char(','));
    assert!(!Parser::is_breaking_char('a'));
}

#[test]
fn tokens_round_trip_text() {
    let text = "Lo\trem,  ip\u{200B}sum\r\n x";
    let mut shown = String::new();
    for t in collect(text) {
        match t {
            Token::Word(w) => shown.push_str(w),
            Token::Whitespace(n) => {
                for _ in 0..n {
                    shown.push(' ');
                }
            }
            Token::NewLine => shown.push('\n'),
            Token::CarriageReturn => shown.push('\r'),
        }
    }
    assert_eq!(shown, "Lo rem,  ipsum\r\n x");
}

#[test]
fn remaining_tracks_unparsed_bytes() {
    let text = "Hello, world!\n";
    let mut p = Parser::parse(text);
    assert_eq!(p.remaining(), text.len());
    assert_eq!(p.next(), Some(Token::Word("Hello,")));
    assert_eq!(p.remaining(), 8);
    let mut last = p.remaining();
    while let Some(_) = p.next() {
        assert!(p.remaining() < last);
        last = p.remaining();
    }
    assert_eq!(p.remaining(), 0);
    assert!(p.is_empty());
    let mut z = Parser::parse("\u{200B}");
    assert!(!z.is_empty());
    assert_eq!(z.next(), None);
    assert_eq!(z.remaining(), 0);
    assert!(z.is_empty());
}
