use markup_dom::lexer::Lexer;
use markup_dom::token::Token::{
    CloseTagStart, Equals, Identifier, OpenTagStart, Quote, TagEnd, EOF,
};

#[test]
fn peek_simple() {
    let tests = [
        (OpenTagStart, "<"),
        (CloseTagStart, "</"),
        (TagEnd, ">"),
        (Quote, "\""),
        (Equals, "="),
        (Identifier(""), "asdf"),
        (EOF, ""),
    ];
    for (t, s) in tests {
        assert_eq!(Ok(t), Lexer::new(s).peek());
    }
}

#[test]
fn take_simple_eof() {
    let tests = [
        (OpenTagStart, "<"),
        (CloseTagStart, "</"),
        (TagEnd, ">"),
        (Quote, "\""),
        (Equals, "="),
        (EOF, ""),
    ];
    for (t, s) in tests {
        let mut lx = Lexer::new(s);
        assert_eq!(Ok(t), lx.next());
        assert_eq!(Ok(EOF), lx.next());
    }
}

#[test]
fn take_ident_eof() {
    let tests = [
        (Identifier("a"), "a"),
        (Identifier("asdf"), "asdf"),
        (Identifier("asdf123"), "asdf123"),
    ];
    for (t, s) in tests {
        let mut lx = Lexer::new(s);
        assert_eq!(Ok(t), lx.next());
        assert_eq!(Ok(EOF), lx.next());
    }
}

#[test]
fn ignore_whitespace() {
    let s = "\n<html>   </html>   ";
    let tokens = [
        OpenTagStart,
        Identifier("html"),
        TagEnd,
        CloseTagStart,
        Identifier("html"),
        TagEnd,
        EOF,
    ];
    let mut lx = Lexer::new(s);
    for t in tokens {
        assert_eq!(Ok(t), lx.next());
    }
}

#[test]
fn text_till() {
    let mut lx = Lexer::new("asdf</");
    assert_eq!("asdf", lx.text_till('<'));
    assert_eq!(Ok(CloseTagStart), lx.next());
    assert_eq!(Ok(EOF), lx.next());
}

#[test]
fn peek_is_idempotent() {
    let mut lx = Lexer::new("  \n<html>");
    let first = lx.peek();
    let after_first = lx.remainder();
    let second = lx.peek();
    assert_eq!(first, second);
    assert_eq!(Ok(OpenTagStart), second);
    assert_eq!(after_first, lx.remainder());
    assert_eq!("<html>", lx.remainder());
}

#[test]
fn take_realizes_peeked_token() {
    let mut lx = Lexer::new("abc12 >");
    let peeked = lx.peek().unwrap();
    assert_eq!(Identifier(""), peeked);
    let taken = lx.take(peeked);
    assert_eq!(Identifier("abc12"), taken);
    assert_eq!(" >", lx.remainder());
    assert_eq!(Ok(TagEnd), lx.next());
}

#[test]
fn text_till_trims_both_ends() {
    let mut lx = Lexer::new("   Hello world!  <p>");
    assert_eq!("Hello world!", lx.text_till('<'));
    assert_eq!("<p>", lx.remainder());
}

fn get_ident<'a>(lx: &mut Lexer<'a>) -> &'a str {
    match lx.next() {
        Ok(Identifier(ident)) => ident,
        other => panic!("expected identifier, got {:?}", other),
    }
}

fn tag<'a>(lx: &mut Lexer<'a>, open: bool) -> &'a str {
    let t = if open { OpenTagStart } else { CloseTagStart };
    assert_eq!(Ok(t), lx.next());
    let ident = get_ident(lx);
    assert_eq!(Ok(TagEnd), lx.next());

    ident
}

fn attrib<'a>(lx: &mut Lexer<'a>) -> (&'a str, &'a str) {
    let name = get_ident(lx);
    assert_eq!(Ok(Equals), lx.next());
    assert_eq!(Ok(Quote), lx.next());
    let value = lx.text_till('"');
    assert_eq!(Ok(Quote), lx.next());

    (name, value)
}

#[test]
fn mod_simple_html_doc() {
    let s = r#"
<html>
    <body>
        Hello world!
        <a href="google.com">google</a>
    </body>
</html>
        "#;
    let mut lx = Lexer::new(s);
    assert_eq!("html", tag(&mut lx, true));
    assert_eq!("body", tag(&mut lx, true));
    assert_eq!("Hello world!", lx.text_till('<'));

    assert_eq!(Ok(OpenTagStart), lx.next());
    assert_eq!("a", get_ident(&mut lx));
    assert_eq!(("href", "google.com"), attrib(&mut lx));
    assert_eq!(Ok(TagEnd), lx.next());
    assert_eq!("google", lx.text_till('<'));
    assert_eq!("a", tag(&mut lx, false));

    assert_eq!("body", tag(&mut lx, false));
    assert_eq!("html", tag(&mut lx, false));
}
