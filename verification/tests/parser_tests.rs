use markup_dom::dom::{elem, text, AttrMap, Node, NodeType};
use markup_dom::lexer::{Lexer, LexerError};
use markup_dom::parser::{parse, ParseError};
use markup_dom::token::Token;

fn attrs(pairs: &[(&'static str, &'static str)]) -> AttrMap<'static> {
    let mut m = AttrMap::new();
    for (k, v) in pairs {
        m.insert(k, v);
    }
    m
}

#[test]
fn lonely_html_tag() {
    let expected = elem("html", AttrMap::new(), vec![]);
    let src = "<html></html>";
    assert_eq!(Ok(expected), parse(Lexer::new(src)));
}

#[test]
fn nested_single() {
    let expected = elem(
        "html",
        AttrMap::new(),
        vec![elem("head", AttrMap::new(), vec![])],
    );
    let src = "<html><head></head></html>";

    assert_eq!(Ok(expected), parse(Lexer::new(src)));
}

#[test]
fn nested_multiple() {
    let expected = elem(
        "html",
        AttrMap::new(),
        vec![
            elem("head", AttrMap::new(), vec![]),
            elem("body", AttrMap::new(), vec![]),
            elem("bruv", AttrMap::new(), vec![]),
        ],
    );
    let src = r#"
        <html>
            <head></head>
            <body></body>
            <bruv></bruv>
        </html>
        "#;

    assert_eq!(Ok(expected), parse(Lexer::new(src)));
}

#[test]
fn nested_deep() {
    let expected = elem(
        "html",
        AttrMap::new(),
        vec![elem(
            "body",
            AttrMap::new(),
            vec![elem(
                "div",
                AttrMap::new(),
                vec![elem("div", AttrMap::new(), vec![])],
            )],
        )],
    );
    let src = r#"
        <html>
            <body>
                <div>
                    <div>
                    </div>
                </div>
            </body>
        </html>
        "#;

    assert_eq!(Ok(expected), parse(Lexer::new(src)));
}

#[test]
fn attrib_single() {
    let expected = elem("tag", attrs(&[("attrib", "attr val")]), vec![]);
    let src = "<tag attrib=\"attr val\"></tag>";

    assert_eq!(Ok(expected), parse(Lexer::new(src)));
}

#[test]
fn attrib_multiple() {
    let expected = elem(
        "image",
        attrs(&[("src", "image.png"), ("width", "640"), ("height", "480")]),
        vec![],
    );
    let src = r#"
            <image src="image.png" width="640" height="480">
            </image>
        "#;

    assert_eq!(Ok(expected), parse(Lexer::new(src)));
}

#[test]
fn nested_text() {
    let expected = elem(
        "body",
        AttrMap::new(),
        vec![
            text("uwu!"),
            elem("p", AttrMap::new(), vec![text("rawr :3")]),
        ],
    );
    let src = r#"
        <body>
            uwu!
            <p>rawr :3</p>
        </body>
        "#;
    assert_eq!(Ok(expected), parse(Lexer::new(src)));
}

#[test]
fn simple_html_doc() {
    let expected = elem(
        "html",
        AttrMap::new(),
        vec![elem(
            "body",
            AttrMap::new(),
            vec![
                elem("h1", AttrMap::new(), vec![text("Title")]),
                elem(
                    "div",
                    attrs(&[("id", "main"), ("class", "test")]),
                    vec![elem(
                        "p",
                        AttrMap::new(),
                        vec![
                            text("Hello"),
                            elem("em", AttrMap::new(), vec![text("world")]),
                            text("!"),
                        ],
                    )],
                ),
            ],
        )],
    );

    let src = r#"
            <html>
                <body>
                    <h1>Title</h1>
                    <div id="main" class="test">
                        <p>Hello <em>world</em>!</p>
                    </div>
                </body>
            </html>
        "#;

    assert_eq!(Ok(expected), parse(Lexer::new(src)));
}

#[test]
fn nesting_keeps_order_and_depth() {
    let expected = elem(
        "a",
        AttrMap::new(),
        vec![
            elem("b", AttrMap::new(), vec![]),
            elem("c", AttrMap::new(), vec![]),
        ],
    );
    assert_eq!(Ok(expected), parse(Lexer::new("<a><b></b><c></c></a>")));
}

#[test]
fn whitespace_between_tags_is_insignificant() {
    let compact = parse(Lexer::new("<a><b></b><c></c></a>"));
    let spaced = parse(Lexer::new("\n<a>\n    <b>\n    </b>\n    <c></c>\n</a>\n"));
    assert_eq!(compact, spaced);
    let expected = elem(
        "a",
        AttrMap::new(),
        vec![
            elem("b", AttrMap::new(), vec![]),
            elem("c", AttrMap::new(), vec![]),
        ],
    );
    assert_eq!(Ok(expected), compact);
}

#[test]
fn tag_mismatch_is_detected() {
    assert_eq!(
        Err(ParseError::TagMismatch { opened: "a", closed: "b" }),
        parse(Lexer::new("<a></b>"))
    );
}

#[test]
fn missing_tag_end_is_unexpected_token() {
    assert_eq!(
        Err(ParseError::UnexpectedToken {
            expected: Token::TagEnd,
            got: Token::EOF,
            src: "",
        }),
        parse(Lexer::new("<a"))
    );
}

#[test]
fn unknown_lexeme_in_tag_is_reported() {
    assert_eq!(
        Err(ParseError::LexerError(LexerError::UnknownLexeme("!></a>"))),
        parse(Lexer::new("<a !></a>"))
    );
}

#[test]
fn unknown_lexeme_in_running_text_is_absorbed() {
    let expected = elem("a", AttrMap::new(), vec![text("1+2")]);
    assert_eq!(Ok(expected), parse(Lexer::new("<a>1+2</a>")));
}

#[test]
fn empty_input_parses_to_empty_text() {
    assert_eq!(Ok(text("")), parse(Lexer::new("")));
}

#[test]
fn duplicate_attribute_last_write_wins() {
    let parsed = parse(Lexer::new("<a x=\"1\" x=\"2\"></a>")).unwrap();
    let Node { node_type, children } = parsed;
    assert_eq!(0, children.len());
    match node_type {
        NodeType::Element(data) => {
            assert_eq!("a", data.tag_name);
            assert_eq!(Some("2"), data.attributes.get("x"));
            assert_eq!(1, data.attributes.len());
        },
        other => panic!("expected an element, got {:?}", other),
    }
}

#[test]
fn boolean_attribute_defaults_to_empty_value() {
    let expected = elem("input", attrs(&[("disabled", "")]), vec![]);
    assert_eq!(Ok(expected), parse(Lexer::new("<input disabled></input>")));
}

#[test]
fn trailing_content_after_root_is_ignored() {
    let expected = elem("a", AttrMap::new(), vec![]);
    assert_eq!(Ok(expected), parse(Lexer::new("<a></a><b></b>")));
}
