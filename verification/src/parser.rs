//! The parser: recursive descent over the lexer, producing one root node
//! or the first error met, with no recovery.
//!
//! Every function is proved against its counterpart in `grammar`: the
//! value returned and the text left behind are exactly what the spec
//! descent yields on the text the function started from.
use vstd::prelude::*;
use crate::chars::str_eq;
use crate::dom::{
    elem, lemma_nodes_view_push, nodes_view, text, AttrMap, ElementDataV, Node, NodeTypeV, NodeV,
};
use crate::grammar::{
    lemma_spec_attributes_mono, lemma_spec_nodes_mono, parses_to, spec_attribute, spec_attributes,
    spec_eat, spec_eat_ident, spec_element, spec_node, spec_nodes, spec_parse, ParseErrorV,
};
use crate::lexer::{
    classify, find_char, ident_len, lemma_find_char_le, lemma_ident_len_le,
    lemma_trim_front_idempotent, lemma_trim_front_le, take_len, trim_front, Lexer, LexerError,
};
use crate::token::{Token, TokenKind};

verus! {

/// A fatal parse failure: all three kinds abort the parse at once.
#[derive(Debug, PartialEq, Eq)]
pub enum ParseError<'a> {
    /// The lexer met a character that cannot start a token.
    LexerError(LexerError<'a>),
    /// The grammar required `expected`'s kind and read `got`; `src` is
    /// the source as it stood before the offending token was read.
    UnexpectedToken { expected: Token<'a>, got: Token<'a>, src: &'a str },
    /// A closing tag name differs from its opening one.
    TagMismatch { opened: &'a str, closed: &'a str },
}

impl<'a> View for ParseError<'a> {
    type V = ParseErrorV;

    open spec fn view(&self) -> ParseErrorV {
        match *self {
            ParseError::LexerError(le) => ParseErrorV::LexerError(le@),
            ParseError::UnexpectedToken { expected, got, src } => ParseErrorV::UnexpectedToken {
                expected: expected@,
                got: got@,
                src: src@,
            },
            ParseError::TagMismatch { opened, closed } => ParseErrorV::TagMismatch {
                opened: opened@,
                closed: closed@,
            },
        }
    }
}

pub type ParseResult<'a> = Result<Node<'a>, ParseError<'a>>;

/// Parse one document from the lexer's text: the sole entry point.
/// The result is exactly what the spec descent yields on that text.
pub fn parse<'a>(lx: Lexer<'a>) -> (r: ParseResult<'a>)
    ensures
        match r {
            Ok(n) => parses_to(lx@, Ok(n@)),
            Err(e) => parses_to(lx@, Err(e@)),
        },
{
    let ghost s0 = lx@;
    let mut p = Parser { lx };
    let r = p.node();
    proof {
        match &r {
            Ok(n) => {
                let f = choose|f: nat| spec_node(s0, f) == Some(Ok::<_, ParseErrorV>((n@, p.lx@)));
                assert(spec_parse(s0, f) == Some(Ok::<NodeV, ParseErrorV>(n@)));
            },
            Err(e) => {
                let f = choose|f: nat| spec_node(s0, f) == Some(Err::<(NodeV, Seq<char>), _>(e@));
                assert(spec_parse(s0, f) == Some(Err::<NodeV, ParseErrorV>(e@)));
            },
        }
    }
    r
}

struct Parser<'a> {
    lx: Lexer<'a>,
}

impl<'a> Parser<'a> {
    /// A sequence of nodes, until the next token is close-tag-start or
    /// end of input.
    fn nodes(&mut self) -> (r: Result<Vec<Node<'a>>, ParseError<'a>>)
        ensures
            final(self).lx@.len() <= old(self).lx@.len(),
            match r {
                Ok(ns) => exists|f: nat|
                    spec_nodes(old(self).lx@, Seq::empty(), f) == Some(
                        Ok::<_, ParseErrorV>((nodes_view(ns@), final(self).lx@)),
                    ),
                Err(e) => exists|f: nat|
                    spec_nodes(old(self).lx@, Seq::empty(), f) == Some(
                        Err::<(Seq<NodeV>, Seq<char>), _>(e@),
                    ),
            },
        decreases self.lx@.len(), 3int,
    {
        let ghost s0 = self.lx@;
        let mut ns: Vec<Node<'a>> = Vec::new();
        proof {
            assert(nodes_view(ns@) == Seq::<NodeV>::empty());
        }
        loop
            invariant
                s0 == old(self).lx@,
                self.lx@.len() <= s0.len(),
                forall|f: nat|
                    (#[trigger] spec_nodes(self.lx@, nodes_view(ns@), f)) is Some
                        ==> exists|f2: nat|
                        spec_nodes(s0, Seq::empty(), f2) == spec_nodes(
                            self.lx@,
                            nodes_view(ns@),
                            f,
                        ),
            ensures
                self.lx@.len() <= s0.len(),
                exists|f2: nat|
                    spec_nodes(s0, Seq::empty(), f2) == Some(
                        Ok::<_, ParseErrorV>((nodes_view(ns@), self.lx@)),
                    ),
            decreases self.lx@.len(),
        {
            let ghost cur = self.lx@;
            let ghost nsv = nodes_view(ns@);
            let pk = self.peek();
            let ghost t = trim_front(cur);
            proof {
                lemma_trim_front_le(cur);
                lemma_trim_front_idempotent(cur);
            }
            match pk {
                Ok(Token::CloseTagStart) | Ok(Token::EOF) => {
                    proof {
                        assert(spec_nodes(cur, nsv, 1) == Some(
                            Ok::<_, ParseErrorV>((nsv, t)),
                        ));
                    }
                    break;
                },
                _ => {},
            }
            proof {
                assert(classify(t) != TokenKind::CloseTagStart && classify(t) != TokenKind::EOF);
            }
            let n = match self.node() {
                Ok(n) => n,
                Err(e) => {
                    proof {
                        let fe = choose|f: nat|
                            spec_node(t, f) == Some(Err::<(NodeV, Seq<char>), _>(e@));
                        assert(spec_nodes(cur, nsv, fe + 1) == Some(
                            Err::<(Seq<NodeV>, Seq<char>), _>(e@),
                        ));
                    }
                    return Err(e);
                },
            };
            proof {
                lemma_nodes_view_push(ns@, n);
            }
            let ghost rest = self.lx@;
            let ghost nv = n@;
            ns.push(n);
            proof {
                let fn_ = choose|f: nat| spec_node(t, f) == Some(Ok::<_, ParseErrorV>((nv, rest)));
                assert forall|f: nat|
                    (#[trigger] spec_nodes(rest, nsv.push(nv), f)) is Some implies exists|f2: nat|
                    spec_nodes(s0, Seq::empty(), f2) == spec_nodes(rest, nsv.push(nv), f) by {
                    let big = if fn_ >= f {
                        fn_ + 1
                    } else {
                        f + 1
                    };
                    crate::grammar::lemma_spec_node_mono(t, fn_, (big - 1) as nat);
                    lemma_spec_nodes_mono(rest, nsv.push(nv), f, (big - 1) as nat);
                    assert(spec_nodes(cur, nsv, big as nat) == spec_nodes(
                        rest,
                        nsv.push(nv),
                        (big - 1) as nat,
                    ));
                    assert(spec_nodes(cur, nsv, big as nat) is Some);
                }
            }
        }
        Ok(ns)
    }

    /// One node: an element when the next token opens a tag, otherwise a
    /// text run up to the next `<` — content that cannot start a tag,
    /// an unknown lexeme included, is taken as text.
    fn node(&mut self) -> (r: ParseResult<'a>)
        ensures
            final(self).lx@.len() <= old(self).lx@.len(),
            (r is Ok && classify(trim_front(old(self).lx@)) != TokenKind::EOF && classify(
                trim_front(old(self).lx@),
            ) != TokenKind::CloseTagStart) ==> final(self).lx@.len() < old(self).lx@.len(),
            match r {
                Ok(n) => exists|f: nat|
                    spec_node(old(self).lx@, f) == Some(
                        Ok::<_, ParseErrorV>((n@, final(self).lx@)),
                    ),
                Err(e) => exists|f: nat|
                    spec_node(old(self).lx@, f) == Some(Err::<(NodeV, Seq<char>), _>(e@)),
            },
        decreases self.lx@.len(), 2int,
    {
        let ghost s0 = self.lx@;
        let ghost t = trim_front(s0);
        proof {
            lemma_trim_front_le(s0);
            lemma_trim_front_idempotent(s0);
        }
        let pk = self.peek();
        match pk {
            Ok(Token::OpenTagStart) => {
                let r = self.element();
                proof {
                    match &r {
                        Ok(n) => {
                            let fe = choose|f: nat|
                                spec_element(t, f) == Some(Ok::<_, ParseErrorV>((n@, self.lx@)));
                            assert(spec_node(s0, fe + 1) == Some(
                                Ok::<_, ParseErrorV>((n@, self.lx@)),
                            ));
                        },
                        Err(e) => {
                            let fe = choose|f: nat|
                                spec_element(t, f) == Some(Err::<(NodeV, Seq<char>), _>(e@));
                            assert(spec_node(s0, fe + 1) == Some(
                                Err::<(NodeV, Seq<char>), _>(e@),
                            ));
                        },
                    }
                }
                r
            },
            _ => {
                // any other upcoming content — an unknown lexeme included —
                // is taken as a text run
                let txt = self.lx.text_till('<');
                proof {
                    lemma_find_char_le(t, '<');
                    if classify(t) != TokenKind::EOF && classify(t) != TokenKind::CloseTagStart {
                        assert(t.len() > 0 && t[0] != '<');
                        assert(find_char(t, '<') >= 1);
                    }
                    assert(spec_node(s0, 1) == Some(
                        Ok::<_, ParseErrorV>(
                            (
                                NodeV {
                                    node_type: NodeTypeV::Text(txt@),
                                    children: Seq::empty(),
                                },
                                self.lx@,
                            ),
                        ),
                    ));
                }
                Ok(text(txt))
            },
        }
    }

    /// An element: `<` IDENT attribute* `>` nodes `</` IDENT `>`. A tag
    /// mismatch is reported only after the whole closing tag has been
    /// consumed.
    fn element(&mut self) -> (r: ParseResult<'a>)
        ensures
            final(self).lx@.len() <= old(self).lx@.len(),
            r is Ok ==> final(self).lx@.len() < old(self).lx@.len(),
            match r {
                Ok(n) => exists|f: nat|
                    spec_element(old(self).lx@, f) == Some(
                        Ok::<_, ParseErrorV>((n@, final(self).lx@)),
                    ),
                Err(e) => exists|f: nat|
                    spec_element(old(self).lx@, f) == Some(Err::<(NodeV, Seq<char>), _>(e@)),
            },
        decreases self.lx@.len(), 1int,
    {
        let ghost s0 = self.lx@;
        if let Err(e) = self.eat(Token::OpenTagStart) {
            proof {
                assert(spec_element(s0, 1) == Some(Err::<(NodeV, Seq<char>), _>(e@)));
            }
            return Err(e);
        }
        let tag_name = match self.eat_ident() {
            Ok(x) => x,
            Err(e) => {
                proof {
                    assert(spec_element(s0, 1) == Some(Err::<(NodeV, Seq<char>), _>(e@)));
                }
                return Err(e);
            },
        };
        let ghost s2 = self.lx@;
        let attrs = match self.attributes() {
            Ok(x) => x,
            Err(e) => {
                proof {
                    let fa = choose|f: nat|
                        spec_attributes(s2, Map::empty(), f) == Some(
                            Err::<(Map<Seq<char>, Seq<char>>, Seq<char>), _>(e@),
                        );
                    assert(spec_element(s0, fa + 1) == Some(Err::<(NodeV, Seq<char>), _>(e@)));
                }
                return Err(e);
            },
        };
        let ghost fa = choose|f: nat|
            spec_attributes(s2, Map::empty(), f) == Some(
                Ok::<_, ParseErrorV>((attrs@, self.lx@)),
            );
        let ghost s3 = self.lx@;
        if let Err(e) = self.eat(Token::TagEnd) {
            proof {
                assert(spec_element(s0, fa + 1) == Some(Err::<(NodeV, Seq<char>), _>(e@)));
            }
            return Err(e);
        }
        let ghost s4 = self.lx@;
        let children = match self.nodes() {
            Ok(x) => x,
            Err(e) => {
                proof {
                    let fn_ = choose|f: nat|
                        spec_nodes(s4, Seq::empty(), f) == Some(
                            Err::<(Seq<NodeV>, Seq<char>), _>(e@),
                        );
                    let big = if fa >= fn_ {
                        fa + 1
                    } else {
                        fn_ + 1
                    };
                    lemma_spec_attributes_mono(s2, Map::empty(), fa, (big - 1) as nat);
                    lemma_spec_nodes_mono(s4, Seq::empty(), fn_, (big - 1) as nat);
                    assert(spec_element(s0, big as nat) == Some(
                        Err::<(NodeV, Seq<char>), _>(e@),
                    ));
                }
                return Err(e);
            },
        };
        let ghost fn_ = choose|f: nat|
            spec_nodes(s4, Seq::empty(), f) == Some(
                Ok::<_, ParseErrorV>((nodes_view(children@), self.lx@)),
            );
        let ghost big = (if fa >= fn_ {
            fa + 1
        } else {
            fn_ + 1
        }) as nat;
        proof {
            lemma_spec_attributes_mono(s2, Map::empty(), fa, (big - 1) as nat);
            lemma_spec_nodes_mono(s4, Seq::empty(), fn_, (big - 1) as nat);
        }
        if let Err(e) = self.eat(Token::CloseTagStart) {
            proof {
                assert(spec_element(s0, big) == Some(Err::<(NodeV, Seq<char>), _>(e@)));
            }
            return Err(e);
        }
        let close_tag_name = match self.eat_ident() {
            Ok(x) => x,
            Err(e) => {
                proof {
                    assert(spec_element(s0, big) == Some(Err::<(NodeV, Seq<char>), _>(e@)));
                }
                return Err(e);
            },
        };
        if let Err(e) = self.eat(Token::TagEnd) {
            proof {
                assert(spec_element(s0, big) == Some(Err::<(NodeV, Seq<char>), _>(e@)));
            }
            return Err(e);
        }
        if !str_eq(tag_name, close_tag_name) {
            let e = ParseError::TagMismatch { opened: tag_name, closed: close_tag_name };
            proof {
                assert(spec_element(s0, big) == Some(Err::<(NodeV, Seq<char>), _>(e@)));
            }
            Err(e)
        } else {
            let n = elem(tag_name, attrs, children);
            proof {
                assert(spec_element(s0, big) == Some(Ok::<_, ParseErrorV>((n@, self.lx@))));
            }
            Ok(n)
        }
    }

    /// Zero or more attributes, until the next token is tag-end or end of
    /// input. A later binding of an attribute name overwrites an earlier
    /// one.
    fn attributes(&mut self) -> (r: Result<AttrMap<'a>, ParseError<'a>>)
        ensures
            final(self).lx@.len() <= old(self).lx@.len(),
            match r {
                Ok(m) => m.wf() && exists|f: nat|
                    spec_attributes(old(self).lx@, Map::empty(), f) == Some(
                        Ok::<_, ParseErrorV>((m@, final(self).lx@)),
                    ),
                Err(e) => exists|f: nat|
                    spec_attributes(old(self).lx@, Map::empty(), f) == Some(
                        Err::<(Map<Seq<char>, Seq<char>>, Seq<char>), _>(e@),
                    ),
            },
    {
        let ghost s0 = self.lx@;
        let mut attrs = AttrMap::new();
        loop
            invariant
                s0 == old(self).lx@,
                self.lx@.len() <= s0.len(),
                attrs.wf(),
                forall|f: nat|
                    (#[trigger] spec_attributes(self.lx@, attrs@, f)) is Some ==> exists|f2: nat|
                        spec_attributes(s0, Map::empty(), f2) == spec_attributes(
                            self.lx@,
                            attrs@,
                            f,
                        ),
            ensures
                self.lx@.len() <= s0.len(),
                attrs.wf(),
                exists|f2: nat|
                    spec_attributes(s0, Map::empty(), f2) == Some(
                        Ok::<_, ParseErrorV>((attrs@, self.lx@)),
                    ),
            decreases self.lx@.len(),
        {
            let ghost cur = self.lx@;
            let ghost av = attrs@;
            let ghost t = trim_front(cur);
            proof {
                lemma_trim_front_le(cur);
                lemma_trim_front_idempotent(cur);
            }
            let pk = match self.peek() {
                Ok(x) => x,
                Err(e) => {
                    proof {
                        assert(spec_attributes(cur, av, 1) == Some(
                            Err::<(Map<Seq<char>, Seq<char>>, Seq<char>), _>(e@),
                        ));
                    }
                    return Err(e);
                },
            };
            match pk {
                Token::TagEnd | Token::EOF => {
                    proof {
                        assert(spec_attributes(cur, av, 1) == Some(
                            Ok::<_, ParseErrorV>((av, t)),
                        ));
                    }
                    break;
                },
                _ => {},
            }
            let (k, v) = match self.attribute() {
                Ok(kv) => kv,
                Err(e) => {
                    proof {
                        assert(spec_attribute(t) == Err::<
                            ((Seq<char>, Seq<char>), Seq<char>),
                            _,
                        >(e@));
                        assert(spec_attributes(cur, av, 1) == Some(
                            Err::<(Map<Seq<char>, Seq<char>>, Seq<char>), _>(e@),
                        ));
                    }
                    return Err(e);
                },
            };
            let ghost rest = self.lx@;
            attrs.insert(k, v);
            proof {
                assert forall|f: nat|
                    (#[trigger] spec_attributes(rest, av.insert(k@, v@), f)) is Some implies exists|
                    f2: nat,
                |
                    spec_attributes(s0, Map::empty(), f2) == spec_attributes(
                        rest,
                        av.insert(k@, v@),
                        f,
                    ) by {
                    assert(spec_attributes(cur, av, f + 1) == spec_attributes(
                        rest,
                        av.insert(k@, v@),
                        f,
                    ));
                    assert(spec_attributes(cur, av, f + 1) is Some);
                }
            }
        }
        Ok(attrs)
    }

    /// One attribute: a name, then optionally `=` and a quoted value; a
    /// name alone gets the empty string as value.
    fn attribute(&mut self) -> (r: Result<(&'a str, &'a str), ParseError<'a>>)
        ensures
            final(self).lx@.len() <= old(self).lx@.len(),
            r is Ok ==> final(self).lx@.len() < old(self).lx@.len(),
            match (r, spec_attribute(old(self).lx@)) {
                (Ok(kv), Ok(p)) => kv.0@ == p.0.0 && kv.1@ == p.0.1 && final(self).lx@ == p.1,
                (Err(e), Err(ev)) => e@ == ev,
                _ => false,
            },
    {
        let ghost s0 = self.lx@;
        let attr_name = match self.eat_ident() {
            Ok(x) => x,
            Err(e) => {
                return Err(e);
            },
        };
        let ghost s1 = self.lx@;
        let ghost t1 = trim_front(s1);
        proof {
            lemma_trim_front_le(s1);
            lemma_trim_front_idempotent(s1);
        }
        let pk = match self.peek() {
            Ok(x) => x,
            Err(e) => {
                return Err(e);
            },
        };
        if let Token::Equals = pk {
            if let Err(e) = self.eat(Token::Equals) {
                return Err(e);
            }
            let ghost s2 = self.lx@;
            if let Err(e) = self.eat(Token::Quote) {
                return Err(e);
            }
            let ghost s3 = self.lx@;
            let ghost t3 = trim_front(s3);
            proof {
                lemma_trim_front_le(s3);
                lemma_find_char_le(t3, '"');
            }
            let attr_value = self.lx.text_till('"');
            if let Err(e) = self.eat(Token::Quote) {
                return Err(e);
            }
            Ok((attr_name, attr_value))
        } else {
            proof {
                reveal_strlit("");
                assert(""@ =~= Seq::<char>::empty());
            }
            Ok((attr_name, ""))
        }
    }

    /// Read the next token and require it to be of `expected`'s kind; on
    /// a mismatch the offending token has already been consumed.
    fn eat(&mut self, expected: Token<'a>) -> (r: Result<Token<'a>, ParseError<'a>>)
        ensures
            final(self).lx@.len() <= old(self).lx@.len(),
            (r is Ok && expected.kind() != TokenKind::EOF) ==> final(self).lx@.len() < old(
                self,
            ).lx@.len(),
            match (r, spec_eat(old(self).lx@, expected@)) {
                (Ok(g), Ok(p)) => g@ == p.0 && final(self).lx@ == p.1,
                (Err(e), Err(ev)) => e@ == ev,
                _ => false,
            },
    {
        let ghost s0 = self.lx@;
        proof {
            lemma_trim_front_le(s0);
        }
        let src = self.lx.remainder();
        let got = match self.next_token() {
            Ok(g) => g,
            Err(e) => {
                return Err(e);
            },
        };
        if got.same_type(&expected) {
            Ok(got)
        } else {
            Err(ParseError::UnexpectedToken { expected, got, src })
        }
    }

    /// Read the next token and require an identifier; yields its payload.
    fn eat_ident(&mut self) -> (r: Result<&'a str, ParseError<'a>>)
        ensures
            final(self).lx@.len() <= old(self).lx@.len(),
            r is Ok ==> final(self).lx@.len() < old(self).lx@.len(),
            match (r, spec_eat_ident(old(self).lx@)) {
                (Ok(id), Ok(p)) => id@ == p.0 && final(self).lx@ == p.1,
                (Err(e), Err(ev)) => e@ == ev,
                _ => false,
            },
    {
        let ghost s0 = self.lx@;
        proof {
            lemma_trim_front_le(s0);
            lemma_ident_len_le(trim_front(s0));
        }
        let src = self.lx.remainder();
        match self.next_token() {
            Err(e) => Err(e),
            Ok(t) => match t {
                Token::Identifier(id) => Ok(id),
                got => {
                    proof {
                        reveal_strlit("");
                        assert(""@ =~= Seq::<char>::empty());
                    }
                    Err(
                        ParseError::UnexpectedToken {
                            got,
                            expected: Token::Identifier(""),
                            src,
                        },
                    )
                },
            },
        }
    }

    /// The lexer's next token, its error wrapped as a parse error.
    fn next_token(&mut self) -> (r: Result<Token<'a>, ParseError<'a>>)
        ensures
            final(self).lx@.len() <= old(self).lx@.len(),
            ({
                let t = trim_front(old(self).lx@);
                match r {
                    Ok(tok) => {
                        &&& tok.kind() == classify(t)
                        &&& final(self).lx@ == t.skip(take_len(t, tok.kind()) as int)
                        &&& (tok matches Token::Identifier(p) ==> p@ == t.take(
                            ident_len(t) as int,
                        ))
                        &&& (tok.kind() != TokenKind::EOF ==> final(self).lx@.len() < t.len())
                    },
                    Err(e) => {
                        &&& classify(t) == TokenKind::Unknown
                        &&& e@ == ParseErrorV::LexerError(t)
                        &&& final(self).lx@ == t
                    },
                }
            }),
    {
        proof {
            lemma_trim_front_le(self.lx@);
        }
        match self.lx.next() {
            Ok(t) => Ok(t),
            Err(e) => Err(ParseError::LexerError(e)),
        }
    }

    /// The lexer's next token without consuming it, its error wrapped as
    /// a parse error.
    fn peek(&mut self) -> (r: Result<Token<'a>, ParseError<'a>>)
        ensures
            final(self).lx@ == trim_front(old(self).lx@),
            final(self).lx@.len() <= old(self).lx@.len(),
            match r {
                Ok(t) => t.kind() == classify(trim_front(old(self).lx@)),
                Err(e) => classify(trim_front(old(self).lx@)) == TokenKind::Unknown && e@
                    == ParseErrorV::LexerError(trim_front(old(self).lx@)),
            },
    {
        proof {
            lemma_trim_front_le(self.lx@);
        }
        match self.lx.peek() {
            Ok(t) => Ok(t),
            Err(e) => Err(ParseError::LexerError(e)),
        }
    }
}

} // verus!
