//! The grammar, as spec functions.
//!
//! These functions are the mathematical account of what the parser does:
//! a recursive descent over the remaining source text, each function
//! returning the value it builds and the text it leaves behind, or the
//! parse error it stops on. Recursion is bounded by an explicit fuel
//! parameter; `None` means the fuel ran out before the descent finished.
//! The result is independent of the fuel wherever fuel is enough
//! (`lemma_spec_node_mono` and its companions), so `parses_to` below pins
//! one result for each input.
use vstd::prelude::*;
use crate::token::{TokenKind, TokenV};
use crate::dom::{ElementDataV, NodeTypeV, NodeV};
use crate::chars::is_ws;
use crate::lexer::{classify, find_char, ident_len, take_len, trim_back, trim_front};

verus! {

/// The value of a parse error: one of the three failure kinds.
pub enum ParseErrorV {
    /// The lexer found a character that cannot start a token; carries the
    /// trimmed remainder.
    LexerError(Seq<char>),
    /// The grammar required one token kind and got another; carries the
    /// expectation, the token read, and the source as it stood before it
    /// was read.
    UnexpectedToken { expected: TokenV, got: TokenV, src: Seq<char> },
    /// A closing tag name differs from the opening one.
    TagMismatch { opened: Seq<char>, closed: Seq<char> },
}

/// The token that consuming from trimmed text `t` yields: identifiers get
/// their maximal alphanumeric run as payload.
pub open spec fn realized(t: Seq<char>) -> TokenV {
    match classify(t) {
        TokenKind::OpenTagStart => TokenV::OpenTagStart,
        TokenKind::CloseTagStart => TokenV::CloseTagStart,
        TokenKind::TagEnd => TokenV::TagEnd,
        TokenKind::Quote => TokenV::Quote,
        TokenKind::Equals => TokenV::Equals,
        TokenKind::Identifier => TokenV::Identifier(t.take(ident_len(t) as int)),
        TokenKind::EOF => TokenV::EOF,
        TokenKind::Unknown => vstd::pervasive::arbitrary(),
    }
}

/// Read one token and require it to be of `expected`'s kind: the source
/// snapshot for diagnostics is taken before the token is read, and the
/// token is consumed even when its kind is wrong.
pub open spec fn spec_eat(s: Seq<char>, expected: TokenV) -> Result<
    (TokenV, Seq<char>),
    ParseErrorV,
> {
    let t = trim_front(s);
    let k = classify(t);
    if k == TokenKind::Unknown {
        Err(ParseErrorV::LexerError(t))
    } else {
        let got = realized(t);
        let rest = t.skip(take_len(t, k) as int);
        if got.kind() == expected.kind() {
            Ok((got, rest))
        } else {
            Err(ParseErrorV::UnexpectedToken { expected, got, src: s })
        }
    }
}

/// Read one token and require an identifier; yields its payload.
pub open spec fn spec_eat_ident(s: Seq<char>) -> Result<(Seq<char>, Seq<char>), ParseErrorV> {
    let t = trim_front(s);
    let k = classify(t);
    if k == TokenKind::Unknown {
        Err(ParseErrorV::LexerError(t))
    } else if k == TokenKind::Identifier {
        Ok((t.take(ident_len(t) as int), t.skip(ident_len(t) as int)))
    } else {
        Err(
            ParseErrorV::UnexpectedToken {
                expected: TokenV::Identifier(Seq::empty()),
                got: realized(t),
                src: s,
            },
        )
    }
}

/// One attribute: a name, then optionally `=` and a quoted value; without
/// `=` the value defaults to the empty string.
pub open spec fn spec_attribute(s: Seq<char>) -> Result<
    ((Seq<char>, Seq<char>), Seq<char>),
    ParseErrorV,
> {
    match spec_eat_ident(s) {
        Err(e) => Err(e),
        Ok((name, s1)) => {
            let t1 = trim_front(s1);
            if classify(t1) == TokenKind::Unknown {
                Err(ParseErrorV::LexerError(t1))
            } else if classify(t1) == TokenKind::Equals {
                match spec_eat(t1, TokenV::Equals) {
                    Err(e) => Err(e),
                    Ok((g1, s2)) => match spec_eat(s2, TokenV::Quote) {
                        Err(e) => Err(e),
                        Ok((g2, s3)) => {
                            let t3 = trim_front(s3);
                            let n = find_char(t3, '"') as int;
                            let value = trim_back(t3.take(n));
                            let s4 = t3.skip(n);
                            match spec_eat(s4, TokenV::Quote) {
                                Err(e) => Err(e),
                                Ok((g3, s5)) => Ok(((name, value), s5)),
                            }
                        },
                    },
                }
            } else {
                Ok(((name, Seq::empty()), t1))
            }
        },
    }
}

/// Zero or more attributes, accumulated into `acc`, until the next token
/// is tag-end or end of input. A later binding of a name wins.
pub open spec fn spec_attributes(
    s: Seq<char>,
    acc: Map<Seq<char>, Seq<char>>,
    fuel: nat,
) -> Option<Result<(Map<Seq<char>, Seq<char>>, Seq<char>), ParseErrorV>>
    decreases fuel,
{
    if fuel == 0 {
        None
    } else {
        let t = trim_front(s);
        let k = classify(t);
        if k == TokenKind::Unknown {
            Some(Err(ParseErrorV::LexerError(t)))
        } else if k == TokenKind::TagEnd || k == TokenKind::EOF {
            Some(Ok((acc, t)))
        } else {
            match spec_attribute(t) {
                Err(e) => Some(Err(e)),
                Ok(((name, value), rest)) => spec_attributes(
                    rest,
                    acc.insert(name, value),
                    (fuel - 1) as nat,
                ),
            }
        }
    }
}

/// One node: an element if the next token is open-tag-start, otherwise a
/// text run up to the next `<` — any content that cannot start a tag,
/// an unknown lexeme included, is taken as text.
pub open spec fn spec_node(s: Seq<char>, fuel: nat) -> Option<
    Result<(NodeV, Seq<char>), ParseErrorV>,
>
    decreases fuel,
{
    if fuel == 0 {
        None
    } else {
        let t = trim_front(s);
        if classify(t) == TokenKind::OpenTagStart {
            spec_element(t, (fuel - 1) as nat)
        } else {
            let n = find_char(t, '<') as int;
            Some(
                Ok(
                    (
                        NodeV {
                            node_type: NodeTypeV::Text(trim_back(t.take(n))),
                            children: Seq::empty(),
                        },
                        t.skip(n),
                    ),
                ),
            )
        }
    }
}

/// An element: `<` IDENT attribute* `>` nodes `</` IDENT `>`, failing
/// with a tag mismatch — after the whole closing tag has been consumed —
/// when the two names differ.
pub open spec fn spec_element(s: Seq<char>, fuel: nat) -> Option<
    Result<(NodeV, Seq<char>), ParseErrorV>,
>
    decreases fuel,
{
    if fuel == 0 {
        None
    } else {
        match spec_eat(s, TokenV::OpenTagStart) {
            Err(e) => Some(Err(e)),
            Ok((g0, s1)) => match spec_eat_ident(s1) {
                Err(e) => Some(Err(e)),
                Ok((tag, s2)) => match spec_attributes(s2, Map::empty(), (fuel - 1) as nat) {
                    None => None,
                    Some(Err(e)) => Some(Err(e)),
                    Some(Ok((attrs, s3))) => match spec_eat(s3, TokenV::TagEnd) {
                        Err(e) => Some(Err(e)),
                        Ok((g1, s4)) => match spec_nodes(s4, Seq::empty(), (fuel - 1) as nat) {
                            None => None,
                            Some(Err(e)) => Some(Err(e)),
                            Some(Ok((children, s5))) => match spec_eat(
                                s5,
                                TokenV::CloseTagStart,
                            ) {
                                Err(e) => Some(Err(e)),
                                Ok((g2, s6)) => match spec_eat_ident(s6) {
                                    Err(e) => Some(Err(e)),
                                    Ok((ctag, s7)) => match spec_eat(s7, TokenV::TagEnd) {
                                        Err(e) => Some(Err(e)),
                                        Ok((g3, s8)) => if tag != ctag {
                                            Some(
                                                Err(
                                                    ParseErrorV::TagMismatch {
                                                        opened: tag,
                                                        closed: ctag,
                                                    },
                                                ),
                                            )
                                        } else {
                                            Some(
                                                Ok(
                                                    (
                                                        NodeV {
                                                            node_type: NodeTypeV::Element(
                                                                ElementDataV {
                                                                    tag_name: tag,
                                                                    attributes: attrs,
                                                                },
                                                            ),
                                                            children,
                                                        },
                                                        s8,
                                                    ),
                                                ),
                                            )
                                        },
                                    },
                                },
                            },
                        },
                    },
                },
            },
        }
    }
}

/// A sequence of nodes, accumulated into `acc`, until the next token is
/// close-tag-start or end of input.
pub open spec fn spec_nodes(s: Seq<char>, acc: Seq<NodeV>, fuel: nat) -> Option<
    Result<(Seq<NodeV>, Seq<char>), ParseErrorV>,
>
    decreases fuel,
{
    if fuel == 0 {
        None
    } else {
        let t = trim_front(s);
        let k = classify(t);
        if k == TokenKind::CloseTagStart || k == TokenKind::EOF {
            Some(Ok((acc, t)))
        } else {
            match spec_node(t, (fuel - 1) as nat) {
                None => None,
                Some(Err(e)) => Some(Err(e)),
                Some(Ok((nv, rest))) => spec_nodes(rest, acc.push(nv), (fuel - 1) as nat),
            }
        }
    }
}

/// The whole document: one node parsed from the top; text that follows
/// the root node is left unread.
pub open spec fn spec_parse(s: Seq<char>, fuel: nat) -> Option<Result<NodeV, ParseErrorV>> {
    match spec_node(s, fuel) {
        None => None,
        Some(Ok((nv, rest))) => Some(Ok(nv)),
        Some(Err(e)) => Some(Err(e)),
    }
}

/// What `parse` returns on source text `s`: the descent, run with enough
/// fuel, yields `r`. By `lemma_parses_to_deterministic` there is at most
/// one such `r` for each `s`.
pub open spec fn parses_to(s: Seq<char>, r: Result<NodeV, ParseErrorV>) -> bool {
    exists|fuel: nat| spec_parse(s, fuel) == Some(r)
}

/// Once the descent finishes within some fuel, more fuel returns the very
/// same result.
pub proof fn lemma_spec_node_mono(s: Seq<char>, f1: nat, f2: nat)
    requires
        f1 <= f2,
        spec_node(s, f1) is Some,
    ensures
        spec_node(s, f2) == spec_node(s, f1),
    decreases f1,
{
    let t = trim_front(s);
    if classify(t) == TokenKind::OpenTagStart {
        lemma_spec_element_mono(t, (f1 - 1) as nat, (f2 - 1) as nat);
    }
}

/// Fuel-independence for elements.
pub proof fn lemma_spec_element_mono(s: Seq<char>, f1: nat, f2: nat)
    requires
        f1 <= f2,
        spec_element(s, f1) is Some,
    ensures
        spec_element(s, f2) == spec_element(s, f1),
    decreases f1,
{
    match spec_eat(s, TokenV::OpenTagStart) {
        Err(e) => {},
        Ok((g0, s1)) => match spec_eat_ident(s1) {
            Err(e) => {},
            Ok((tag, s2)) => {
                lemma_spec_attributes_mono(s2, Map::empty(), (f1 - 1) as nat, (f2 - 1) as nat);
                match spec_attributes(s2, Map::empty(), (f1 - 1) as nat) {
                    None => {},
                    Some(Err(e)) => {},
                    Some(Ok((attrs, s3))) => match spec_eat(s3, TokenV::TagEnd) {
                        Err(e) => {},
                        Ok((g1, s4)) => {
                            lemma_spec_nodes_mono(
                                s4,
                                Seq::empty(),
                                (f1 - 1) as nat,
                                (f2 - 1) as nat,
                            );
                        },
                    },
                }
            },
        },
    }
}

/// Fuel-independence for attribute lists.
pub proof fn lemma_spec_attributes_mono(
    s: Seq<char>,
    acc: Map<Seq<char>, Seq<char>>,
    f1: nat,
    f2: nat,
)
    requires
        f1 <= f2,
        spec_attributes(s, acc, f1) is Some,
    ensures
        spec_attributes(s, acc, f2) == spec_attributes(s, acc, f1),
    decreases f1,
{
    let t = trim_front(s);
    let k = classify(t);
    if k != TokenKind::Unknown && k != TokenKind::TagEnd && k != TokenKind::EOF {
        match spec_attribute(t) {
            Err(e) => {},
            Ok(((name, value), rest)) => {
                lemma_spec_attributes_mono(
                    rest,
                    acc.insert(name, value),
                    (f1 - 1) as nat,
                    (f2 - 1) as nat,
                );
            },
        }
    }
}

/// Fuel-independence for node sequences.
pub proof fn lemma_spec_nodes_mono(s: Seq<char>, acc: Seq<NodeV>, f1: nat, f2: nat)
    requires
        f1 <= f2,
        spec_nodes(s, acc, f1) is Some,
    ensures
        spec_nodes(s, acc, f2) == spec_nodes(s, acc, f1),
    decreases f1,
{
    let t = trim_front(s);
    let k = classify(t);
    if !(k == TokenKind::CloseTagStart || k == TokenKind::EOF) {
        lemma_spec_node_mono(t, (f1 - 1) as nat, (f2 - 1) as nat);
        match spec_node(t, (f1 - 1) as nat) {
            None => {},
            Some(Err(e)) => {},
            Some(Ok((nv, rest))) => {
                lemma_spec_nodes_mono(rest, acc.push(nv), (f1 - 1) as nat, (f2 - 1) as nat);
            },
        }
    }
}

/// Leading whitespace does not affect the parse: the descent starts with
/// a trim, and trimming is idempotent.
pub proof fn lemma_parses_to_ignores_leading_ws(s: Seq<char>, r: Result<NodeV, ParseErrorV>)
    ensures
        parses_to(s, r) <==> parses_to(trim_front(s), r),
{
    crate::lexer::lemma_trim_front_idempotent(s);
    assert forall|fuel: nat| #[trigger]
        spec_node(s, fuel) == spec_node(trim_front(s), fuel) by {
        if fuel > 0 {
            assert(trim_front(trim_front(s)) == trim_front(s));
        }
    }
    if parses_to(s, r) {
        let f = choose|fuel: nat| spec_parse(s, fuel) == Some(r);
        assert(spec_parse(trim_front(s), f) == Some(r));
    }
    if parses_to(trim_front(s), r) {
        let f = choose|fuel: nat| spec_parse(trim_front(s), fuel) == Some(r);
        assert(spec_parse(s, f) == Some(r));
    }
}

/// Prepending whitespace trims away entirely.
proof fn lemma_trim_front_ws_prefix(w: Seq<char>, s: Seq<char>)
    requires
        forall|i: int| 0 <= i < w.len() ==> is_ws(w[i]),
    ensures
        trim_front(w + s) == trim_front(s),
    decreases w.len(),
{
    if w.len() == 0 {
        assert(w + s =~= s);
    } else {
        assert((w + s)[0] == w[0]);
        assert((w + s).drop_first() =~= w.drop_first() + s);
        lemma_trim_front_ws_prefix(w.drop_first(), s);
    }
}

/// Whitespace added in front of a document does not affect the parse:
/// the document `w + s`, for any all-whitespace `w`, parses exactly as
/// `s` does.
pub proof fn lemma_parses_to_ignores_ws_prefix(
    w: Seq<char>,
    s: Seq<char>,
    r: Result<NodeV, ParseErrorV>,
)
    requires
        forall|i: int| 0 <= i < w.len() ==> is_ws(w[i]),
    ensures
        parses_to(w + s, r) <==> parses_to(s, r),
{
    lemma_trim_front_ws_prefix(w, s);
    lemma_parses_to_ignores_leading_ws(w + s, r);
    lemma_parses_to_ignores_leading_ws(s, r);
}

/// A text run that may stand among an element's children: nonempty, with
/// neither leading nor trailing whitespace.
pub open spec fn tidy_text(t: Seq<char>) -> bool {
    t.len() > 0 && !is_ws(t[0]) && !is_ws(t.last())
}

/// The first `i` nodes of a sequence are all tidy (see `tidy_node`).
pub open spec fn tidy_upto(s: Seq<NodeV>, i: int) -> bool
    decreases s, i, 1int,
{
    if 0 < i <= s.len() {
        tidy_upto(s, i - 1) && tidy_node(s[i - 1])
    } else {
        true
    }
}

/// A node fit to stand in a children sequence: if it is text, the run is
/// tidy, and its own children are tidy in turn.
pub open spec fn tidy_node(nv: NodeV) -> bool
    decreases nv, 0int, 0int,
{
    &&& (nv.node_type matches NodeTypeV::Text(t) ==> tidy_text(t))
    &&& tidy_upto(nv.children, nv.children.len() as int)
}

/// Every text node among `nv`'s children, at any depth, is a tidy run:
/// whitespace between tags never becomes a text node.
pub open spec fn tidy_children(nv: NodeV) -> bool {
    tidy_upto(nv.children, nv.children.len() as int)
}

proof fn lemma_tidy_upto_push(s: Seq<NodeV>, nv: NodeV, i: int)
    requires
        0 <= i <= s.len(),
    ensures
        tidy_upto(s.push(nv), i) == tidy_upto(s, i),
    decreases i,
{
    if i > 0 {
        lemma_tidy_upto_push(s, nv, i - 1);
    }
}

proof fn lemma_spec_node_tidy(s: Seq<char>, f: nat)
    ensures
        spec_node(s, f) matches Some(Ok((nv, rest))) ==> {
            &&& tidy_children(nv)
            &&& (nv.node_type matches NodeTypeV::Text(t) ==> t.len() == 0 || tidy_text(t))
            &&& (classify(trim_front(s)) != TokenKind::CloseTagStart && classify(trim_front(s))
                != TokenKind::EOF ==> (nv.node_type matches NodeTypeV::Text(t) ==> tidy_text(t)))
        },
    decreases f,
{
    if f > 0 {
        let t = trim_front(s);
        if classify(t) == TokenKind::OpenTagStart {
            lemma_spec_element_tidy(t, (f - 1) as nat);
        } else {
            crate::lexer::lemma_trim_front_no_leading_ws(s);
            crate::lexer::lemma_find_char_le(t, '<');
            let n = find_char(t, '<') as int;
            let run = t.take(n);
            crate::lexer::lemma_trim_back_shape(run);
            if classify(t) != TokenKind::CloseTagStart && classify(t) != TokenKind::EOF {
                assert(t.len() > 0 && t[0] != '<');
                assert(n >= 1);
                assert(run[0] == t[0]);
            }
        }
    }
}

proof fn lemma_spec_element_tidy(s: Seq<char>, f: nat)
    ensures
        spec_element(s, f) matches Some(Ok((nv, rest))) ==> tidy_node(nv),
    decreases f,
{
    if f > 0 {
        match spec_eat(s, TokenV::OpenTagStart) {
            Err(e) => {},
            Ok((g0, s1)) => match spec_eat_ident(s1) {
                Err(e) => {},
                Ok((tag, s2)) => match spec_attributes(s2, Map::empty(), (f - 1) as nat) {
                    None => {},
                    Some(Err(e)) => {},
                    Some(Ok((attrs, s3))) => match spec_eat(s3, TokenV::TagEnd) {
                        Err(e) => {},
                        Ok((g1, s4)) => {
                            lemma_spec_nodes_tidy(s4, Seq::empty(), (f - 1) as nat);
                            match spec_nodes(s4, Seq::empty(), (f - 1) as nat) {
                                None => {},
                                Some(Err(e)) => {},
                                Some(Ok((children, s5))) => {
                                    let nv = NodeV {
                                        node_type: NodeTypeV::Element(
                                            ElementDataV { tag_name: tag, attributes: attrs },
                                        ),
                                        children,
                                    };
                                    assert(tidy_node(nv));
                                },
                            }
                        },
                    },
                },
            },
        }
    }
}

proof fn lemma_spec_nodes_tidy(s: Seq<char>, acc: Seq<NodeV>, f: nat)
    requires
        tidy_upto(acc, acc.len() as int),
    ensures
        spec_nodes(s, acc, f) matches Some(Ok((nvs, rest))) ==> tidy_upto(nvs, nvs.len() as int),
    decreases f,
{
    if f > 0 {
        let t = trim_front(s);
        let k = classify(t);
        if !(k == TokenKind::CloseTagStart || k == TokenKind::EOF) {
            lemma_spec_node_tidy(t, (f - 1) as nat);
            crate::lexer::lemma_trim_front_idempotent(s);
            match spec_node(t, (f - 1) as nat) {
                None => {},
                Some(Err(e)) => {},
                Some(Ok((nv, rest))) => {
                    assert(tidy_node(nv));
                    lemma_tidy_upto_push(acc, nv, acc.len() as int);
                    assert(tidy_upto(acc.push(nv), acc.push(nv).len() as int));
                    lemma_spec_nodes_tidy(rest, acc.push(nv), (f - 1) as nat);
                },
            }
        }
    }
}

/// Whitespace insensitivity of the tree: in a parsed document, every
/// text node below the root is nonempty and carries no leading or
/// trailing whitespace — whitespace-only runs between tags yield no
/// node at all. The root itself, when it is text, is trimmed the same
/// way but may be empty.
pub proof fn lemma_parse_text_runs_tidy(s: Seq<char>, nv: NodeV)
    requires
        parses_to(s, Ok(nv)),
    ensures
        tidy_children(nv),
        nv.node_type matches NodeTypeV::Text(t) ==> t.len() == 0 || tidy_text(t),
{
    let f = choose|fuel: nat| spec_parse(s, fuel) == Some(Ok::<NodeV, ParseErrorV>(nv));
    lemma_spec_node_tidy(s, f);
}

/// The grammar is deterministic: one input parses to at most one result.
pub proof fn lemma_parses_to_deterministic(
    s: Seq<char>,
    r1: Result<NodeV, ParseErrorV>,
    r2: Result<NodeV, ParseErrorV>,
)
    requires
        parses_to(s, r1),
        parses_to(s, r2),
    ensures
        r1 == r2,
{
    let f1 = choose|fuel: nat| spec_parse(s, fuel) == Some(r1);
    let f2 = choose|fuel: nat| spec_parse(s, fuel) == Some(r2);
    if f1 <= f2 {
        lemma_spec_node_mono(s, f1, f2);
    } else {
        lemma_spec_node_mono(s, f2, f1);
    }
}

} // verus!
