//! The lexer: a cursor over the remaining source text that produces
//! tokens on demand and extracts raw text runs.
//!
//! The spec functions here are the mathematical model of scanning:
//! whitespace trimming, token classification, identifier and search
//! lengths. Every lexer operation is specified in terms of them.
use vstd::prelude::*;
use crate::chars::{
    char_is_alphabetic, char_is_alphanumeric, char_is_whitespace, is_alnum, is_alpha, is_ws,
};
use crate::token::{Token, TokenKind};
use vstd::string::StrSliceExecFns;

verus! {

/// `s` with its leading whitespace removed.
pub open spec fn trim_front(s: Seq<char>) -> Seq<char>
    decreases s.len(),
{
    if s.len() > 0 && is_ws(s[0]) {
        trim_front(s.drop_first())
    } else {
        s
    }
}

/// `s` with its trailing whitespace removed.
pub open spec fn trim_back(s: Seq<char>) -> Seq<char>
    decreases s.len(),
{
    if s.len() > 0 && is_ws(s.last()) {
        trim_back(s.drop_last())
    } else {
        s
    }
}

/// The length of the maximal alphanumeric prefix of `s`: the identifier
/// that starts at the cursor.
pub open spec fn ident_len(s: Seq<char>) -> nat
    decreases s.len(),
{
    if s.len() > 0 && is_alnum(s[0]) {
        1 + ident_len(s.drop_first())
    } else {
        0
    }
}

/// The index of the first occurrence of `c` in `s`, or `s.len()` when `c`
/// does not occur.
pub open spec fn find_char(s: Seq<char>, c: char) -> nat
    decreases s.len(),
{
    if s.len() == 0 {
        0
    } else if s[0] == c {
        0
    } else {
        1 + find_char(s.drop_first(), c)
    }
}

/// The kind of the token that starts `s`, assuming leading whitespace has
/// already been removed. `Unknown` when no token can start there.
pub open spec fn classify(s: Seq<char>) -> TokenKind {
    if s.len() == 0 {
        TokenKind::EOF
    } else if s[0] == '<' {
        if s.len() >= 2 && s[1] == '/' {
            TokenKind::CloseTagStart
        } else {
            TokenKind::OpenTagStart
        }
    } else if s[0] == '>' {
        TokenKind::TagEnd
    } else if s[0] == '"' {
        TokenKind::Quote
    } else if s[0] == '=' {
        TokenKind::Equals
    } else if is_alpha(s[0]) {
        TokenKind::Identifier
    } else {
        TokenKind::Unknown
    }
}

/// How many characters consuming a token of kind `k` removes from the
/// front of `s` (already trimmed).
pub open spec fn take_len(s: Seq<char>, k: TokenKind) -> nat {
    match k {
        TokenKind::EOF => 0,
        TokenKind::Unknown => 0,
        TokenKind::CloseTagStart => 2,
        TokenKind::Identifier => ident_len(s),
        _ => 1,
    }
}

/// Trimming is a suffix: dropping exactly the leading run of whitespace.
proof fn lemma_trim_front_skip(s: Seq<char>, i: int)
    requires
        0 <= i <= s.len(),
        forall|j: int| 0 <= j < i ==> is_ws(s[j]),
        i == s.len() || !is_ws(s[i]),
    ensures
        trim_front(s) == s.skip(i),
    decreases i,
{
    if i == 0 {
        assert(s.skip(0) =~= s);
    } else {
        lemma_trim_front_skip(s.drop_first(), i - 1);
        assert(s.drop_first().skip(i - 1) =~= s.skip(i));
    }
}

/// The whitespace trim in `peek` is idempotent: a second peek without an
/// intervening consume sees the same source, hence the same token.
pub proof fn lemma_trim_front_idempotent(s: Seq<char>)
    ensures
        trim_front(trim_front(s)) == trim_front(s),
    decreases s.len(),
{
    if s.len() > 0 && is_ws(s[0]) {
        lemma_trim_front_idempotent(s.drop_first());
    }
}

/// Peeking twice without an intervening consume returns the same token
/// both times: `peek`'s one state effect is the whitespace trim, trimming
/// again moves nothing, and the classification — hence the token kind
/// returned, as `peek`'s contract states — is unchanged.
pub proof fn lemma_peek_idempotent(s: Seq<char>)
    ensures
        trim_front(trim_front(s)) == trim_front(s),
        classify(trim_front(trim_front(s))) == classify(trim_front(s)),
{
    lemma_trim_front_idempotent(s);
}

/// Trimming never lengthens the text.
pub proof fn lemma_trim_front_le(s: Seq<char>)
    ensures
        trim_front(s).len() <= s.len(),
    decreases s.len(),
{
    if s.len() > 0 && is_ws(s[0]) {
        lemma_trim_front_le(s.drop_first());
    }
}

/// A trimmed sequence does not start with whitespace.
pub proof fn lemma_trim_front_no_leading_ws(s: Seq<char>)
    ensures
        trim_front(s).len() > 0 ==> !is_ws(trim_front(s)[0]),
    decreases s.len(),
{
    if s.len() > 0 && is_ws(s[0]) {
        lemma_trim_front_no_leading_ws(s.drop_first());
    }
}

/// A back-trimmed sequence does not end with whitespace, and back-trimming
/// keeps a non-whitespace first character in place.
pub proof fn lemma_trim_back_shape(s: Seq<char>)
    ensures
        trim_back(s).len() > 0 ==> !is_ws(trim_back(s).last()),
        trim_back(s).len() > 0 ==> trim_back(s)[0] == s[0],
        trim_back(s).len() <= s.len(),
        s.len() > 0 && !is_ws(s[0]) ==> trim_back(s).len() > 0,
    decreases s.len(),
{
    if s.len() > 0 && is_ws(s.last()) {
        lemma_trim_back_shape(s.drop_last());
    }
}

/// The maximal alphanumeric prefix ends at the first index that is not
/// alphanumeric.
proof fn lemma_ident_len_is(s: Seq<char>, i: int)
    requires
        0 <= i <= s.len(),
        forall|j: int| 0 <= j < i ==> is_alnum(s[j]),
        i == s.len() || !is_alnum(s[i]),
    ensures
        ident_len(s) == i,
    decreases i,
{
    if i > 0 {
        lemma_ident_len_is(s.drop_first(), i - 1);
    }
}

/// An identifier is never longer than the text it starts.
pub proof fn lemma_ident_len_le(s: Seq<char>)
    ensures
        ident_len(s) <= s.len(),
    decreases s.len(),
{
    if s.len() > 0 && is_alnum(s[0]) {
        lemma_ident_len_le(s.drop_first());
    }
}

/// The first occurrence of a character is at an index within the text.
pub proof fn lemma_find_char_le(s: Seq<char>, c: char)
    ensures
        find_char(s, c) <= s.len(),
    decreases s.len(),
{
    if s.len() > 0 && s[0] != c {
        lemma_find_char_le(s.drop_first(), c);
    }
}

/// The first occurrence of `c` is at the first index that holds `c`.
proof fn lemma_find_char_is(s: Seq<char>, c: char, i: int)
    requires
        0 <= i <= s.len(),
        forall|j: int| 0 <= j < i ==> s[j] != c,
        i == s.len() || s[i] == c,
    ensures
        find_char(s, c) == i,
    decreases i,
{
    if i > 0 {
        lemma_find_char_is(s.drop_first(), c, i - 1);
    }
}

/// The lexer's one failure: the next non-whitespace character cannot start
/// any token. Carries the unconsumed remainder as diagnostic context.
#[derive(Debug, Clone, Copy, PartialEq, Eq)]
pub enum LexerError<'a> {
    UnknownLexeme(&'a str),
}

impl<'a> View for LexerError<'a> {
    type V = Seq<char>;

    open spec fn view(&self) -> Seq<char> {
        match *self {
            LexerError::UnknownLexeme(s) => s@,
        }
    }
}

pub type LexerResult<'a> = Result<Token<'a>, LexerError<'a>>;

/// A token stream: just the remaining unconsumed slice of the source.
/// Viewed as its sequence of characters, which only ever shrinks.
#[derive(Debug, Clone, Copy)]
pub struct Lexer<'a> {
    source: &'a str,
}

impl<'a> View for Lexer<'a> {
    type V = Seq<char>;

    closed spec fn view(&self) -> Seq<char> {
        self.source@
    }
}

impl<'a> Lexer<'a> {
    pub fn new(source: &'a str) -> (r: Self)
        ensures
            r@ == source@,
    {
        Self { source }
    }

    /// Advance the cursor past leading whitespace.
    fn skip_ws(&mut self)
        ensures
            final(self)@ == trim_front(old(self)@),
    {
        let s = self.source;
        let len = s.unicode_len();
        let mut i: usize = 0;
        while i < len
            invariant
                0 <= i <= len,
                len == s@.len(),
                forall|j: int| 0 <= j < i ==> is_ws(s@[j]),
            ensures
                0 <= i <= len,
                forall|j: int| 0 <= j < i ==> is_ws(s@[j]),
                i == len || !is_ws(s@[i as int]),
            decreases len - i,
        {
            let c = s.get_char(i);
            if !char_is_whitespace(c) {
                break;
            }
            i += 1;
        }
        self.source = s.substring_char(i, len);
        proof {
            lemma_trim_front_skip(s@, i as int);
        }
    }

    /// Cut the first `n` characters off the front and return them.
    fn cut_front(&mut self, n: usize) -> (r: &'a str)
        requires
            n <= old(self)@.len(),
        ensures
            r@ == old(self)@.take(n as int),
            final(self)@ == old(self)@.skip(n as int),
    {
        let s = self.source;
        let len = s.unicode_len();
        let r = s.substring_char(0, n);
        self.source = s.substring_char(n, len);
        proof {
            assert(r@ =~= s@.take(n as int));
            assert(self.source@ =~= s@.skip(n as int));
        }
        r
    }

    /// Cut the maximal alphanumeric prefix off the front and return it.
    fn take_identifier(&mut self) -> (r: &'a str)
        ensures
            r@ == old(self)@.take(ident_len(old(self)@) as int),
            final(self)@ == old(self)@.skip(ident_len(old(self)@) as int),
    {
        let s = self.source;
        let len = s.unicode_len();
        let mut i: usize = 0;
        while i < len
            invariant
                0 <= i <= len,
                len == s@.len(),
                forall|j: int| 0 <= j < i ==> is_alnum(s@[j]),
            ensures
                0 <= i <= len,
                forall|j: int| 0 <= j < i ==> is_alnum(s@[j]),
                i == len || !is_alnum(s@[i as int]),
            decreases len - i,
        {
            let c = s.get_char(i);
            if !char_is_alphanumeric(c) {
                break;
            }
            i += 1;
        }
        proof {
            lemma_ident_len_is(s@, i as int);
        }
        self.cut_front(i)
    }

    /// Trim leading whitespace — an observable cursor move — then report
    /// which token comes next without consuming it. Identifier payloads
    /// are left empty: `peek` only signals the kind.
    pub fn peek(&mut self) -> (r: LexerResult<'a>)
        ensures
            final(self)@ == trim_front(old(self)@),
            match r {
                Ok(t) => t.kind() == classify(trim_front(old(self)@)) && (t matches Token::Identifier(p) ==> p@ == Seq::<char>::empty()),
                Err(e) => classify(trim_front(old(self)@)) == TokenKind::Unknown && e@ == trim_front(old(self)@),
            },
    {
        self.skip_ws();
        let s = self.source;
        let len = s.unicode_len();
        if len == 0 {
            return Ok(Token::EOF);
        }
        let c0 = s.get_char(0);
        if c0 == '<' {
            if len >= 2 && s.get_char(1) == '/' {
                Ok(Token::CloseTagStart)
            } else {
                Ok(Token::OpenTagStart)
            }
        } else if c0 == '>' {
            Ok(Token::TagEnd)
        } else if c0 == '"' {
            Ok(Token::Quote)
        } else if c0 == '=' {
            Ok(Token::Equals)
        } else if char_is_alphabetic(c0) {
            proof {
                reveal_strlit("");
                assert(""@ =~= Seq::<char>::empty());
            }
            Ok(Token::Identifier(""))
        } else {
            Err(LexerError::UnknownLexeme(s))
        }
    }

    /// Consume the token that `peek` reported: advance the cursor past it
    /// and return it fully realized — an identifier gets its exact
    /// substring as payload.
    pub fn take(&mut self, t: Token<'a>) -> (r: Token<'a>)
        requires
            classify(old(self)@) == t.kind(),
        ensures
            final(self)@ == old(self)@.skip(take_len(old(self)@, t.kind()) as int),
            r.kind() == t.kind(),
            (r matches Token::Identifier(p) ==> p@ == old(self)@.take(
                ident_len(old(self)@) as int,
            )),
            !(t matches Token::Identifier(_)) ==> r == t,
            t.kind() != TokenKind::EOF ==> final(self)@.len() < old(self)@.len(),
    {
        match t {
            Token::EOF => {
                proof {
                    assert(old(self)@.skip(0) =~= old(self)@);
                }
                t
            },
            Token::Identifier(_) => {
                proof {
                    assert(is_alpha(old(self)@[0]));
                    assert(ident_len(old(self)@) >= 1);
                    lemma_ident_len_le(old(self)@);
                }
                Token::Identifier(self.take_identifier())
            },
            Token::CloseTagStart => {
                let _ = self.cut_front(2);
                t
            },
            _ => {
                let _ = self.cut_front(1);
                t
            },
        }
    }

    /// Get the next token: `peek` followed by `take` on what was peeked.
    pub fn next(&mut self) -> (r: LexerResult<'a>)
        ensures
            ({
                let t = trim_front(old(self)@);
                match r {
                    Ok(tok) => {
                        &&& tok.kind() == classify(t)
                        &&& final(self)@ == t.skip(take_len(t, tok.kind()) as int)
                        &&& (tok matches Token::Identifier(p) ==> p@ == t.take(
                            ident_len(t) as int,
                        ))
                        &&& (tok.kind() != TokenKind::EOF ==> final(self)@.len() < t.len())
                    },
                    Err(e) => {
                        &&& classify(t) == TokenKind::Unknown
                        &&& e@ == t
                        &&& final(self)@ == t
                    },
                }
            }),
    {
        match self.peek() {
            Ok(t) => Ok(self.take(t)),
            Err(e) => Err(e),
        }
    }

    /// Trim leading whitespace, then cut the span up to (but excluding)
    /// the first occurrence of `c` — or to the end of input if `c` does
    /// not occur — and return it with trailing whitespace removed.
    pub fn text_till(&mut self, c: char) -> (r: &'a str)
        ensures
            ({
                let t = trim_front(old(self)@);
                let n = find_char(t, c) as int;
                &&& r@ == trim_back(t.take(n))
                &&& final(self)@ == t.skip(n)
            }),
    {
        self.skip_ws();
        let s = self.source;
        let len = s.unicode_len();
        let mut i: usize = 0;
        while i < len
            invariant
                0 <= i <= len,
                len == s@.len(),
                forall|j: int| 0 <= j < i ==> s@[j] != c,
            ensures
                0 <= i <= len,
                forall|j: int| 0 <= j < i ==> s@[j] != c,
                i == len || s@[i as int] == c,
            decreases len - i,
        {
            if s.get_char(i) == c {
                break;
            }
            i += 1;
        }
        proof {
            lemma_find_char_is(s@, c, i as int);
        }
        let raw = self.cut_front(i);
        let mut j: usize = i;
        while j > 0
            invariant
                0 <= j <= i,
                i == raw@.len(),
                forall|k: int| j <= k < i ==> is_ws(raw@[k]),
            ensures
                0 <= j <= i,
                forall|k: int| j <= k < i ==> is_ws(raw@[k]),
                j == 0 || !is_ws(raw@[j - 1]),
            decreases j,
        {
            if !char_is_whitespace(raw.get_char(j - 1)) {
                break;
            }
            j -= 1;
        }
        proof {
            lemma_trim_back_take(raw@, j as int);
        }
        let r = raw.substring_char(0, j);
        proof {
            assert(r@ =~= raw@.take(j as int));
        }
        r
    }

    /// The unconsumed remainder of the source; no side effect.
    pub fn remainder(&self) -> (r: &'a str)
        ensures
            r@ == self@,
    {
        self.source
    }
}

/// Back-trimming removes exactly the trailing run of whitespace.
proof fn lemma_trim_back_take(s: Seq<char>, j: int)
    requires
        0 <= j <= s.len(),
        forall|k: int| j <= k < s.len() ==> is_ws(s[k]),
        j == 0 || !is_ws(s[j - 1]),
    ensures
        trim_back(s) == s.take(j),
    decreases s.len(),
{
    if j == s.len() {
        if s.len() > 0 {
            assert(!is_ws(s.last()));
        }
        assert(s.take(j) =~= s);
    } else {
        assert(is_ws(s.last()));
        lemma_trim_back_take(s.drop_last(), j);
        assert(s.drop_last().take(j) =~= s.take(j));
    }
}

} // verus!
