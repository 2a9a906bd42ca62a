//! Lexer: turns a text buffer into a one-token-lookahead stream of
//! structural and atomic tokens.
//!
//! Tokenization rules: leading whitespace is skipped before every token; the
//! four structural characters `(` `)` `,` `=` are single-character tokens; a
//! token starting with an alphabetic character consumes everything up to the
//! next structural character, with trailing whitespace trimmed; a token
//! starting with a numeric character accumulates alphanumerics and dots and
//! must normalise to a decimal literal.  Any other character, a numeric run
//! that is no decimal literal, and the end of input all yield no token.

use vstd::prelude::*;
use vstd::string::StringExecFns;

use crate::ast::wf_name;
use crate::chars::char_is_alphabetic;
use crate::chars::char_is_alphanumeric;
use crate::chars::char_is_numeric;
use crate::chars::char_is_structural;
use crate::chars::char_is_whitespace;
use crate::chars::chars_to_string;
use crate::chars::is_alpha;
use crate::chars::is_num;
use crate::chars::is_structural;
use crate::chars::is_ws;
use crate::chars::str_to_chars;
use crate::number::canon_number;
use crate::number::canon_number_exec;
use crate::number::is_canon_number;
use crate::number::lemma_canon_number_idempotent;

verus! {

/// A lexical token.  `Number` holds the canonical decimal form of the lexed
/// numeric run; `Text` holds the trimmed run of non-structural characters.
#[derive(Debug, PartialEq)]
pub enum Token {
    CloseBracket,
    OpenBracket,
    Comma,
    Equals,
    Number(String),
    Text(String),
}

/// The mathematical value of a token.
pub enum TokenV {
    CloseBracket,
    OpenBracket,
    Comma,
    Equals,
    Number(Seq<char>),
    Text(Seq<char>),
}

impl View for Token {
    type V = TokenV;

    open spec fn view(&self) -> TokenV {
        match self {
            Token::CloseBracket => TokenV::CloseBracket,
            Token::OpenBracket => TokenV::OpenBracket,
            Token::Comma => TokenV::Comma,
            Token::Equals => TokenV::Equals,
            Token::Number(s) => TokenV::Number(s@),
            Token::Text(s) => TokenV::Text(s@),
        }
    }
}

/// The view of an optional token.
pub open spec fn opt_token_view(t: Option<Token>) -> Option<TokenV> {
    match t {
        Some(tok) => Some(tok@),
        None => None,
    }
}

/// Whether a numeric run may keep accumulating at `c`: alphanumeric or dot.
pub open spec fn is_num_run_char(c: char) -> bool {
    is_alpha(c) || is_num(c) || c == '.'
}

/// The input with its leading whitespace removed.
pub open spec fn skip_ws(s: Seq<char>) -> Seq<char>
    decreases s.len(),
{
    if s.len() > 0 && is_ws(s[0]) {
        skip_ws(s.skip(1))
    } else {
        s
    }
}

/// Splits off the maximal prefix of non-structural characters.
pub open spec fn take_text(s: Seq<char>) -> (Seq<char>, Seq<char>)
    decreases s.len(),
{
    if s.len() > 0 && !is_structural(s[0]) {
        let (a, b) = take_text(s.skip(1));
        (seq![s[0]] + a, b)
    } else {
        (Seq::empty(), s)
    }
}

/// Splits off the maximal prefix of numeric-run characters.
pub open spec fn take_num(s: Seq<char>) -> (Seq<char>, Seq<char>)
    decreases s.len(),
{
    if s.len() > 0 && is_num_run_char(s[0]) {
        let (a, b) = take_num(s.skip(1));
        (seq![s[0]] + a, b)
    } else {
        (Seq::empty(), s)
    }
}

/// The input with its trailing whitespace removed.
pub open spec fn trim_end_ws(s: Seq<char>) -> Seq<char>
    decreases s.len(),
{
    if s.len() > 0 && is_ws(s[s.len() - 1]) {
        trim_end_ws(s.drop_last())
    } else {
        s
    }
}

/// One step of lexing: the next token of `s` (`None` at end of input and on a
/// lexing failure) and the input that remains after it.
pub open spec fn next_token(s: Seq<char>) -> (Option<TokenV>, Seq<char>) {
    let t = skip_ws(s);
    if t.len() == 0 {
        (None, t)
    } else if t[0] == '(' {
        (Some(TokenV::OpenBracket), t.skip(1))
    } else if t[0] == ')' {
        (Some(TokenV::CloseBracket), t.skip(1))
    } else if t[0] == ',' {
        (Some(TokenV::Comma), t.skip(1))
    } else if t[0] == '=' {
        (Some(TokenV::Equals), t.skip(1))
    } else if is_alpha(t[0]) {
        let (a, b) = take_text(t);
        (Some(TokenV::Text(trim_end_ws(a))), b)
    } else if is_num(t[0]) {
        let (a, b) = take_num(t);
        match canon_number(a) {
            Some(c) => (Some(TokenV::Number(c)), b),
            None => (None, b),
        }
    } else {
        (None, t.skip(1))
    }
}

/// Leading whitespace only ever shrinks the input.
pub proof fn lemma_skip_ws_len(s: Seq<char>)
    ensures
        skip_ws(s).len() <= s.len(),
    decreases s.len(),
{
    if s.len() > 0 && is_ws(s[0]) {
        lemma_skip_ws_len(s.skip(1));
    }
}

/// The two parts returned by `take_text` partition the input, the first free
/// of structural characters and the second led by one (when non-empty).
pub proof fn lemma_take_text_parts(s: Seq<char>)
    ensures
        take_text(s).0 + take_text(s).1 == s,
        take_text(s).0.len() + take_text(s).1.len() == s.len(),
        forall|i: int| 0 <= i < take_text(s).0.len() ==> !is_structural(#[trigger] take_text(s).0[i]),
        take_text(s).1.len() > 0 ==> is_structural(take_text(s).1[0]),
        s.len() > 0 && !is_structural(s[0]) ==> take_text(s).0.len() > 0,
    decreases s.len(),
{
    if s.len() > 0 && !is_structural(s[0]) {
        lemma_take_text_parts(s.skip(1));
        let (a, b) = take_text(s.skip(1));
        assert((seq![s[0]] + a) + b =~= seq![s[0]] + (a + b));
        assert(seq![s[0]] + s.skip(1) =~= s);
        assert(take_text(s).0 + take_text(s).1 =~= s);
    } else {
        assert(take_text(s).0 + take_text(s).1 =~= s);
    }
}

/// The two parts returned by `take_num` partition the input, the first made
/// of numeric-run characters and the second led by something else.
pub proof fn lemma_take_num_parts(s: Seq<char>)
    ensures
        take_num(s).0 + take_num(s).1 == s,
        take_num(s).0.len() + take_num(s).1.len() == s.len(),
        forall|i: int| 0 <= i < take_num(s).0.len() ==> is_num_run_char(#[trigger] take_num(s).0[i]),
        take_num(s).1.len() > 0 ==> !is_num_run_char(take_num(s).1[0]),
        s.len() > 0 && is_num_run_char(s[0]) ==> take_num(s).0.len() > 0,
    decreases s.len(),
{
    if s.len() > 0 && is_num_run_char(s[0]) {
        lemma_take_num_parts(s.skip(1));
        let (a, b) = take_num(s.skip(1));
        assert((seq![s[0]] + a) + b =~= seq![s[0]] + (a + b));
        assert(seq![s[0]] + s.skip(1) =~= s);
        assert(take_num(s).0 + take_num(s).1 =~= s);
    } else {
        assert(take_num(s).0 + take_num(s).1 =~= s);
    }
}

/// Producing a token always consumes at least one character.
pub proof fn lemma_next_token_progress(s: Seq<char>)
    ensures
        next_token(s).0 is Some ==> next_token(s).1.len() < s.len(),
        next_token(s).1.len() <= s.len(),
{
    lemma_skip_ws_len(s);
    let t = skip_ws(s);
    if t.len() > 0 {
        lemma_take_text_parts(t);
        lemma_take_num_parts(t);
    }
}

/// A well-formed token: text holds a lexable name, a number its canonical
/// decimal.
pub open spec fn wf_token(t: TokenV) -> bool {
    match t {
        TokenV::Text(s) => wf_name(s),
        TokenV::Number(s) => is_canon_number(s),
        _ => true,
    }
}

/// After the leading whitespace nothing whitespace stands first.
proof fn lemma_skip_ws_head(s: Seq<char>)
    ensures
        skip_ws(s).len() > 0 ==> !is_ws(skip_ws(s)[0]),
    decreases s.len(),
{
    if s.len() > 0 && is_ws(s[0]) {
        lemma_skip_ws_head(s.skip(1));
    }
}

/// Trimming keeps a prefix, leaves no trailing whitespace, and keeps a
/// non-whitespace first character.
proof fn lemma_trim_end_ws_parts(s: Seq<char>)
    ensures
        trim_end_ws(s).len() <= s.len(),
        forall|i: int| 0 <= i < trim_end_ws(s).len() ==> #[trigger] trim_end_ws(s)[i] == s[i],
        trim_end_ws(s).len() > 0 ==> !is_ws(trim_end_ws(s)[trim_end_ws(s).len() - 1]),
        s.len() > 0 && !is_ws(s[0]) ==> trim_end_ws(s).len() > 0,
    decreases s.len(),
{
    if s.len() > 0 && is_ws(s[s.len() - 1]) {
        lemma_trim_end_ws_parts(s.drop_last());
    }
}

/// Every token the lexer produces is well-formed: a text token is itself
/// lexable as a name, a number token holds a canonical decimal that lexes
/// back to itself.
pub proof fn lemma_next_token_wf(s: Seq<char>)
    ensures
        next_token(s).0 matches Some(tok) ==> wf_token(tok),
{
    let t = skip_ws(s);
    lemma_skip_ws_head(s);
    if t.len() > 0 && !(t[0] == '(' || t[0] == ')' || t[0] == ',' || t[0] == '=') {
        if is_alpha(t[0]) {
            let (a, b) = take_text(t);
            lemma_take_text_parts(t);
            assert(a[0] == t[0]);
            lemma_trim_end_ws_parts(a);
            let r = trim_end_ws(a);
            assert(r[0] == a[0]);
            assert(forall|i: int| 0 <= i < r.len() ==> !is_structural(#[trigger] r[i]));
            assert(wf_name(r));
        } else if is_num(t[0]) {
            let (a, b) = take_num(t);
            match canon_number(a) {
                Some(c) => {
                    lemma_canon_number_idempotent(a, c);
                },
                None => {},
            }
        }
    }
}

/// Every token in a lexed stream is well-formed.
pub proof fn lemma_tokens_of_wf(s: Seq<char>)
    ensures
        forall|i: int| 0 <= i < tokens_of(s).len() ==> wf_token(#[trigger] tokens_of(s)[i]),
    decreases s.len(),
{
    lemma_next_token_progress(s);
    lemma_next_token_wf(s);
    let (t, rest) = next_token(s);
    match t {
        Some(tok) => {
            lemma_tokens_of_wf(rest);
            assert forall|i: int| 0 <= i < tokens_of(s).len() implies wf_token(
                #[trigger] tokens_of(s)[i],
            ) by {
                if i > 0 {
                    assert(tokens_of(s)[i] == tokens_of(rest)[i - 1]);
                }
            }
        },
        None => {},
    }
}

/// The whole token stream of an input, cut short at the first lexing failure.
///
/// The bound `rest.len() < s.len()` justifies the recursion; it always holds
/// when a token was produced (see `lemma_next_token_progress`).
pub open spec fn tokens_of(s: Seq<char>) -> Seq<TokenV>
    decreases s.len(),
{
    let (t, rest) = next_token(s);
    match t {
        None => Seq::empty(),
        Some(tok) => if rest.len() < s.len() {
            seq![tok] + tokens_of(rest)
        } else {
            seq![tok]
        },
    }
}

/// A short rendering of a token for error descriptions.
pub open spec fn token_desc(t: TokenV) -> Seq<char> {
    match t {
        TokenV::CloseBracket => "CloseBracket"@,
        TokenV::OpenBracket => "OpenBracket"@,
        TokenV::Comma => "Comma"@,
        TokenV::Equals => "Equals"@,
        TokenV::Number(s) => "Number("@ + s + ")"@,
        TokenV::Text(s) => "Text("@ + s + ")"@,
    }
}

/// A short rendering of an optional token for error descriptions.
pub open spec fn opt_token_desc(t: Option<TokenV>) -> Seq<char> {
    match t {
        None => "None"@,
        Some(tok) => "Some("@ + token_desc(tok) + ")"@,
    }
}

/// Writes the description of a token.
pub fn describe_token(t: &Token) -> (s: String)
    ensures
        s@ == token_desc(t@),
{
    match t {
        Token::CloseBracket => String::from_str("CloseBracket"),
        Token::OpenBracket => String::from_str("OpenBracket"),
        Token::Comma => String::from_str("Comma"),
        Token::Equals => String::from_str("Equals"),
        Token::Number(v) => {
            let mut s = String::from_str("Number(");
            s.append(v.as_str());
            s.append(")");
            s
        },
        Token::Text(v) => {
            let mut s = String::from_str("Text(");
            s.append(v.as_str());
            s.append(")");
            s
        },
    }
}

/// Writes the description of an optional token.
pub fn describe_opt_token(t: &Option<Token>) -> (s: String)
    ensures
        s@ == opt_token_desc(opt_token_view(*t)),
{
    match t {
        None => String::from_str("None"),
        Some(tok) => {
            let mut s = String::from_str("Some(");
            let d = describe_token(tok);
            s.append(d.as_str());
            s.append(")");
            s
        },
    }
}

/// The lexer: the not-yet-consumed input and the one token of lookahead.
pub struct Lexer {
    input: Vec<char>,
    pos: usize,
    next_token: Option<Token>,
}

impl Lexer {
    /// The cursor never passes the end of the input.
    pub closed spec fn wf(&self) -> bool {
        self.pos <= self.input@.len()
    }

    /// The input not yet consumed.
    pub closed spec fn remaining(&self) -> Seq<char> {
        self.input@.skip(self.pos as int)
    }

    /// The token of lookahead, if one was computed and the input had one.
    pub closed spec fn current(&self) -> Option<TokenV> {
        opt_token_view(self.next_token)
    }

    /// The tokens still to come: the lookahead token followed by everything
    /// the remaining input lexes to.  Empty until `next` is first called.
    pub open spec fn stream(&self) -> Seq<TokenV> {
        match self.current() {
            Some(t) => seq![t] + tokens_of(self.remaining()),
            None => Seq::empty(),
        }
    }

    /// Builds a lexer over `input`; no token is computed until `next` runs.
    pub fn create(input: &str) -> (l: Lexer)
        ensures
            l.wf(),
            l.remaining() == input@,
            l.current() is None,
    {
        let v = str_to_chars(input);
        proof {
            assert(v@.skip(0) =~= v@);
        }
        Lexer { input: v, pos: 0, next_token: None }
    }

    /// Discards the current token and computes the next one.
    pub fn next(&mut self)
        requires
            old(self).wf(),
        ensures
            final(self).wf(),
            final(self).current() == next_token(old(self).remaining()).0,
            final(self).remaining() == next_token(old(self).remaining()).1,
            final(self).stream() == tokens_of(old(self).remaining()),
            old(self).current() is Some ==> final(self).stream() == old(self).stream().skip(1),
    {
        let t = self.consume();
        self.next_token = t;
        proof {
            lemma_next_token_progress(old(self).remaining());
            if next_token(old(self).remaining()).0 is Some {
                assert(self.stream() =~= tokens_of(old(self).remaining()));
            }
            if old(self).current() is Some {
                assert(old(self).stream().skip(1) =~= tokens_of(old(self).remaining()));
            }
        }
    }

    /// Returns the token of lookahead without consuming anything.
    pub fn get_next_token(&self) -> (t: Option<Token>)
        ensures
            opt_token_view(t) == self.current(),
    {
        match &self.next_token {
            None => None,
            Some(t) => Some(clone_token(t)),
        }
    }

    /// Lexes one token out of the remaining input.
    #[verifier::loop_isolation(false)]
    #[verifier::rlimit(60)]
    fn consume(&mut self) -> (r: Option<Token>)
        requires
            old(self).wf(),
        ensures
            final(self).wf(),
            opt_token_view(r) == next_token(old(self).remaining()).0,
            final(self).remaining() == next_token(old(self).remaining()).1,
    {
        let ghost s0 = old(self).remaining();
        // Skip leading whitespace.
        while self.pos < self.input.len() && char_is_whitespace(self.input[self.pos])
            invariant
                self.wf(),
                self.input == old(self).input,
                self.next_token == old(self).next_token,
                skip_ws(self.remaining()) == skip_ws(s0),
            decreases self.input@.len() - self.pos,
        {
            proof {
                let rem = self.remaining();
                assert(rem.skip(1) =~= self.input@.skip(self.pos + 1));
            }
            self.pos = self.pos + 1;
        }
        proof {
            assert(self.remaining() == skip_ws(s0));
        }
        let ghost t = skip_ws(s0);
        if self.pos == self.input.len() {
            proof {
                assert(self.remaining() =~= t);
            }
            return None;
        }
        let c = self.input[self.pos];
        proof {
            assert(c == t[0]);
        }
        if c == '(' {
            self.pos = self.pos + 1;
            proof {
                assert(self.remaining() =~= t.skip(1));
            }
            return Some(Token::OpenBracket);
        }
        if c == ')' {
            self.pos = self.pos + 1;
            proof {
                assert(self.remaining() =~= t.skip(1));
            }
            return Some(Token::CloseBracket);
        }
        if c == ',' {
            self.pos = self.pos + 1;
            proof {
                assert(self.remaining() =~= t.skip(1));
            }
            return Some(Token::Comma);
        }
        if c == '=' {
            self.pos = self.pos + 1;
            proof {
                assert(self.remaining() =~= t.skip(1));
            }
            return Some(Token::Equals);
        }
        if char_is_alphabetic(c) {
            // Text token: everything up to the next structural character,
            // with trailing whitespace trimmed off.
            let mut acc: Vec<char> = Vec::new();
            while self.pos < self.input.len() && !char_is_structural(self.input[self.pos])
                invariant
                    self.wf(),
                    self.input == old(self).input,
                    self.next_token == old(self).next_token,
                    take_text(t).0 == acc@ + take_text(self.remaining()).0,
                    take_text(t).1 == take_text(self.remaining()).1,
                decreases self.input@.len() - self.pos,
            {
                let ch = self.input[self.pos];
                proof {
                    let rem = self.remaining();
                    assert(rem.skip(1) =~= self.input@.skip(self.pos + 1));
                    assert(take_text(rem).0 == seq![rem[0]] + take_text(rem.skip(1)).0);
                    assert((acc@ + seq![ch]) + take_text(rem.skip(1)).0 =~= acc@ + take_text(
                        rem,
                    ).0);
                }
                acc.push(ch);
                self.pos = self.pos + 1;
            }
            proof {
                let rem = self.remaining();
                assert(take_text(rem).0 =~= Seq::<char>::empty());
                assert(acc@ + Seq::<char>::empty() =~= acc@);
                assert(acc@ == take_text(t).0);
                assert(self.remaining() == take_text(t).1);
            }
            // Trim trailing whitespace.
            while acc.len() > 0 && char_is_whitespace(acc[acc.len() - 1])
                invariant
                    trim_end_ws(acc@) == trim_end_ws(take_text(t).0),
                decreases acc.len(),
            {
                proof {
                    assert(acc@.drop_last() =~= acc@.take(acc@.len() - 1));
                }
                acc.pop();
            }
            proof {
                assert(trim_end_ws(acc@) == acc@);
            }
            let s = chars_to_string(&acc);
            return Some(Token::Text(s));
        }
        if char_is_numeric(c) {
            // Numeric token: accumulate alphanumerics and dots, then
            // normalise the run to a decimal literal.
            let mut acc: Vec<char> = Vec::new();
            while self.pos < self.input.len() && (char_is_alphanumeric(self.input[self.pos])
                || self.input[self.pos] == '.')
                invariant
                    self.wf(),
                    self.input == old(self).input,
                    self.next_token == old(self).next_token,
                    take_num(t).0 == acc@ + take_num(self.remaining()).0,
                    take_num(t).1 == take_num(self.remaining()).1,
                decreases self.input@.len() - self.pos,
            {
                let ch = self.input[self.pos];
                proof {
                    let rem = self.remaining();
                    assert(rem.skip(1) =~= self.input@.skip(self.pos + 1));
                    assert(take_num(rem).0 == seq![rem[0]] + take_num(rem.skip(1)).0);
                    assert((acc@ + seq![ch]) + take_num(rem.skip(1)).0 =~= acc@ + take_num(rem).0);
                }
                acc.push(ch);
                self.pos = self.pos + 1;
            }
            proof {
                let rem = self.remaining();
                assert(take_num(rem).0 =~= Seq::<char>::empty());
                assert(acc@ + Seq::<char>::empty() =~= acc@);
                assert(acc@ == take_num(t).0);
                assert(self.remaining() == take_num(t).1);
            }
            let canon = canon_number_exec(&acc);
            match canon {
                Some(cv) => {
                    let s = chars_to_string(&cv);
                    return Some(Token::Number(s));
                },
                None => {
                    return None;
                },
            }
        }
        // Not alphabetic, numeric, structural or whitespace: a lexing failure.
        self.pos = self.pos + 1;
        proof {
            assert(self.remaining() =~= t.skip(1));
        }
        None
    }
}

/// Copies a token.
fn clone_token(t: &Token) -> (r: Token)
    ensures
        r@ == t@,
{
    match t {
        Token::CloseBracket => Token::CloseBracket,
        Token::OpenBracket => Token::OpenBracket,
        Token::Comma => Token::Comma,
        Token::Equals => Token::Equals,
        Token::Number(s) => Token::Number(s.clone()),
        Token::Text(s) => Token::Text(s.clone()),
    }
}

} // verus!
