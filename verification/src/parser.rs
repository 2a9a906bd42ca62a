//! Parser: splits a raw message into free text and balanced-parenthesis
//! object spans, and parses each span with one token of lookahead.
//!
//! Grammar, applied to one isolated span:
//!
//! ```text
//! LogEntity     := Number | Text ['(' [AttributeList] ')']
//! AttributeList := Attribute (',' Attribute)*
//! Attribute     := Text '=' [LogEntity]    (value omitted iff next token is ',' or ')')
//! ```

use vstd::prelude::*;
use vstd::string::StringExecFns;

use crate::ast::Attribute;
use crate::ast::entities_view_from;
use crate::ast::lemma_entities_view_from;
use crate::ast::AttributeList;
use crate::ast::AttrV;
use crate::ast::EntityV;
use crate::ast::LogEntity;
use crate::ast::LogMessage;
use crate::ast::attrs_view_from;
use crate::ast::lemma_attrs_view_from;
use crate::ast::lemma_wf_attrs_from_pointwise;
use crate::ast::wf_attrs_from;
use crate::ast::wf_entity;
use crate::ast::wf_name;
use crate::chars::char_is_whitespace;
use crate::chars::chars_to_string;
use crate::chars::is_ws;
use crate::chars::str_to_chars;
use crate::lexer::Lexer;
use crate::lexer::Token;
use crate::lexer::TokenV;
use crate::lexer::describe_opt_token;
use crate::lexer::describe_token;
use crate::lexer::lemma_tokens_of_wf;
use crate::lexer::opt_token_desc;
use crate::lexer::opt_token_view;
use crate::lexer::token_desc;
use crate::lexer::tokens_of;
use crate::lexer::wf_token;

verus! {

/// Parses one entity out of a token stream: the parsed value and the tokens
/// that remain, or `None` on a grammar failure.
pub open spec fn spec_parse_entity(ts: Seq<TokenV>) -> Option<(EntityV, Seq<TokenV>)>
    decreases ts.len(), 2int,
{
    if ts.len() == 0 {
        None
    } else {
        match ts[0] {
            TokenV::Number(v) => Some((EntityV::Number(v), ts.skip(1))),
            TokenV::Text(name) => {
                if ts.len() >= 2 && ts[1] is OpenBracket {
                    if ts.len() >= 3 && ts[2] is CloseBracket {
                        Some((EntityV::Object(name, Seq::empty()), ts.skip(3)))
                    } else {
                        match spec_parse_attr_list(ts.skip(2)) {
                            Some((attrs, rest)) => if rest.len() > 0 && rest[0] is CloseBracket {
                                Some((EntityV::Object(name, attrs), rest.skip(1)))
                            } else {
                                None
                            },
                            None => None,
                        }
                    }
                } else {
                    Some((EntityV::Text(name), ts.skip(1)))
                }
            },
            _ => None,
        }
    }
}

/// Parses a comma-separated attribute list out of a token stream.
///
/// The bound `rest.len() <= ts.len()` justifies the recursion; it always
/// holds of a successful `spec_parse_attribute` (see `lemma_parse_consumes`).
pub open spec fn spec_parse_attr_list(ts: Seq<TokenV>) -> Option<(Seq<AttrV>, Seq<TokenV>)>
    decreases ts.len(), 1int,
{
    match spec_parse_attribute(ts) {
        None => None,
        Some((a, rest)) => {
            if rest.len() > 0 && rest[0] is Comma && rest.len() <= ts.len() {
                match spec_parse_attr_list(rest.skip(1)) {
                    Some((more, rest2)) => Some((seq![a] + more, rest2)),
                    None => None,
                }
            } else {
                Some((seq![a], rest))
            }
        },
    }
}

/// Parses one `key = value` attribute out of a token stream.  The value is
/// `Null` exactly when the token right after `=` is a comma or a closing
/// bracket, and that token is left unconsumed for the enclosing list.
pub open spec fn spec_parse_attribute(ts: Seq<TokenV>) -> Option<(AttrV, Seq<TokenV>)>
    decreases ts.len(), 0int,
{
    if ts.len() >= 2 && ts[0] is Text && ts[1] is Equals {
        let key = ts[0]->Text_0;
        if ts.len() >= 3 && (ts[2] is Comma || ts[2] is CloseBracket) {
            Some((AttrV { key, value: EntityV::Null }, ts.skip(2)))
        } else {
            match spec_parse_entity(ts.skip(2)) {
                Some((v, rest)) => Some((AttrV { key, value: v }, rest)),
                None => None,
            }
        }
    } else {
        None
    }
}

/// Every successful parse consumes tokens: the remainder is strictly shorter,
/// by at least two for an attribute or an attribute list.
pub proof fn lemma_parse_consumes(ts: Seq<TokenV>)
    ensures
        spec_parse_entity(ts) matches Some((e, rest)) ==> rest.len() < ts.len(),
        spec_parse_attribute(ts) matches Some((a, rest)) ==> rest.len() + 2 <= ts.len(),
        spec_parse_attr_list(ts) matches Some((l, rest)) ==> rest.len() + 2 <= ts.len(),
    decreases ts.len(),
{
    // Attribute: consumes `Text '='` and possibly a value.
    if ts.len() >= 2 && ts[0] is Text && ts[1] is Equals {
        if !(ts.len() >= 3 && (ts[2] is Comma || ts[2] is CloseBracket)) {
            lemma_parse_consumes(ts.skip(2));
        }
    }
    // Attribute list: one attribute, then recursively more after each comma.
    match spec_parse_attribute(ts) {
        Some((a, rest)) => {
            if rest.len() > 0 && rest[0] is Comma && rest.len() <= ts.len() {
                lemma_parse_consumes(rest.skip(1));
            }
        },
        None => {},
    }
    // Entity: number and plain text consume one token; an object consumes its
    // name, brackets and attribute list.
    if ts.len() > 0 && ts[0] is Text && ts.len() >= 2 && ts[1] is OpenBracket {
        if !(ts.len() >= 3 && ts[2] is CloseBracket) {
            lemma_parse_consumes(ts.skip(2));
        }
    }
}

/// Over a stream of well-formed tokens every successful parse yields
/// well-formed values, and always leaves a suffix of its input unconsumed.
pub proof fn lemma_parse_wf(ts: Seq<TokenV>)
    requires
        forall|i: int| 0 <= i < ts.len() ==> wf_token(#[trigger] ts[i]),
    ensures
        spec_parse_entity(ts) matches Some((e, rest)) ==> wf_entity(e) && (exists|k: int|
            0 <= k <= ts.len() && rest == #[trigger] ts.skip(k)),
        spec_parse_attribute(ts) matches Some((a, rest)) ==> wf_name(a.key) && wf_entity(a.value)
            && (exists|k: int| 0 <= k <= ts.len() && rest == #[trigger] ts.skip(k)),
        spec_parse_attr_list(ts) matches Some((l, rest)) ==> (forall|j: int|
            0 <= j < l.len() ==> wf_name(#[trigger] l[j].key) && wf_entity(l[j].value)) && (
        exists|k: int| 0 <= k <= ts.len() && rest == #[trigger] ts.skip(k)),
    decreases ts.len(),
{
    let skip2 = ts.skip(2);
    if ts.len() >= 2 {
        assert forall|i: int| 0 <= i < skip2.len() implies wf_token(#[trigger] skip2[i]) by {
            assert(skip2[i] == ts[i + 2]);
        }
        lemma_parse_wf(skip2);
    }
    // Attribute: the key is a well-formed text token; the value is `Null` or
    // a recursively parsed entity.
    if ts.len() >= 2 && ts[0] is Text && ts[1] is Equals {
        assert(wf_token(ts[0]));
        if ts.len() >= 3 && (ts[2] is Comma || ts[2] is CloseBracket) {
            assert(ts.skip(2) == ts.skip(2));
        } else {
            match spec_parse_entity(skip2) {
                Some((v, rest)) => {
                    let k = choose|k: int| 0 <= k <= skip2.len() && rest == skip2.skip(k);
                    assert(skip2.skip(k) =~= ts.skip(2 + k));
                },
                None => {},
            }
        }
    }
    // Attribute list: the first attribute, then recursively the others.
    match spec_parse_attribute(ts) {
        Some((a, rest)) => {
            let ka = choose|k: int| 0 <= k <= ts.len() && rest == ts.skip(k);
            if rest.len() > 0 && rest[0] is Comma && rest.len() <= ts.len() {
                let after = rest.skip(1);
                assert(after =~= ts.skip(ka + 1));
                assert forall|i: int| 0 <= i < after.len() implies wf_token(
                    #[trigger] after[i],
                ) by {
                    assert(after[i] == ts[ka + 1 + i]);
                }
                lemma_parse_consumes(ts);
                lemma_parse_wf(after);
                match spec_parse_attr_list(after) {
                    Some((more, rest2)) => {
                        let km = choose|k: int| 0 <= k <= after.len() && rest2 == after.skip(k);
                        assert(after.skip(km) =~= ts.skip(ka + 1 + km));
                        assert forall|j: int|
                            0 <= j < (seq![a] + more).len() implies wf_name(
                            #[trigger] (seq![a] + more)[j].key,
                        ) && wf_entity((seq![a] + more)[j].value) by {
                            if j > 0 {
                                assert((seq![a] + more)[j] == more[j - 1]);
                            }
                        }
                    },
                    None => {},
                }
            } else {
                assert forall|j: int| 0 <= j < seq![a].len() implies wf_name(
                    #[trigger] seq![a][j].key,
                ) && wf_entity(seq![a][j].value) by {}
            }
        },
        None => {},
    }
    // Entity: a number or text token is well-formed by itself; an object
    // combines a well-formed name with a well-formed attribute list.
    if ts.len() > 0 {
        match ts[0] {
            TokenV::Number(v) => {
                assert(wf_token(ts[0]));
            },
            TokenV::Text(name) => {
                assert(wf_token(ts[0]));
                if ts.len() >= 2 && ts[1] is OpenBracket {
                    if ts.len() >= 3 && ts[2] is CloseBracket {
                        assert(wf_attrs_from(Seq::empty(), 0));
                        assert(wf_entity(EntityV::Object(name, Seq::empty())));
                        assert(ts.skip(3) == ts.skip(3));
                    } else {
                        match spec_parse_attr_list(skip2) {
                            Some((attrs, rest)) => {
                                lemma_wf_attrs_from_pointwise(attrs, 0);
                                assert(wf_entity(EntityV::Object(name, attrs)));
                                if rest.len() > 0 && rest[0] is CloseBracket {
                                    let k = choose|k: int|
                                        0 <= k <= skip2.len() && rest == skip2.skip(k);
                                    assert(rest.skip(1) =~= ts.skip(2 + k + 1));
                                }
                            },
                            None => {},
                        }
                    }
                }
            },
            _ => {},
        }
    }
}

/// Every entity the span-splitting scan records is well-formed.
proof fn lemma_split_run_wf(s: Seq<char>)
    ensures
        forall|i: int|
            0 <= i < split_run(s).ents.len() ==> wf_entity(#[trigger] split_run(s).ents[i]),
    decreases s.len(),
{
    if s.len() > 0 {
        lemma_split_run_wf(s.drop_last());
        let st = split_run(s.drop_last());
        let c = s.last();
        let stn = split_run(s);
        assert(stn == split_step(st, c));
        if c == ')' && st.depth - 1 == 0 {
            let obj = st.obj.push(')');
            match span_parse(obj) {
                Some(e) => {
                    lemma_tokens_of_wf(obj);
                    lemma_parse_wf(tokens_of(obj));
                    assert(wf_entity(e));
                    assert forall|i: int| 0 <= i < stn.ents.len() implies wf_entity(
                        #[trigger] stn.ents[i],
                    ) by {
                        if i < st.ents.len() {
                            assert(stn.ents[i] == st.ents[i]);
                        } else {
                            assert(stn.ents[i] == e);
                        }
                    }
                },
                None => {},
            }
        }
    }
}

/// Every entity recorded for a processed line is a well-formed tree: names
/// and text lexable, numbers canonical, nested attributes well-formed.
pub proof fn lemma_message_entities_wf(s: Seq<char>)
    ensures
        forall|i: int|
            0 <= i < spec_message(s).1.len() ==> wf_entity(#[trigger] spec_message(s).1[i]),
{
    lemma_split_run_wf(s);
}

/// A balanced span whose grammar parse succeeds is replaced in the free
/// text by the placeholder carrying its 1-based number, and its entity is
/// recorded behind the earlier ones.
pub proof fn lemma_parsed_span_recorded(st: SplitSt, e: EntityV)
    requires
        st.depth == 1,
        span_parse(st.obj.push(')')) == Some(e),
    ensures
        split_step(st, ')').free == st.free + placeholder((st.ents.len() + 1) as nat),
        split_step(st, ')').ents == st.ents.push(e),
        split_step(st, ')').obj == Seq::<char>::empty(),
{
}

/// A balanced span whose grammar parse fails is kept in the free text
/// verbatim and contributes no entity; the scan goes on unharmed with the
/// rest of the line.
pub proof fn lemma_failed_span_falls_back(st: SplitSt)
    requires
        st.depth == 1,
        span_parse(st.obj.push(')')) is None,
    ensures
        split_step(st, ')').free == st.free + st.obj.push(')'),
        split_step(st, ')').ents == st.ents,
        split_step(st, ')').obj == Seq::<char>::empty(),
{
}

/// An attribute written as `key = ,` or `key = )` parses to a `Null` value,
/// and the comma or closing bracket right after the `=` is not consumed: it
/// stays available to the enclosing list or object.
pub proof fn lemma_omitted_value_is_null(ts: Seq<TokenV>)
    requires
        ts.len() >= 3,
        ts[0] is Text,
        ts[1] is Equals,
        ts[2] is Comma || ts[2] is CloseBracket,
    ensures
        spec_parse_attribute(ts) == Some(
            (AttrV { key: ts[0]->Text_0, value: EntityV::Null }, ts.skip(2)),
        ),
        ts.skip(2)[0] == ts[2],
{
}

/// A span reading `Name ( )` parses to an object with an empty attribute
/// list, all three tokens consumed.
pub proof fn lemma_empty_object_parse(ts: Seq<TokenV>)
    requires
        ts.len() >= 3,
        ts[0] is Text,
        ts[1] is OpenBracket,
        ts[2] is CloseBracket,
    ensures
        spec_parse_entity(ts) == Some(
            (EntityV::Object(ts[0]->Text_0, Seq::empty()), ts.skip(3)),
        ),
{
}

/// The character for one decimal digit.
pub open spec fn digit_char(d: nat) -> char {
    if d == 0 {
        '0'
    } else if d == 1 {
        '1'
    } else if d == 2 {
        '2'
    } else if d == 3 {
        '3'
    } else if d == 4 {
        '4'
    } else if d == 5 {
        '5'
    } else if d == 6 {
        '6'
    } else if d == 7 {
        '7'
    } else if d == 8 {
        '8'
    } else {
        '9'
    }
}

/// The decimal digits of `n`, most significant first.
pub open spec fn dec_digits(n: nat) -> Seq<char>
    decreases n,
{
    let d = digit_char(n % 10);
    if n < 10 {
        seq![d]
    } else {
        dec_digits(n / 10) + seq![d]
    }
}

/// The placeholder substituted into the message template for entity `n`
/// (1-based).
pub open spec fn placeholder(n: nat) -> Seq<char> {
    seq!['{', '{', ' ', 'L', 'o', 'g', ' ', 'E', 'n', 't', 'i', 't', 'y', ' '] + dec_digits(n)
        + seq![' ', '}', '}']
}

/// Parsing one isolated span: the entity its tokens parse to, tokens left
/// over after the entity being ignored.
pub open spec fn span_parse(s: Seq<char>) -> Option<EntityV> {
    match spec_parse_entity(tokens_of(s)) {
        Some((e, rest)) => Some(e),
        None => None,
    }
}

/// Length of the final whitespace-free word of `s`.
pub open spec fn last_word_len(s: Seq<char>) -> int
    decreases s.len(),
{
    if s.len() > 0 && !is_ws(s[s.len() - 1]) {
        1 + last_word_len(s.drop_last())
    } else {
        0
    }
}

/// State of the span-splitting scan: accumulated free text, the candidate
/// object span, the parenthesis depth, and the entities recorded so far.
pub struct SplitSt {
    pub free: Seq<char>,
    pub obj: Seq<char>,
    pub depth: int,
    pub ents: Seq<EntityV>,
}

/// The scan's starting state.
pub open spec fn split_init() -> SplitSt {
    SplitSt { free: Seq::empty(), obj: Seq::empty(), depth: 0, ents: Seq::empty() }
}

/// One step of the span-splitting scan, for one character.
///
/// On `)` closing a depth-0 span, the span is grammar-parsed: on success its
/// placeholder takes its place in the free text and the entity is recorded;
/// on failure the span's literal text is kept in the free text, character
/// for character, and no entity is recorded.  On `(` at depth 0 the last
/// whitespace-free word of the free text moves into the object span as its
/// leading identifier; everything before it, separators included, stays in
/// the free text untouched.
pub open spec fn split_step(st: SplitSt, c: char) -> SplitSt {
    if c == ')' {
        let obj = st.obj.push(')');
        let depth = st.depth - 1;
        if depth == 0 {
            match span_parse(obj) {
                Some(e) => SplitSt {
                    free: st.free + placeholder((st.ents.len() + 1) as nat),
                    obj: Seq::empty(),
                    depth,
                    ents: st.ents.push(e),
                },
                None => SplitSt { free: st.free + obj, obj: Seq::empty(), depth, ents: st.ents },
            }
        } else {
            SplitSt { free: st.free, obj, depth, ents: st.ents }
        }
    } else if c == '(' {
        if st.depth == 0 {
            let k = last_word_len(st.free);
            let last = st.free.skip(st.free.len() - k);
            let free = st.free.take(st.free.len() - k);
            SplitSt { free, obj: st.obj + last + seq!['('], depth: st.depth + 1, ents: st.ents }
        } else {
            SplitSt { free: st.free, obj: st.obj.push('('), depth: st.depth + 1, ents: st.ents }
        }
    } else {
        if st.depth == 0 {
            SplitSt { free: st.free.push(c), obj: st.obj, depth: st.depth, ents: st.ents }
        } else {
            SplitSt { free: st.free, obj: st.obj.push(c), depth: st.depth, ents: st.ents }
        }
    }
}

/// The scan folded over a whole input, left to right.
pub open spec fn split_run(s: Seq<char>) -> SplitSt
    decreases s.len(),
{
    if s.len() == 0 {
        split_init()
    } else {
        split_step(split_run(s.drop_last()), s.last())
    }
}

/// What processing a whole line yields: the message template and the
/// recorded entities.  The template is the input text itself with each
/// successfully parsed span replaced by its placeholder; every other
/// character is kept verbatim, and a candidate span still open at the end
/// stays as plain text.
pub open spec fn spec_message(s: Seq<char>) -> (Seq<char>, Seq<EntityV>) {
    let st = split_run(s);
    (st.free + st.obj, st.ents)
}

/// Writes one decimal digit.
fn digit_char_exec(d: usize) -> (c: char)
    requires
        d < 10,
    ensures
        c == digit_char(d as nat),
{
    if d == 0 {
        '0'
    } else if d == 1 {
        '1'
    } else if d == 2 {
        '2'
    } else if d == 3 {
        '3'
    } else if d == 4 {
        '4'
    } else if d == 5 {
        '5'
    } else if d == 6 {
        '6'
    } else if d == 7 {
        '7'
    } else if d == 8 {
        '8'
    } else {
        '9'
    }
}

/// Appends the decimal digits of `n`.
pub(crate) fn push_decimal(out: &mut Vec<char>, n: usize)
    ensures
        final(out)@ == old(out)@ + dec_digits(n as nat),
    decreases n,
{
    if n < 10 {
        let c = digit_char_exec(n);
        out.push(c);
        proof {
            assert(out@ =~= old(out)@ + dec_digits(n as nat));
        }
    } else {
        push_decimal(out, n / 10);
        let c = digit_char_exec(n % 10);
        out.push(c);
        proof {
            assert(out@ =~= old(out)@ + dec_digits(n as nat));
        }
    }
}

/// Appends the placeholder for entity `n`.
fn push_placeholder(out: &mut Vec<char>, n: usize)
    ensures
        final(out)@ == old(out)@ + placeholder(n as nat),
{
    out.push('{');
    out.push('{');
    out.push(' ');
    out.push('L');
    out.push('o');
    out.push('g');
    out.push(' ');
    out.push('E');
    out.push('n');
    out.push('t');
    out.push('i');
    out.push('t');
    out.push('y');
    out.push(' ');
    push_decimal(out, n);
    out.push(' ');
    out.push('}');
    out.push('}');
    proof {
        assert(out@ =~= old(out)@ + placeholder(n as nat));
    }
}

/// Pushing an entity extends the sequence of views by its view.
proof fn lemma_entities_view_push(v1: Vec<LogEntity>, v2: Vec<LogEntity>)
    requires
        v1@.len() + 1 == v2@.len(),
        forall|j: int| 0 <= j < v1@.len() ==> v2@[j] == v1@[j],
    ensures
        entities_view_from(v2, 0) == entities_view_from(v1, 0) + seq![
            v2@[v1@.len() as int]@,
        ],
{
    lemma_entities_view_from(v1, 0);
    lemma_entities_view_from(v2, 0);
    assert(entities_view_from(v2, 0) =~= entities_view_from(v1, 0) + seq![
        v2@[v1@.len() as int]@,
    ]);
}

/// A recursive-descent parser over one input line.
pub struct Parser<'a> {
    lexer: Lexer,
    input: &'a str,
}

/// A grammar failure: what was expected and what stood there instead.
#[derive(Debug)]
pub struct ParseError {
    what: String,
}

impl ParseError {
    /// The human-readable description carried by this error.
    pub fn message(&self) -> (s: String)
        ensures
            s@ == self@,
    {
        self.what.clone()
    }
}

impl View for ParseError {
    type V = Seq<char>;

    closed spec fn view(&self) -> Seq<char> {
        self.what@
    }
}

/// Builds a `ParseError` around a fixed description.
fn parse_error(what: &str) -> (e: ParseError)
    ensures
        e@ == what@,
{
    ParseError { what: String::from_str(what) }
}

/// Builds a `ParseError` saying what was expected and which token, if any,
/// stood there instead.
fn parse_error_found(what: &str, found: &Option<Token>) -> (e: ParseError)
    ensures
        e@ == what@ + opt_token_desc(opt_token_view(*found)),
{
    let mut s = String::from_str(what);
    let d = describe_opt_token(found);
    s.append(d.as_str());
    ParseError { what: s }
}

/// Builds a `ParseError` saying what was expected and which token stood
/// there instead.
fn parse_error_found_token(what: &str, found: &Token) -> (e: ParseError)
    ensures
        e@ == what@ + token_desc(found@),
{
    let mut s = String::from_str(what);
    let d = describe_token(found);
    s.append(d.as_str());
    ParseError { what: s }
}

impl<'a> Parser<'a> {
    /// The parser's lexer state is sound.
    pub closed spec fn wf(&self) -> bool {
        self.lexer.wf()
    }

    /// The tokens the grammar functions still have in front of them.
    pub closed spec fn token_stream(&self) -> Seq<TokenV> {
        self.lexer.stream()
    }

    /// The input line this parser was built over.
    pub closed spec fn input_view(&self) -> Seq<char> {
        self.input@
    }

    /// Builds a parser over `input`.  No token is read yet: the token stream
    /// is primed span by span inside `parse_log_message`.
    pub fn create(input: &'a str) -> (p: Parser<'a>)
        ensures
            p.wf(),
            p.input_view() == input@,
            p.token_stream() == Seq::<TokenV>::empty(),
    {
        let lexer = Lexer::create(input);
        Parser { lexer, input }
    }

    /// Processes a whole line: separates free prose from balanced-parenthesis
    /// object spans in one left-to-right scan, grammar-parses each completed
    /// span, and returns the message template together with the entities, in
    /// order.  The template is the input text itself, character for
    /// character, with each successfully parsed span replaced by its
    /// placeholder; a malformed span and a candidate span still open at the
    /// end stay as plain text.  The scan, the fallback and the placeholders
    /// follow `spec_message` exactly; the call always succeeds.
    #[verifier::loop_isolation(false)]
    #[verifier::rlimit(60)]
    pub fn parse_log_message(&mut self) -> (r: Result<LogMessage, ParseError>)
        requires
            old(self).wf(),
        ensures
            final(self).wf(),
            match r {
                Ok(m) => m.message@ == spec_message(old(self).input_view()).0
                    && entities_view_from(m.log_entity, 0) == spec_message(
                    old(self).input_view(),
                ).1,
                Err(_) => false,
            },
    {
        let chars = str_to_chars(self.input);
        let n = chars.len();
        let mut bracket_counter: i128 = 0;
        let mut log_entites: Vec<LogEntity> = Vec::new();
        let mut current_object_string: Vec<char> = Vec::new();
        let mut current_log_string: Vec<char> = Vec::new();
        proof {
            assert(chars@.take(0) =~= Seq::<char>::empty());
        }
        let mut i: usize = 0;
        while i < n
            invariant
                n == chars@.len(),
                i <= n,
                self.wf(),
                -(i as int) <= bracket_counter as int <= i as int,
                ({
                    let st = split_run(chars@.take(i as int));
                    &&& st.free == current_log_string@
                    &&& st.obj == current_object_string@
                    &&& st.depth == bracket_counter as int
                    &&& st.ents == entities_view_from(log_entites, 0)
                }),
            decreases n - i,
        {
            let ghost st0 = split_run(chars@.take(i as int));
            let c = chars[i];
            proof {
                assert(chars@.take(i as int + 1).drop_last() =~= chars@.take(i as int));
                assert(chars@.take(i as int + 1).last() == c);
                assert(split_run(chars@.take(i as int + 1)) == split_step(st0, c));
            }
            if c == ')' {
                current_object_string.push(')');
                bracket_counter = bracket_counter - 1;
                if bracket_counter == 0 {
                    // A span is complete: try to parse it as one entity.
                    let span_str = chars_to_string(&current_object_string);
                    self.lexer = Lexer::create(span_str.as_str());
                    self.lexer.next();
                    proof {
                        assert(self.token_stream() == tokens_of(current_object_string@));
                    }
                    let pr = self.parse_log_entity();
                    match pr {
                        Ok(log_entity) => {
                            let ghost ev = log_entity@;
                            let ghost v1 = log_entites;
                            log_entites.push(log_entity);
                            push_placeholder(&mut current_log_string, log_entites.len());
                            proof {
                                lemma_entities_view_push(v1, log_entites);
                                lemma_entities_view_from(v1, 0);
                                assert(span_parse(st0.obj.push(')')) == Some(ev));
                                assert(st0.ents.push(ev) =~= st0.ents + seq![ev]);
                                assert(entities_view_from(log_entites, 0) == st0.ents.push(ev));
                                assert(log_entites@.len() == st0.ents.len() + 1);
                                assert(current_log_string@ == st0.free + placeholder(
                                    (st0.ents.len() + 1) as nat,
                                ));
                            }
                        },
                        Err(_) => {
                            // Malformed span: keep its literal text, verbatim.
                            current_log_string.append(&mut current_object_string);
                            proof {
                                assert(span_parse(st0.obj.push(')')) is None);
                                assert(current_log_string@ =~= st0.free + st0.obj.push(')'));
                            }
                        },
                    }
                    current_object_string = Vec::new();
                    proof {
                        assert(current_object_string@ =~= Seq::<char>::empty());
                    }
                }
            } else if c == '(' {
                let ghost was_zero = bracket_counter == 0;
                if bracket_counter == 0 {
                    // Reclassify the last word of the free text as the
                    // span's leading identifier.
                    let len = current_log_string.len();
                    proof {
                        assert(current_log_string@.take(len as int) =~= current_log_string@);
                    }
                    let mut j: usize = len;
                    while j > 0 && !char_is_whitespace(current_log_string[j - 1])
                        invariant
                            j <= len,
                            last_word_len(current_log_string@) == len - j + last_word_len(
                                current_log_string@.take(j as int),
                            ),
                        decreases j,
                    {
                        proof {
                            let t = current_log_string@.take(j as int);
                            assert(t.last() == current_log_string@[j - 1]);
                            assert(t.drop_last() =~= current_log_string@.take(j as int - 1));
                        }
                        j = j - 1;
                    }
                    proof {
                        if j > 0 {
                            let t = current_log_string@.take(j as int);
                            assert(t.last() == current_log_string@[j - 1]);
                        }
                        assert(last_word_len(current_log_string@) == len - j);
                    }
                    let ghost k = last_word_len(current_log_string@);
                    // Move the word into the object span.
                    let mut m: usize = j;
                    while m < len
                        invariant
                            j <= m <= len,
                            len == current_log_string@.len(),
                            current_object_string@ == st0.obj + current_log_string@.subrange(
                                j as int,
                                m as int,
                            ),
                        decreases len - m,
                    {
                        let ch = current_log_string[m];
                        proof {
                            assert(current_log_string@.subrange(j as int, m as int + 1)
                                =~= current_log_string@.subrange(j as int, m as int).push(ch));
                            assert(st0.obj + current_log_string@.subrange(j as int, m as int).push(
                                ch,
                            ) =~= (st0.obj + current_log_string@.subrange(j as int, m as int)).push(
                                ch,
                            ));
                        }
                        current_object_string.push(ch);
                        m = m + 1;
                    }
                    proof {
                        assert(current_log_string@.subrange(j as int, len as int)
                            =~= current_log_string@.skip(len - k));
                        assert(current_object_string@ == st0.obj + st0.free.skip(
                            st0.free.len() - k,
                        ));
                    }
                    // Everything before the word stays in the free text,
                    // separators included.
                    current_log_string.truncate(j);
                    proof {
                        assert(current_log_string@ =~= st0.free.take(st0.free.len() - k));
                    }
                }
                current_object_string.push('(');
                bracket_counter = bracket_counter + 1;
                proof {
                    let stn = split_step(st0, c);
                    if was_zero {
                        let k2 = last_word_len(st0.free);
                        assert(current_object_string@ =~= (st0.obj + st0.free.skip(
                            st0.free.len() - k2,
                        )) + seq!['(']);
                        assert(stn.obj =~= current_object_string@);
                    } else {
                        assert(stn.obj =~= current_object_string@);
                    }
                }
            } else {
                if bracket_counter == 0 {
                    current_log_string.push(c);
                } else {
                    current_object_string.push(c);
                }
            }
            i = i + 1;
        }
        proof {
            assert(chars@.take(n as int) =~= chars@);
        }
        current_log_string.append(&mut current_object_string);
        proof {
            let st = split_run(chars@);
            assert(current_log_string@ =~= st.free + st.obj);
        }
        let message = chars_to_string(&current_log_string);
        Ok(LogMessage { message, log_entity: log_entites })
    }

    /// Parses one `LogEntity` from the tokens in front of the parser.
    /// Success and failure follow `spec_parse_entity` exactly; on success the
    /// remaining stream is what that function leaves.
    pub fn parse_log_entity(&mut self) -> (r: Result<LogEntity, ParseError>)
        requires
            old(self).wf(),
        ensures
            final(self).wf(),
            match r {
                Ok(e) => spec_parse_entity(old(self).token_stream()) == Some(
                    (e@, final(self).token_stream()),
                ),
                Err(_) => spec_parse_entity(old(self).token_stream()) is None,
            },
        decreases self.token_stream().len(), 2int,
    {
        let ghost ts = old(self).token_stream();
        let t = self.lexer.get_next_token();
        match t {
            None => Err(parse_error("No token remaining to parse LogEntity")),
            Some(tok) => {
                proof {
                    assert(ts[0] == tok@);
                }
                self.lexer.next();
                proof {
                    assert(self.token_stream() =~= ts.skip(1));
                }
                match tok {
                    Token::Number(value) => Ok(LogEntity::Number(value)),
                    Token::Text(text) => {
                        let t2 = self.lexer.get_next_token();
                        if let Some(Token::OpenBracket) = t2 {
                            proof {
                                assert(ts.skip(1)[0] == ts[1]);
                            }
                            self.lexer.next();
                            proof {
                                assert(self.token_stream() =~= ts.skip(2));
                            }
                            let t3 = self.lexer.get_next_token();
                            if let Some(Token::CloseBracket) = t3 {
                                proof {
                                    assert(ts.skip(2)[0] == ts[2]);
                                }
                                self.lexer.next();
                                proof {
                                    assert(self.token_stream() =~= ts.skip(3));
                                }
                                let al = AttributeList { attributes: Vec::new() };
                                proof {
                                    assert(al@ =~= Seq::<AttrV>::empty());
                                }
                                Ok(LogEntity::Object(text, al))
                            } else {
                                proof {
                                    if ts.len() >= 3 {
                                        assert(ts.skip(2)[0] == ts[2]);
                                    }
                                }
                                let attributes = match self.parse_attribute_list() {
                                    Ok(al) => al,
                                    Err(e) => {
                                        return Err(e);
                                    },
                                };
                                let t4 = self.lexer.get_next_token();
                                if let Some(Token::CloseBracket) = t4 {
                                    let ghost rest = self.token_stream();
                                    self.lexer.next();
                                    proof {
                                        assert(self.token_stream() =~= rest.skip(1));
                                    }
                                    Ok(LogEntity::Object(text, attributes))
                                } else {
                                    Err(
                                        parse_error_found(
                                            "Expected closing bracket after attribute list but found ",
                                            &t4,
                                        ),
                                    )
                                }
                            }
                        } else {
                            proof {
                                if ts.len() >= 2 {
                                    assert(ts.skip(1)[0] == ts[1]);
                                }
                            }
                            Ok(LogEntity::Text(text))
                        }
                    },
                    other => Err(
                        parse_error_found_token(
                            "Unexpected token while parsing LogEntity: ",
                            &other,
                        ),
                    ),
                }
            },
        }
    }

    /// Parses `Attribute (',' Attribute)*`, leaving whatever follows the last
    /// attribute unconsumed.
    #[verifier::loop_isolation(false)]
    fn parse_attribute_list(&mut self) -> (r: Result<AttributeList, ParseError>)
        requires
            old(self).wf(),
        ensures
            final(self).wf(),
            match r {
                Ok(al) => spec_parse_attr_list(old(self).token_stream()) == Some(
                    (al@, final(self).token_stream()),
                ),
                Err(_) => spec_parse_attr_list(old(self).token_stream()) is None,
            },
        decreases self.token_stream().len(), 1int,
    {
        let ghost ts = old(self).token_stream();
        let first = match self.parse_attribute() {
            Ok(a) => a,
            Err(e) => {
                return Err(e);
            },
        };
        proof {
            lemma_parse_consumes(ts);
        }
        let mut attributes: Vec<Attribute> = Vec::new();
        attributes.push(first);
        proof {
            lemma_attrs_view_from(attributes, 0);
            assert(attrs_view_from(attributes, 0) =~= seq![attributes@[0]@]);
        }
        loop
            invariant
                self.wf(),
                attributes@.len() >= 1,
                self.token_stream().len() + 2 <= ts.len(),
                ({
                    let cur = self.token_stream();
                    let done = attrs_view_from(attributes, 0);
                    &&& (cur.len() > 0 && cur[0] is Comma ==> spec_parse_attr_list(ts) == (
                    match spec_parse_attr_list(cur.skip(1)) {
                        Some((more, rest)) => Some::<(Seq<AttrV>, Seq<TokenV>)>(
                            (done + more, rest),
                        ),
                        None => None::<(Seq<AttrV>, Seq<TokenV>)>,
                    }))
                    &&& (!(cur.len() > 0 && cur[0] is Comma) ==> spec_parse_attr_list(ts)
                        == Some::<(Seq<AttrV>, Seq<TokenV>)>((done, cur)))
                }),
            decreases self.token_stream().len(),
        {
            let t = self.lexer.get_next_token();
            let is_comma = if let Some(Token::Comma) = t {
                true
            } else {
                false
            };
            if !is_comma {
                return Ok(AttributeList { attributes });
            }
            let ghost cur = self.token_stream();
            let ghost done = attrs_view_from(attributes, 0);
            self.lexer.next();
            proof {
                assert(self.token_stream() =~= cur.skip(1));
            }
            let next_attr = match self.parse_attribute() {
                Ok(a) => a,
                Err(e) => {
                    return Err(e);
                },
            };
            proof {
                lemma_parse_consumes(cur.skip(1));
            }
            let ghost v1 = attributes;
            attributes.push(next_attr);
            proof {
                lemma_attrs_view_from(v1, 0);
                lemma_attrs_view_from(attributes, 0);
                assert(attrs_view_from(attributes, 0) =~= done + seq![attributes@[v1@.len()
                    as int]@]);
                let cur2 = self.token_stream();
                if cur2.len() > 0 && cur2[0] is Comma {
                    match spec_parse_attr_list(cur2.skip(1)) {
                        Some((more, rest)) => {
                            assert(done + (seq![next_attr@] + more) =~= (done + seq![
                                next_attr@,
                            ]) + more);
                        },
                        None => {},
                    }
                } else {
                    assert(done + seq![next_attr@] =~= attrs_view_from(attributes, 0));
                }
            }
        }
    }

    /// Parses `Text '=' [LogEntity]`.  When the token right after `=` is a
    /// comma or a closing bracket the value is `Null` and that token stays
    /// for the enclosing list or object.
    fn parse_attribute(&mut self) -> (r: Result<Attribute, ParseError>)
        requires
            old(self).wf(),
        ensures
            final(self).wf(),
            match r {
                Ok(a) => spec_parse_attribute(old(self).token_stream()) == Some(
                    (a@, final(self).token_stream()),
                ),
                Err(_) => spec_parse_attribute(old(self).token_stream()) is None,
            },
        decreases self.token_stream().len(), 0int,
    {
        let ghost ts = old(self).token_stream();
        let t = self.lexer.get_next_token();
        if let Some(Token::Text(attribute_name)) = t {
            self.lexer.next();
            proof {
                assert(ts[0] == TokenV::Text(attribute_name@));
                assert(self.token_stream() =~= ts.skip(1));
            }
            let t2 = self.lexer.get_next_token();
            if let Some(Token::Equals) = t2 {
                proof {
                    assert(ts.skip(1)[0] == ts[1]);
                }
                self.lexer.next();
                proof {
                    assert(self.token_stream() =~= ts.skip(2));
                }
                let t3 = self.lexer.get_next_token();
                let omitted = match &t3 {
                    Some(Token::Comma) => true,
                    Some(Token::CloseBracket) => true,
                    _ => false,
                };
                if omitted {
                    // The comma or bracket is not consumed: it belongs to the
                    // enclosing list or object.
                    proof {
                        assert(ts.skip(2)[0] == ts[2]);
                    }
                    return Ok(Attribute { key: attribute_name, value: LogEntity::Null });
                }
                proof {
                    if ts.len() >= 3 {
                        assert(ts.skip(2)[0] == ts[2]);
                    }
                }
                let value = match self.parse_log_entity() {
                    Ok(v) => v,
                    Err(e) => {
                        return Err(e);
                    },
                };
                Ok(Attribute { key: attribute_name, value })
            } else {
                proof {
                    if ts.len() >= 2 {
                        assert(ts.skip(1)[0] == ts[1]);
                    }
                }
                Err(parse_error_found("Expected equals between name and value but found ", &t2))
            }
        } else {
            Err(parse_error_found("Expected attribute name but found token ", &t))
        }
    }
}

} // verus!
