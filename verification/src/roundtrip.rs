//! Round-trip stability of the render -> parse -> render pipeline.
//!
//! Rendering a well-formed entity tree in the grammar's own surface syntax,
//! re-lexing and re-parsing that text yields the very same tree, so
//! rendering the re-parsed tree gives the same JSON output as rendering the
//! tree one started from.

use vstd::prelude::*;

use crate::ast::AttrV;
use crate::ast::EntityV;
use crate::ast::wf_attrs_from;
use crate::ast::wf_entity;
use crate::chars::is_alpha;
use crate::chars::is_structural;
use crate::chars::is_ws;
use crate::chars::is_digit;
use crate::lexer::TokenV;
use crate::lexer::is_num_run_char;
use crate::lexer::lemma_next_token_progress;
use crate::lexer::next_token;
use crate::lexer::skip_ws;
use crate::lexer::take_num;
use crate::lexer::take_text;
use crate::lexer::tokens_of;
use crate::lexer::trim_end_ws;
use crate::number::is_canon_number;
use crate::number::lemma_canon_number_shape;
use crate::parser::span_parse;
use crate::parser::spec_parse_attr_list;
use crate::parser::spec_parse_attribute;
use crate::parser::spec_parse_entity;
use crate::visitor::json_of;
use crate::visitor::surface_attrs_from;
use crate::visitor::surface_of;

verus! {

/// The tokens that the surface syntax of an entity lexes to.
pub open spec fn surface_tokens(e: EntityV) -> Seq<TokenV>
    decreases e,
{
    match e {
        EntityV::Null => Seq::empty(),
        EntityV::Text(s) => seq![TokenV::Text(s)],
        EntityV::Number(s) => seq![TokenV::Number(s)],
        EntityV::Object(name, attrs) => seq![TokenV::Text(name), TokenV::OpenBracket]
            + surface_attr_tokens_from(attrs, 0) + seq![TokenV::CloseBracket],
    }
}

/// The tokens of the attributes from `i` on, comma tokens between them.
pub open spec fn surface_attr_tokens_from(attrs: Seq<AttrV>, i: int) -> Seq<TokenV>
    decreases attrs, attrs.len() - i,
{
    if 0 <= i < attrs.len() {
        (if i > 0 {
            seq![TokenV::Comma]
        } else {
            Seq::empty()
        }) + seq![TokenV::Text(attrs[i].key), TokenV::Equals] + surface_tokens(attrs[i].value)
            + surface_attr_tokens_from(attrs, i + 1)
    } else {
        Seq::empty()
    }
}

/// The tokens of the attributes from `i` on without the leading comma.
pub open spec fn tok_attrs_tail(attrs: Seq<AttrV>, i: int) -> Seq<TokenV> {
    seq![TokenV::Text(attrs[i].key), TokenV::Equals] + surface_tokens(attrs[i].value)
        + surface_attr_tokens_from(attrs, i + 1)
}

proof fn lemma_attr_tokens_split(attrs: Seq<AttrV>, i: int)
    requires
        0 <= i < attrs.len(),
    ensures
        i > 0 ==> surface_attr_tokens_from(attrs, i) == seq![TokenV::Comma] + tok_attrs_tail(
            attrs,
            i,
        ),
        i == 0 ==> surface_attr_tokens_from(attrs, i) == tok_attrs_tail(attrs, i),
{
    if i > 0 {
        assert(surface_attr_tokens_from(attrs, i) =~= seq![TokenV::Comma] + tok_attrs_tail(
            attrs,
            i,
        ));
    } else {
        assert(surface_attr_tokens_from(attrs, i) =~= tok_attrs_tail(attrs, i));
    }
}

/// Consuming one produced token unfolds the token stream by one.
proof fn lemma_tokens_step(s: Seq<char>, tok: TokenV, rest: Seq<char>)
    requires
        next_token(s) == (Some(tok), rest),
    ensures
        tokens_of(s) == seq![tok] + tokens_of(rest),
{
    lemma_next_token_progress(s);
}

/// A leading space changes neither the next token nor the token stream.
proof fn lemma_tokens_space_prefix(z: Seq<char>)
    ensures
        next_token(seq![' '] + z) == next_token(z),
        tokens_of(seq![' '] + z) == tokens_of(z),
{
    let s = seq![' '] + z;
    assert(is_ws(s[0]));
    assert(s.skip(1) =~= z);
    assert(skip_ws(s) == skip_ws(z));
    assert(next_token(s) == next_token(z));
    lemma_next_token_progress(s);
    lemma_next_token_progress(z);
    match next_token(z).0 {
        Some(tok) => {
            assert(tokens_of(s) == seq![tok] + tokens_of(next_token(z).1));
            assert(tokens_of(z) == seq![tok] + tokens_of(next_token(z).1));
        },
        None => {},
    }
}

/// A run of non-structural characters before a structural boundary is taken
/// whole.
proof fn lemma_take_text_concat(content: Seq<char>, rest: Seq<char>)
    requires
        forall|i: int| 0 <= i < content.len() ==> !is_structural(#[trigger] content[i]),
        rest.len() == 0 || is_structural(rest[0]),
    ensures
        take_text(content + rest) == (content, rest),
    decreases content.len(),
{
    if content.len() == 0 {
        assert(content + rest =~= rest);
        assert(take_text(rest) == (Seq::<char>::empty(), rest));
        assert(content =~= Seq::<char>::empty());
    } else {
        let t = content + rest;
        assert(t[0] == content[0]);
        assert(t.skip(1) =~= content.skip(1) + rest);
        lemma_take_text_concat(content.skip(1), rest);
        assert(seq![t[0]] + content.skip(1) =~= content);
    }
}

/// A run of numeric-run characters before another kind of character is
/// taken whole.
proof fn lemma_take_num_concat(content: Seq<char>, rest: Seq<char>)
    requires
        forall|i: int| 0 <= i < content.len() ==> is_num_run_char(#[trigger] content[i]),
        rest.len() == 0 || !is_num_run_char(rest[0]),
    ensures
        take_num(content + rest) == (content, rest),
    decreases content.len(),
{
    if content.len() == 0 {
        assert(content + rest =~= rest);
        assert(take_num(rest) == (Seq::<char>::empty(), rest));
        assert(content =~= Seq::<char>::empty());
    } else {
        let t = content + rest;
        assert(t[0] == content[0]);
        assert(t.skip(1) =~= content.skip(1) + rest);
        lemma_take_num_concat(content.skip(1), rest);
        assert(seq![t[0]] + content.skip(1) =~= content);
    }
}

/// Trimming removes nothing from a text with no trailing whitespace.
proof fn lemma_trim_noop(s: Seq<char>)
    requires
        s.len() > 0 ==> !is_ws(s[s.len() - 1]),
    ensures
        trim_end_ws(s) == s,
{
}

/// Trimming removes exactly one trailing space.
proof fn lemma_trim_one_space(k: Seq<char>)
    requires
        k.len() > 0 ==> !is_ws(k[k.len() - 1]),
    ensures
        trim_end_ws(k + seq![' ']) == k,
{
    let s = k + seq![' '];
    assert(s[s.len() - 1] == ' ');
    assert(is_ws(' '));
    assert(s.drop_last() =~= k);
    lemma_trim_noop(k);
}

/// The next token of a non-structural run before a structural boundary is a
/// text token holding the trimmed run.
proof fn lemma_next_token_textish(content: Seq<char>, rest: Seq<char>, trimmed: Seq<char>)
    requires
        content.len() > 0,
        is_alpha(content[0]),
        !is_ws(content[0]),
        forall|i: int| 0 <= i < content.len() ==> !is_structural(#[trigger] content[i]),
        rest.len() == 0 || is_structural(rest[0]),
        trim_end_ws(content) == trimmed,
    ensures
        next_token(content + rest) == (Some(TokenV::Text(trimmed)), rest),
{
    let t = content + rest;
    assert(t[0] == content[0]);
    assert(skip_ws(t) == t);
    lemma_take_text_concat(content, rest);
    assert(!is_structural(content[0]));
}

/// The next token of a canonical decimal before a comma or closing bracket
/// is a number token holding it unchanged.
proof fn lemma_next_token_number(s: Seq<char>, rest: Seq<char>)
    requires
        is_canon_number(s),
        rest.len() == 0 || rest[0] == ',' || rest[0] == ')',
    ensures
        next_token(s + rest) == (Some(TokenV::Number(s)), rest),
{
    lemma_canon_number_shape(s, s);
    let t = s + rest;
    assert(t[0] == s[0]);
    assert(is_digit(s[0]));
    assert(skip_ws(t) == t);
    assert(forall|i: int| 0 <= i < s.len() ==> is_num_run_char(#[trigger] s[i]));
    lemma_take_num_concat(s, rest);
}

/// Lexing the surface syntax of a well-formed entity, followed by a comma,
/// a closing bracket or nothing, yields its token list followed by whatever
/// the continuation lexes to.
proof fn lemma_lex_entity(e: EntityV, rest: Seq<char>)
    requires
        wf_entity(e),
        rest.len() == 0 || rest[0] == ',' || rest[0] == ')',
    ensures
        tokens_of(surface_of(e) + rest) == surface_tokens(e) + tokens_of(rest),
    decreases e,
{
    match e {
        EntityV::Null => {
            assert(surface_of(e) + rest =~= rest);
            assert(surface_tokens(e) + tokens_of(rest) =~= tokens_of(rest));
        },
        EntityV::Text(s) => {
            lemma_trim_noop(s);
            lemma_next_token_textish(s, rest, s);
            lemma_tokens_step(s + rest, TokenV::Text(s), rest);
            assert(surface_tokens(e) + tokens_of(rest) =~= seq![TokenV::Text(s)] + tokens_of(
                rest,
            ));
        },
        EntityV::Number(s) => {
            lemma_next_token_number(s, rest);
            lemma_tokens_step(s + rest, TokenV::Number(s), rest);
            assert(surface_tokens(e) + tokens_of(rest) =~= seq![TokenV::Number(s)] + tokens_of(
                rest,
            ));
        },
        EntityV::Object(name, attrs) => {
            let inner = surface_attrs_from(attrs, 0);
            let rest1 = seq!['('] + inner + seq![')'] + rest;
            assert(surface_of(e) + rest =~= name + rest1);
            assert(rest1[0] == '(');
            lemma_trim_noop(name);
            lemma_next_token_textish(name, rest1, name);
            lemma_tokens_step(name + rest1, TokenV::Text(name), rest1);
            let rest2 = inner + seq![')'] + rest;
            assert(skip_ws(rest1) == rest1);
            assert(rest1.skip(1) =~= rest2);
            assert(next_token(rest1) == (Some(TokenV::OpenBracket), rest2));
            lemma_tokens_step(rest1, TokenV::OpenBracket, rest2);
            let close_rest = seq![')'] + rest;
            assert(close_rest[0] == ')');
            assert(skip_ws(close_rest) == close_rest);
            assert(close_rest.skip(1) =~= rest);
            assert(next_token(close_rest) == (Some(TokenV::CloseBracket), rest));
            lemma_tokens_step(close_rest, TokenV::CloseBracket, rest);
            if attrs.len() == 0 {
                assert(inner =~= Seq::<char>::empty());
                assert(rest2 =~= close_rest);
                assert(surface_attr_tokens_from(attrs, 0) =~= Seq::<TokenV>::empty());
                assert(tokens_of(surface_of(e) + rest) =~= surface_tokens(e) + tokens_of(rest));
            } else {
                assert(rest2 =~= inner + close_rest);
                lemma_lex_attrs(attrs, 0, close_rest);
                assert(tokens_of(rest2) == surface_attr_tokens_from(attrs, 0) + tokens_of(
                    close_rest,
                ));
                assert(tokens_of(surface_of(e) + rest) =~= surface_tokens(e) + tokens_of(rest));
            }
        },
    }
}

/// Lexing the surface syntax of the attributes from `i` on, followed by a
/// closing bracket, yields their token list followed by the continuation's.
#[verifier::rlimit(100)]
proof fn lemma_lex_attrs(attrs: Seq<AttrV>, i: int, rest: Seq<char>)
    requires
        0 <= i < attrs.len(),
        wf_attrs_from(attrs, i),
        rest.len() > 0 && rest[0] == ')',
    ensures
        tokens_of(surface_attrs_from(attrs, i) + rest) == surface_attr_tokens_from(attrs, i)
            + tokens_of(rest),
    decreases attrs, attrs.len() - i,
{
    let key = attrs[i].key;
    let value = attrs[i].value;
    let sfrom_next = surface_attrs_from(attrs, i + 1);
    let tail_s = sfrom_next + rest;
    // The continuation after this attribute's value starts with a comma (the
    // next attribute's separator) or the closing bracket.
    if i + 1 < attrs.len() {
        assert(sfrom_next == seq![',', ' '] + attrs[i + 1].key + seq![' ', '=', ' '] + surface_of(
            attrs[i + 1].value,
        ) + surface_attrs_from(attrs, i + 2));
        assert(sfrom_next[0] == ',');
        assert(tail_s[0] == ',');
        lemma_lex_attrs(attrs, i + 1, rest);
    } else {
        assert(sfrom_next =~= Seq::<char>::empty());
        assert(tail_s =~= rest);
        assert(surface_attr_tokens_from(attrs, i + 1) =~= Seq::<TokenV>::empty());
    }
    assert(tokens_of(tail_s) == surface_attr_tokens_from(attrs, i + 1) + tokens_of(rest));
    // key, then ` = `, then the value.
    lemma_lex_entity(value, tail_s);
    let valued = surface_of(value) + tail_s;
    let after_key = seq!['='] + (seq![' '] + valued);
    let keyed = (key + seq![' ']) + after_key;
    lemma_trim_one_space(key);
    assert(after_key[0] == '=');
    lemma_next_token_textish(key + seq![' '], after_key, key);
    lemma_tokens_step(keyed, TokenV::Text(key), after_key);
    assert(skip_ws(after_key) == after_key);
    assert(after_key.skip(1) =~= seq![' '] + valued);
    assert(next_token(after_key) == (Some(TokenV::Equals), seq![' '] + valued));
    lemma_tokens_step(after_key, TokenV::Equals, seq![' '] + valued);
    lemma_tokens_space_prefix(valued);
    assert(tokens_of(keyed) =~= seq![TokenV::Text(key), TokenV::Equals] + surface_tokens(value)
        + surface_attr_tokens_from(attrs, i + 1) + tokens_of(rest));
    let whole = surface_attrs_from(attrs, i) + rest;
    if i > 0 {
        assert(whole =~= seq![','] + (seq![' '] + keyed));
        assert(whole[0] == ',');
        assert(skip_ws(whole) == whole);
        assert(whole.skip(1) =~= seq![' '] + keyed);
        assert(next_token(whole) == (Some(TokenV::Comma), seq![' '] + keyed));
        lemma_tokens_step(whole, TokenV::Comma, seq![' '] + keyed);
        lemma_tokens_space_prefix(keyed);
        assert(tokens_of(whole) =~= surface_attr_tokens_from(attrs, i) + tokens_of(rest));
    } else {
        assert(whole =~= keyed);
        assert(tokens_of(whole) =~= surface_attr_tokens_from(attrs, i) + tokens_of(rest));
    }
}

/// The first token of a non-omitted entity's surface syntax is a text or
/// number token.
proof fn lemma_surface_tokens_head(e: EntityV)
    requires
        !(e is Null),
    ensures
        surface_tokens(e).len() > 0,
        surface_tokens(e)[0] is Text || surface_tokens(e)[0] is Number,
{
    match e {
        EntityV::Object(name, attrs) => {
            assert(surface_tokens(e)[0] == TokenV::Text(name));
        },
        _ => {},
    }
}

/// Parsing the token list of a well-formed, non-omitted entity, followed by
/// a comma, a closing bracket or nothing, yields that entity back and the
/// continuation untouched.
proof fn lemma_parse_surface_entity(e: EntityV, ts: Seq<TokenV>)
    requires
        wf_entity(e),
        !(e is Null),
        ts.len() == 0 || ts[0] is Comma || ts[0] is CloseBracket,
    ensures
        spec_parse_entity(surface_tokens(e) + ts) == Some((e, ts)),
    decreases e,
{
    let full = surface_tokens(e) + ts;
    match e {
        EntityV::Null => {},
        EntityV::Text(s) => {
            assert(full[0] == TokenV::Text(s));
            if full.len() >= 2 {
                assert(full[1] == ts[0]);
            }
            assert(full.skip(1) =~= ts);
        },
        EntityV::Number(s) => {
            assert(full[0] == TokenV::Number(s));
            assert(full.skip(1) =~= ts);
        },
        EntityV::Object(name, attrs) => {
            let atoks = surface_attr_tokens_from(attrs, 0);
            assert(full =~= seq![TokenV::Text(name), TokenV::OpenBracket] + atoks + seq![
                TokenV::CloseBracket,
            ] + ts);
            assert(full[0] == TokenV::Text(name));
            assert(full[1] == TokenV::OpenBracket);
            if attrs.len() == 0 {
                assert(atoks =~= Seq::<TokenV>::empty());
                assert(full[2] == TokenV::CloseBracket);
                assert(full.skip(3) =~= ts);
                assert(attrs =~= Seq::<AttrV>::empty());
            } else {
                lemma_attr_tokens_split(attrs, 0);
                assert(atoks == tok_attrs_tail(attrs, 0));
                assert(atoks[0] == TokenV::Text(attrs[0].key));
                assert(full[2] == atoks[0]);
                assert(!(full.len() >= 3 && full[2] is CloseBracket));
                let close_ts = seq![TokenV::CloseBracket] + ts;
                assert(full.skip(2) =~= tok_attrs_tail(attrs, 0) + close_ts);
                lemma_parse_surface_attrs(attrs, 0, close_ts);
                assert(attrs.skip(0) =~= attrs);
                assert(spec_parse_attr_list(full.skip(2)) == Some((attrs, close_ts)));
                assert(close_ts[0] is CloseBracket);
                assert(close_ts.skip(1) =~= ts);
            }
        },
    }
}

/// Parsing the separator-free token list of the attributes from `i` on,
/// followed by a closing bracket, yields exactly those attributes and
/// leaves the continuation untouched.
proof fn lemma_parse_surface_attrs(attrs: Seq<AttrV>, i: int, ts: Seq<TokenV>)
    requires
        0 <= i < attrs.len(),
        wf_attrs_from(attrs, i),
        ts.len() > 0 && ts[0] is CloseBracket,
    ensures
        spec_parse_attr_list(tok_attrs_tail(attrs, i) + ts) == Some((attrs.skip(i), ts)),
    decreases attrs, attrs.len() - i,
{
    let key = attrs[i].key;
    let value = attrs[i].value;
    let sv = surface_tokens(value);
    let anext = surface_attr_tokens_from(attrs, i + 1);
    let rest0 = anext + ts;
    let full = tok_attrs_tail(attrs, i) + ts;
    assert(full =~= seq![TokenV::Text(key), TokenV::Equals] + sv + rest0);
    assert(full[0] == TokenV::Text(key));
    assert(full[1] == TokenV::Equals);
    assert(full[0]->Text_0 == key);
    // What stands right after the separator of the next attribute, or the
    // closing bracket.
    if i + 1 < attrs.len() {
        lemma_attr_tokens_split(attrs, i + 1);
        assert(anext[0] == TokenV::Comma);
        assert(rest0[0] is Comma);
    } else {
        assert(anext =~= Seq::<TokenV>::empty());
        assert(rest0 =~= ts);
        assert(rest0[0] is CloseBracket);
    }
    if value is Null {
        assert(sv =~= Seq::<TokenV>::empty());
        assert(full =~= seq![TokenV::Text(key), TokenV::Equals] + rest0);
        assert(full[2] == rest0[0]);
        assert(full.skip(2) =~= rest0);
        assert(spec_parse_attribute(full) == Some(
            (AttrV { key, value: EntityV::Null }, rest0),
        ));
        assert(AttrV { key, value: EntityV::Null } == attrs[i]);
    } else {
        lemma_surface_tokens_head(value);
        assert(full[2] == sv[0]);
        assert(!(full[2] is Comma || full[2] is CloseBracket));
        assert(full.skip(2) =~= sv + rest0);
        lemma_parse_surface_entity(value, rest0);
        assert(spec_parse_entity(full.skip(2)) == Some((value, rest0)));
        assert(AttrV { key, value } == attrs[i]);
        assert(spec_parse_attribute(full) == Some((attrs[i], rest0)));
    }
    // The enclosing list: recurse on a comma, stop on the closing bracket.
    assert(spec_parse_attribute(full) == Some((attrs[i], rest0)));
    if i + 1 < attrs.len() {
        assert(rest0.len() > 0 && rest0[0] is Comma);
        assert(rest0.len() <= full.len());
        assert(rest0.skip(1) =~= tok_attrs_tail(attrs, i + 1) + ts);
        lemma_parse_surface_attrs(attrs, i + 1, ts);
        assert(spec_parse_attr_list(rest0.skip(1)) == Some((attrs.skip(i + 1), ts)));
        assert(seq![attrs[i]] + attrs.skip(i + 1) =~= attrs.skip(i));
    } else {
        assert(!(rest0.len() > 0 && rest0[0] is Comma));
        assert(seq![attrs[i]] =~= attrs.skip(i));
    }
}

/// Round-trip stability: rendering a well-formed, non-omitted entity tree
/// in the grammar's own surface syntax and re-parsing that text yields the
/// very same tree, with no tokens left over — so re-rendering the parsed
/// tree gives the same JSON output as rendering the starting tree, at any indent
/// width and nesting prefix.
pub proof fn lemma_render_parse_round_trip(e: EntityV, ind: nat, pre: Seq<char>)
    requires
        wf_entity(e),
        !(e is Null),
    ensures
        spec_parse_entity(tokens_of(surface_of(e))) == Some((e, Seq::<TokenV>::empty())),
        span_parse(surface_of(e)) == Some(e),
        json_of(span_parse(surface_of(e))->0, ind, pre) == json_of(e, ind, pre),
{
    lemma_lex_entity(e, Seq::empty());
    assert(surface_of(e) + Seq::<char>::empty() =~= surface_of(e));
    assert(tokens_of(Seq::<char>::empty()) =~= Seq::<TokenV>::empty());
    lemma_parse_surface_entity(e, Seq::empty());
    assert(surface_tokens(e) + Seq::<TokenV>::empty() =~= surface_tokens(e));
}

} // verus!
