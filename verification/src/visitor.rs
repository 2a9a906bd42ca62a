//! Renderers over the AST.
//!
//! Each AST node exposes an `accept` operation that drives a fixed sequence
//! of renderer callbacks: object entry, the attributes in stored order with
//! a separator between neighbours, object exit; leaves get a single
//! callback.  The JSON renderer turns a tree into indented JSON-like text;
//! the object's name does not appear in it, and an omitted value renders as
//! the `null` token.

use vstd::prelude::*;

use crate::ast::Attribute;
use crate::ast::AttributeList;
use crate::ast::AttrV;
use crate::ast::EntityV;
use crate::ast::LogEntity;
use crate::ast::LogMessage;
use crate::ast::attrs_view_from;
use crate::ast::entities_view_from;
use crate::ast::lemma_attrs_view_from;
use crate::ast::lemma_entities_view_from;
use crate::chars::chars_to_string;
use crate::parser::dec_digits;
use crate::parser::push_decimal;

verus! {

/// `n` spaces.
pub open spec fn spaces(n: nat) -> Seq<char> {
    Seq::new(n, |i: int| ' ')
}

/// The JSON text of an entity, rendered with `ind` spaces per level while
/// the current line indentation is `pre`.  An object's name does not appear;
/// an omitted value renders as the `null` token.
pub open spec fn json_of(e: EntityV, ind: nat, pre: Seq<char>) -> Seq<char>
    decreases e,
{
    match e {
        EntityV::Null => seq!['n', 'u', 'l', 'l'],
        EntityV::Text(s) => seq!['"'] + s + seq!['"'],
        EntityV::Number(s) => s,
        EntityV::Object(name, attrs) => seq!['{', '\n'] + json_attrs_from(
            attrs,
            0,
            ind,
            pre + spaces(ind),
        ) + seq!['\n'] + pre + seq!['}'],
    }
}

/// The JSON text of the attributes from `i` on: each as `"key": value` at
/// indentation `pre`, neighbours separated by a comma, a space and a line
/// break.
pub open spec fn json_attrs_from(attrs: Seq<AttrV>, i: int, ind: nat, pre: Seq<char>) -> Seq<char>
    decreases attrs, attrs.len() - i,
{
    if 0 <= i < attrs.len() {
        (if i > 0 {
            seq![',', ' ', '\n']
        } else {
            Seq::empty()
        }) + pre + seq!['"'] + attrs[i].key + seq!['"', ':', ' '] + json_of(
            attrs[i].value,
            ind,
            pre,
        ) + json_attrs_from(attrs, i + 1, ind, pre)
    } else {
        Seq::empty()
    }
}

/// The JSON lines of a whole message: one line per entity, each led by a
/// numbering prefix when there are several entities and by the bare prefix
/// when there is one.
pub open spec fn json_lines_from(ents: Seq<EntityV>, i: int, ind: nat) -> Seq<char>
    decreases ents.len() - i,
{
    if 0 <= i < ents.len() {
        (if ents.len() > 1 {
            "Log Entity "@ + dec_digits((i + 1) as nat) + " = "@
        } else {
            "Log Entity"@
        }) + json_of(ents[i], ind, Seq::empty()) + seq!['\n'] + json_lines_from(ents, i + 1, ind)
    } else {
        Seq::empty()
    }
}

/// The grammar's own surface syntax for an entity: `Name(k = v, k2 = w)`,
/// text written bare, numbers in canonical decimal form, omitted values
/// written as nothing.
pub open spec fn surface_of(e: EntityV) -> Seq<char>
    decreases e,
{
    match e {
        EntityV::Null => Seq::empty(),
        EntityV::Text(s) => s,
        EntityV::Number(s) => s,
        EntityV::Object(name, attrs) => name + seq!['('] + surface_attrs_from(attrs, 0) + seq![
            ')',
        ],
    }
}

/// The surface syntax of the attributes from `i` on, comma-separated.
pub open spec fn surface_attrs_from(attrs: Seq<AttrV>, i: int) -> Seq<char>
    decreases attrs, attrs.len() - i,
{
    if 0 <= i < attrs.len() {
        (if i > 0 {
            seq![',', ' ']
        } else {
            Seq::empty()
        }) + attrs[i].key + seq![' ', '=', ' '] + surface_of(attrs[i].value) + surface_attrs_from(
            attrs,
            i + 1,
        )
    } else {
        Seq::empty()
    }
}

/// An object with zero attributes renders as the braces around the two
/// fixed line breaks, with no interior content between them.
pub proof fn lemma_empty_object_render(name: Seq<char>, ind: nat, pre: Seq<char>)
    ensures
        json_of(EntityV::Object(name, Seq::empty()), ind, pre) == seq!['{', '\n', '\n'] + pre
            + seq!['}'],
{
    assert(json_attrs_from(Seq::<AttrV>::empty(), 0, ind, pre + spaces(ind))
        =~= Seq::<char>::empty());
    assert(json_of(EntityV::Object(name, Seq::empty()), ind, pre) =~= seq!['{', '\n', '\n'] + pre
        + seq!['}']);
}

/// The debug (pretty) text of an entity: `Name(` then each attribute as
/// `key = value` on its own line one level deeper, comma-separated except
/// the last, then `)` at the parent's indentation.  Text renders quoted, a
/// number as its bare decimal, and an omitted value as nothing — unlike the
/// JSON form, which writes `null`; the two deliberately disagree there.
pub open spec fn pretty_of(e: EntityV, ind: nat, pre: Seq<char>) -> Seq<char>
    decreases e,
{
    match e {
        EntityV::Null => Seq::empty(),
        EntityV::Text(s) => seq!['"'] + s + seq!['"'],
        EntityV::Number(s) => s,
        EntityV::Object(name, attrs) => name + seq!['(', '\n'] + pretty_attrs_from(
            attrs,
            0,
            ind,
            pre + spaces(ind),
        ) + seq!['\n'] + pre + seq![')'],
    }
}

/// The debug text of the attributes from `i` on: each as `key = value` at
/// indentation `pre`, neighbours separated by a comma and a line break.
pub open spec fn pretty_attrs_from(attrs: Seq<AttrV>, i: int, ind: nat, pre: Seq<char>) -> Seq<
    char,
>
    decreases attrs, attrs.len() - i,
{
    if 0 <= i < attrs.len() {
        (if i > 0 {
            seq![',', '\n']
        } else {
            Seq::empty()
        }) + pre + attrs[i].key + seq![' ', '=', ' '] + pretty_of(attrs[i].value, ind, pre)
            + pretty_attrs_from(attrs, i + 1, ind, pre)
    } else {
        Seq::empty()
    }
}

/// Appends the characters of another buffer.
fn push_chars(out: &mut Vec<char>, src: &Vec<char>)
    ensures
        final(out)@ == old(out)@ + src@,
{
    let n = src.len();
    let mut i: usize = 0;
    while i < n
        invariant
            n == src@.len(),
            i <= n,
            out@ == old(out)@ + src@.take(i as int),
        decreases n - i,
    {
        let c = src[i];
        proof {
            assert((old(out)@ + src@.take(i as int)).push(c) =~= old(out)@ + src@.take(
                i as int + 1,
            ));
        }
        out.push(c);
        i = i + 1;
    }
    proof {
        assert(src@.take(n as int) =~= src@);
    }
}

/// A copy of `pre` deepened by one indent level.
fn extend_indent(pre: &Vec<char>, indent_size: usize) -> (v: Vec<char>)
    ensures
        v@ == pre@ + spaces(indent_size as nat),
{
    let mut v: Vec<char> = Vec::new();
    push_chars(&mut v, pre);
    let mut i: usize = 0;
    while i < indent_size
        invariant
            i <= indent_size,
            v@ == pre@ + spaces(i as nat),
        decreases indent_size - i,
    {
        proof {
            assert((pre@ + spaces(i as nat)).push(' ') =~= pre@ + spaces((i + 1) as nat));
        }
        v.push(' ');
        i = i + 1;
    }
    proof {
        assert(Seq::<char>::empty() + pre@ =~= pre@);
        assert(pre@ + spaces(0) =~= pre@);
    }
    v
}

/// Appends the characters of a string slice.
pub(crate) fn push_str_chars(out: &mut Vec<char>, s: &str)
    ensures
        final(out)@ == old(out)@ + s@,
{
    let n = s.unicode_len();
    let mut i: usize = 0;
    while i < n
        invariant
            n == s@.len(),
            i <= n,
            out@ == old(out)@ + s@.take(i as int),
        decreases n - i,
    {
        let c = s.get_char(i);
        proof {
            assert((old(out)@ + s@.take(i as int)).push(c) =~= old(out)@ + s@.take(i as int + 1));
        }
        out.push(c);
        i = i + 1;
    }
    proof {
        assert(s@.take(n as int) =~= s@);
    }
}

/// Renders an AST subtree as indented JSON-like text into an owned buffer.
pub struct JsonPrinterVisitor {
    out: Vec<char>,
    indent_size: usize,
    indent: Vec<char>,
}

impl JsonPrinterVisitor {
    /// The text written so far.
    pub closed spec fn out_view(&self) -> Seq<char> {
        self.out@
    }

    /// The current line indentation.
    pub closed spec fn indent_view(&self) -> Seq<char> {
        self.indent@
    }

    /// The number of spaces added per nesting level.
    pub closed spec fn indent_size_spec(&self) -> nat {
        self.indent_size as nat
    }

    /// A fresh renderer with an empty buffer at indentation zero.
    pub fn create(indent_size: usize) -> (v: JsonPrinterVisitor)
        ensures
            v.out_view() == Seq::<char>::empty(),
            v.indent_view() == Seq::<char>::empty(),
            v.indent_size_spec() == indent_size as nat,
    {
        JsonPrinterVisitor { out: Vec::new(), indent_size, indent: Vec::new() }
    }

    /// Writes the current indentation.
    pub fn write_indent(&mut self)
        ensures
            final(self).out_view() == old(self).out_view() + old(self).indent_view(),
            final(self).indent_view() == old(self).indent_view(),
            final(self).indent_size_spec() == old(self).indent_size_spec(),
    {
        let n = self.indent.len();
        let mut i: usize = 0;
        while i < n
            invariant
                n == self.indent@.len(),
                i <= n,
                self.out@ == old(self).out@ + self.indent@.take(i as int),
                self.indent == old(self).indent,
                self.indent_size == old(self).indent_size,
            decreases n - i,
        {
            let c = self.indent[i];
            proof {
                assert((old(self).out@ + self.indent@.take(i as int)).push(c) =~= old(self).out@
                    + self.indent@.take(i as int + 1));
            }
            self.out.push(c);
            i = i + 1;
        }
        proof {
            assert(self.indent@.take(n as int) =~= self.indent@);
        }
    }

    /// Writes a line break.
    pub fn write_newline(&mut self)
        ensures
            final(self).out_view() == old(self).out_view() + seq!['\n'],
            final(self).indent_view() == old(self).indent_view(),
            final(self).indent_size_spec() == old(self).indent_size_spec(),
    {
        self.out.push('\n');
    }

    /// Deepens the indentation by one level.
    fn push_indent_level(&mut self)
        ensures
            final(self).out_view() == old(self).out_view(),
            final(self).indent_view() == old(self).indent_view() + spaces(
                old(self).indent_size_spec(),
            ),
            final(self).indent_size_spec() == old(self).indent_size_spec(),
    {
        let n = self.indent_size;
        let mut i: usize = 0;
        while i < n
            invariant
                i <= n,
                n == self.indent_size,
                self.indent_size == old(self).indent_size,
                self.out == old(self).out,
                self.indent@ == old(self).indent@ + spaces(i as nat),
            decreases n - i,
        {
            proof {
                assert((old(self).indent@ + spaces(i as nat)).push(' ') =~= old(self).indent@
                    + spaces((i + 1) as nat));
            }
            self.indent.push(' ');
            i = i + 1;
        }
    }

    /// Steps the indentation back one level.
    fn pop_indent_level(&mut self)
        requires
            old(self).indent_view().len() >= old(self).indent_size_spec(),
        ensures
            final(self).out_view() == old(self).out_view(),
            final(self).indent_view() == old(self).indent_view().take(
                old(self).indent_view().len() - old(self).indent_size_spec(),
            ),
            final(self).indent_size_spec() == old(self).indent_size_spec(),
    {
        let n = self.indent_size;
        let mut i: usize = 0;
        while i < n
            invariant
                i <= n,
                n == self.indent_size,
                self.indent_size == old(self).indent_size,
                self.out == old(self).out,
                old(self).indent@.len() >= n,
                self.indent@ == old(self).indent@.take(old(self).indent@.len() - i),
            decreases n - i,
        {
            proof {
                assert(self.indent@.take(self.indent@.len() - 1) =~= old(self).indent@.take(
                    old(self).indent@.len() - i - 1,
                ));
            }
            self.indent.pop();
            i = i + 1;
        }
    }

    /// Hands the rendered text out as characters.
    pub fn into_chars(self) -> (v: Vec<char>)
        ensures
            v@ == self.out_view(),
    {
        self.out
    }

    /// Hands the rendered text out as a string.
    pub fn output(&self) -> (s: String)
        ensures
            s@ == self.out_view(),
    {
        chars_to_string(&self.out)
    }

    /// Key callback: indentation, then the quoted key and a colon.
    pub fn visit_attribute(&mut self, node: &Attribute)
        ensures
            final(self).out_view() == old(self).out_view() + old(self).indent_view() + seq!['"']
                + node.key@ + seq!['"', ':', ' '],
            final(self).indent_view() == old(self).indent_view(),
            final(self).indent_size_spec() == old(self).indent_size_spec(),
    {
        self.write_indent();
        let key = node.key.as_str();
        self.out.push('"');
        push_str_chars(&mut self.out, key);
        self.out.push('"');
        self.out.push(':');
        self.out.push(' ');
        proof {
            assert(self.out@ =~= old(self).out@ + old(self).indent@ + seq!['"'] + node.key@ + seq![
                '"',
                ':',
                ' ',
            ]);
        }
    }

    /// List entry callback: a line break before the first attribute.
    pub fn visit_attribute_list_entry(&mut self, _node: &AttributeList)
        ensures
            final(self).out_view() == old(self).out_view() + seq!['\n'],
            final(self).indent_view() == old(self).indent_view(),
            final(self).indent_size_spec() == old(self).indent_size_spec(),
    {
        self.write_newline();
    }

    /// Separator callback between two attributes.
    pub fn visit_attribute_list_between(&mut self, _node: &AttributeList)
        ensures
            final(self).out_view() == old(self).out_view() + seq![',', ' ', '\n'],
            final(self).indent_view() == old(self).indent_view(),
            final(self).indent_size_spec() == old(self).indent_size_spec(),
    {
        self.out.push(',');
        self.out.push(' ');
        self.write_newline();
    }

    /// List exit callback: a line break after the last attribute.
    pub fn visit_attribute_list_exit(&mut self, _node: &AttributeList)
        ensures
            final(self).out_view() == old(self).out_view() + seq!['\n'],
            final(self).indent_view() == old(self).indent_view(),
            final(self).indent_size_spec() == old(self).indent_size_spec(),
    {
        self.write_newline();
    }

    /// Object entry callback: the opening brace, one level deeper from here.
    pub fn visit_log_entity_object_entry(&mut self, _node: &LogEntity)
        ensures
            final(self).out_view() == old(self).out_view() + seq!['{'],
            final(self).indent_view() == old(self).indent_view() + spaces(
                old(self).indent_size_spec(),
            ),
            final(self).indent_size_spec() == old(self).indent_size_spec(),
    {
        self.out.push('{');
        self.push_indent_level();
    }

    /// Object exit callback: back one level, indentation, the closing brace.
    pub fn visit_log_entity_object_exit(&mut self, _node: &LogEntity)
        requires
            old(self).indent_view().len() >= old(self).indent_size_spec(),
        ensures
            final(self).out_view() == old(self).out_view() + old(self).indent_view().take(
                old(self).indent_view().len() - old(self).indent_size_spec(),
            ) + seq!['}'],
            final(self).indent_view() == old(self).indent_view().take(
                old(self).indent_view().len() - old(self).indent_size_spec(),
            ),
            final(self).indent_size_spec() == old(self).indent_size_spec(),
    {
        self.pop_indent_level();
        self.write_indent();
        self.out.push('}');
    }

    /// Text callback: the value in double quotes.
    pub fn visit_log_entity_text(&mut self, node: &LogEntity)
        ensures
            final(self).out_view() == (match node@ {
                EntityV::Text(s) => old(self).out_view() + seq!['"'] + s + seq!['"'],
                _ => old(self).out_view(),
            }),
            final(self).indent_view() == old(self).indent_view(),
            final(self).indent_size_spec() == old(self).indent_size_spec(),
    {
        if let LogEntity::Text(text) = node {
            self.out.push('"');
            push_str_chars(&mut self.out, text.as_str());
            self.out.push('"');
            proof {
                assert(self.out@ =~= old(self).out@ + seq!['"'] + text@ + seq!['"']);
            }
        }
    }

    /// Number callback: the bare canonical decimal.
    pub fn visit_log_entity_number(&mut self, node: &LogEntity)
        ensures
            final(self).out_view() == (match node@ {
                EntityV::Number(s) => old(self).out_view() + s,
                _ => old(self).out_view(),
            }),
            final(self).indent_view() == old(self).indent_view(),
            final(self).indent_size_spec() == old(self).indent_size_spec(),
    {
        if let LogEntity::Number(num) = node {
            push_str_chars(&mut self.out, num.as_str());
        }
    }

    /// Omitted-value callback: the `null` token.
    pub fn visit_log_entity_null(&mut self, _node: &LogEntity)
        ensures
            final(self).out_view() == old(self).out_view() + seq!['n', 'u', 'l', 'l'],
            final(self).indent_view() == old(self).indent_view(),
            final(self).indent_size_spec() == old(self).indent_size_spec(),
    {
        self.out.push('n');
        self.out.push('u');
        self.out.push('l');
        self.out.push('l');
        proof {
            assert(self.out@ =~= old(self).out@ + seq!['n', 'u', 'l', 'l']);
        }
    }

    /// Whole-message callback: a line break.
    pub fn visit_log_message(&mut self, _node: &LogMessage)
        ensures
            final(self).out_view() == old(self).out_view() + seq!['\n'],
            final(self).indent_view() == old(self).indent_view(),
            final(self).indent_size_spec() == old(self).indent_size_spec(),
    {
        self.write_newline();
    }
}

impl LogEntity {
    /// Drives the JSON renderer over this subtree: the fixed callback
    /// sequence appends exactly the `json_of` text for it.
    pub fn accept(&self, visitor: &mut JsonPrinterVisitor)
        ensures
            final(visitor).out_view() == old(visitor).out_view() + json_of(
                self@,
                old(visitor).indent_size_spec(),
                old(visitor).indent_view(),
            ),
            final(visitor).indent_view() == old(visitor).indent_view(),
            final(visitor).indent_size_spec() == old(visitor).indent_size_spec(),
        decreases self,
    {
        match self {
            LogEntity::Object(_, attributes) => {
                visitor.visit_log_entity_object_entry(self);
                attributes.accept(visitor);
                visitor.visit_log_entity_object_exit(self);
                proof {
                    let ind = old(visitor).indent_size_spec();
                    let pre = old(visitor).indent_view();
                    assert((pre + spaces(ind)).take(pre.len() as int) =~= pre);
                    assert(visitor.out_view() =~= old(visitor).out_view() + json_of(
                        self@,
                        ind,
                        pre,
                    ));
                }
            },
            LogEntity::Text(_) => {
                visitor.visit_log_entity_text(self);
            },
            LogEntity::Number(_) => {
                visitor.visit_log_entity_number(self);
            },
            LogEntity::Null => {
                visitor.visit_log_entity_null(self);
            },
        }
    }
}

impl LogEntity {
    /// Writes this subtree in the grammar's own surface syntax.
    #[verifier::loop_isolation(false)]
    pub fn write_surface(&self, out: &mut Vec<char>)
        ensures
            final(out)@ == old(out)@ + surface_of(self@),
        decreases self,
    {
        match self {
            LogEntity::Null => {
                proof {
                    assert(old(out)@ + Seq::<char>::empty() =~= out@);
                }
            },
            LogEntity::Text(s) => {
                push_str_chars(out, s.as_str());
            },
            LogEntity::Number(s) => {
                push_str_chars(out, s.as_str());
            },
            LogEntity::Object(name, al) => {
                let ghost attrs = attrs_view_from(al.attributes, 0);
                proof {
                    lemma_attrs_view_from(al.attributes, 0);
                }
                push_str_chars(out, name.as_str());
                out.push('(');
                proof {
                    assert(out@ =~= old(out)@ + name@ + seq!['(']);
                }
                let n = al.attributes.len();
                let mut idx: usize = 0;
                while idx < n
                    invariant
                        n == al.attributes@.len(),
                        idx <= n,
                        out@ + surface_attrs_from(attrs, idx as int) == old(out)@ + name@ + seq![
                            '(',
                        ] + surface_attrs_from(attrs, 0),
                    decreases n - idx,
                {
                    let ghost out0 = out@;
                    if idx > 0 {
                        out.push(',');
                        out.push(' ');
                    }
                    let attribute = &al.attributes[idx];
                    let key = attribute.key.as_str();
                    push_str_chars(out, key);
                    out.push(' ');
                    out.push('=');
                    out.push(' ');
                    attribute.value.write_surface(out);
                    proof {
                        assert(attrs[idx as int] == attribute@);
                        if idx > 0 {
                            assert(out@ =~= out0 + (seq![',', ' '] + attribute@.key + seq![
                                ' ',
                                '=',
                                ' ',
                            ] + surface_of(attribute@.value)));
                        } else {
                            assert(out@ =~= out0 + (Seq::<char>::empty() + attribute@.key + seq![
                                ' ',
                                '=',
                                ' ',
                            ] + surface_of(attribute@.value)));
                        }
                        assert(out0 + surface_attrs_from(attrs, idx as int) =~= out@
                            + surface_attrs_from(attrs, idx as int + 1));
                    }
                    idx = idx + 1;
                }
                proof {
                    assert(surface_attrs_from(attrs, n as int) =~= Seq::<char>::empty());
                }
                out.push(')');
                proof {
                    assert(out@ =~= old(out)@ + surface_of(self@));
                }
            },
        }
    }

    /// Writes this subtree in the indented debug form, with `indent_size`
    /// spaces per level while the current line indentation is `pre`.
    #[verifier::loop_isolation(false)]
    pub fn write_pretty(&self, out: &mut Vec<char>, indent_size: usize, pre: &Vec<char>)
        ensures
            final(out)@ == old(out)@ + pretty_of(self@, indent_size as nat, pre@),
        decreases self,
    {
        let ghost ind = indent_size as nat;
        match self {
            LogEntity::Null => {
                proof {
                    assert(old(out)@ + Seq::<char>::empty() =~= out@);
                }
            },
            LogEntity::Text(s) => {
                out.push('"');
                push_str_chars(out, s.as_str());
                out.push('"');
                proof {
                    assert(out@ =~= old(out)@ + (seq!['"'] + s@ + seq!['"']));
                }
            },
            LogEntity::Number(s) => {
                push_str_chars(out, s.as_str());
            },
            LogEntity::Object(name, al) => {
                let ghost attrs = attrs_view_from(al.attributes, 0);
                proof {
                    lemma_attrs_view_from(al.attributes, 0);
                }
                let inner = extend_indent(pre, indent_size);
                push_str_chars(out, name.as_str());
                out.push('(');
                out.push('\n');
                proof {
                    assert(out@ =~= old(out)@ + name@ + seq!['(', '\n']);
                }
                let n = al.attributes.len();
                let mut idx: usize = 0;
                while idx < n
                    invariant
                        n == al.attributes@.len(),
                        idx <= n,
                        inner@ == pre@ + spaces(ind),
                        out@ + pretty_attrs_from(attrs, idx as int, ind, inner@) == old(out)@
                            + name@ + seq!['(', '\n'] + pretty_attrs_from(
                            attrs,
                            0,
                            ind,
                            inner@,
                        ),
                    decreases n - idx,
                {
                    let ghost out0 = out@;
                    if idx > 0 {
                        out.push(',');
                        out.push('\n');
                    }
                    let attribute = &al.attributes[idx];
                    push_chars(out, &inner);
                    let key = attribute.key.as_str();
                    push_str_chars(out, key);
                    out.push(' ');
                    out.push('=');
                    out.push(' ');
                    attribute.value.write_pretty(out, indent_size, &inner);
                    proof {
                        assert(attrs[idx as int] == attribute@);
                        if idx > 0 {
                            assert(out@ =~= out0 + (seq![',', '\n'] + inner@ + attribute@.key
                                + seq![' ', '=', ' '] + pretty_of(attribute@.value, ind, inner@)));
                        } else {
                            assert(out@ =~= out0 + (Seq::<char>::empty() + inner@ + attribute@.key
                                + seq![' ', '=', ' '] + pretty_of(attribute@.value, ind, inner@)));
                        }
                        assert(out0 + pretty_attrs_from(attrs, idx as int, ind, inner@) =~= out@
                            + pretty_attrs_from(attrs, idx as int + 1, ind, inner@));
                    }
                    idx = idx + 1;
                }
                proof {
                    assert(pretty_attrs_from(attrs, n as int, ind, inner@)
                        =~= Seq::<char>::empty());
                }
                out.push('\n');
                push_chars(out, pre);
                out.push(')');
                proof {
                    assert(out@ =~= old(out)@ + pretty_of(self@, ind, pre@));
                }
            },
        }
    }

    /// This subtree in the indented debug form, `indent_size` spaces per
    /// nesting level.
    pub fn render_pretty(&self, indent_size: usize) -> (s: String)
        ensures
            s@ == pretty_of(self@, indent_size as nat, Seq::<char>::empty()),
    {
        let mut out: Vec<char> = Vec::new();
        let pre: Vec<char> = Vec::new();
        self.write_pretty(&mut out, indent_size, &pre);
        proof {
            assert(Seq::<char>::empty() + pretty_of(self@, indent_size as nat, Seq::<char>::empty())
                =~= pretty_of(self@, indent_size as nat, Seq::<char>::empty()));
        }
        chars_to_string(&out)
    }

    /// This subtree in the grammar's own surface syntax.
    pub fn render_surface(&self) -> (s: String)
        ensures
            s@ == surface_of(self@),
    {
        let mut out: Vec<char> = Vec::new();
        self.write_surface(&mut out);
        proof {
            assert(Seq::<char>::empty() + surface_of(self@) =~= surface_of(self@));
        }
        chars_to_string(&out)
    }
}

impl AttributeList {
    /// Drives the renderer over the attribute list: a line break, the
    /// attributes in stored order with separators between neighbours, and a
    /// closing line break.
    #[verifier::loop_isolation(false)]
    pub fn accept(&self, visitor: &mut JsonPrinterVisitor)
        ensures
            final(visitor).out_view() == old(visitor).out_view() + seq!['\n'] + json_attrs_from(
                self@,
                0,
                old(visitor).indent_size_spec(),
                old(visitor).indent_view(),
            ) + seq!['\n'],
            final(visitor).indent_view() == old(visitor).indent_view(),
            final(visitor).indent_size_spec() == old(visitor).indent_size_spec(),
        decreases self,
    {
        let ghost ind = old(visitor).indent_size_spec();
        let ghost pre = old(visitor).indent_view();
        visitor.visit_attribute_list_entry(self);
        proof {
            lemma_attrs_view_from(self.attributes, 0);
        }
        let n = self.attributes.len();
        let mut idx: usize = 0;
        while idx < n
            invariant
                n == self.attributes@.len(),
                idx <= n,
                visitor.indent_view() == pre,
                visitor.indent_size_spec() == ind,
                visitor.out_view() + json_attrs_from(self@, idx as int, ind, pre) == old(
                    visitor,
                ).out_view() + seq!['\n'] + json_attrs_from(self@, 0, ind, pre),
            decreases n - idx,
        {
            let ghost out0 = visitor.out_view();
            if idx > 0 {
                visitor.visit_attribute_list_between(self);
            }
            let attribute = &self.attributes[idx];
            attribute.accept(visitor);
            proof {
                assert(self@[idx as int] == attribute@);
                if idx > 0 {
                    assert(visitor.out_view() =~= out0 + (seq![',', ' ', '\n'] + pre + seq!['"']
                        + attribute@.key + seq!['"', ':', ' '] + json_of(
                        attribute@.value,
                        ind,
                        pre,
                    )));
                } else {
                    assert(visitor.out_view() =~= out0 + (Seq::<char>::empty() + pre + seq!['"']
                        + attribute@.key + seq!['"', ':', ' '] + json_of(
                        attribute@.value,
                        ind,
                        pre,
                    )));
                }
                assert(out0 + (json_attrs_from(self@, idx as int, ind, pre)) =~= visitor.out_view()
                    + json_attrs_from(self@, idx as int + 1, ind, pre));
            }
            idx = idx + 1;
        }
        proof {
            assert(json_attrs_from(self@, n as int, ind, pre) =~= Seq::<char>::empty());
        }
        visitor.visit_attribute_list_exit(self);
        proof {
            assert(visitor.out_view() =~= old(visitor).out_view() + seq!['\n'] + json_attrs_from(
                self@,
                0,
                ind,
                pre,
            ) + seq!['\n']);
        }
    }
}

impl Attribute {
    /// Drives the renderer over one attribute: its key, then its value.
    pub fn accept(&self, visitor: &mut JsonPrinterVisitor)
        ensures
            final(visitor).out_view() == old(visitor).out_view() + old(visitor).indent_view()
                + seq!['"'] + self.key@ + seq!['"', ':', ' '] + json_of(
                self@.value,
                old(visitor).indent_size_spec(),
                old(visitor).indent_view(),
            ),
            final(visitor).indent_view() == old(visitor).indent_view(),
            final(visitor).indent_size_spec() == old(visitor).indent_size_spec(),
        decreases self,
    {
        visitor.visit_attribute(self);
        self.value.accept(visitor);
    }
}

impl LogMessage {
    /// Renders every entity as one line of JSON text: a numbering prefix
    /// (bare when the message holds a single entity), the entity's JSON
    /// with two spaces per indent level, and a line break.
    #[verifier::loop_isolation(false)]
    pub fn write_json(&self) -> (s: String)
        ensures
            s@ == json_lines_from(entities_view_from(self.log_entity, 0), 0, 2),
    {
        let ghost ents = entities_view_from(self.log_entity, 0);
        proof {
            lemma_entities_view_from(self.log_entity, 0);
        }
        let mut buf: Vec<char> = Vec::new();
        let n = self.log_entity.len();
        let mut idx: usize = 0;
        while idx < n
            invariant
                n == self.log_entity@.len(),
                idx <= n,
                buf@ + json_lines_from(ents, idx as int, 2) == json_lines_from(ents, 0, 2),
            decreases n - idx,
        {
            let ghost buf0 = buf@;
            if n > 1 {
                push_str_chars(&mut buf, "Log Entity ");
                push_decimal(&mut buf, idx + 1);
                push_str_chars(&mut buf, " = ");
            } else {
                push_str_chars(&mut buf, "Log Entity");
            }
            let mut json_printer = JsonPrinterVisitor::create(2);
            self.log_entity[idx].accept(&mut json_printer);
            let mut rendered = json_printer.into_chars();
            buf.append(&mut rendered);
            buf.push('\n');
            proof {
                assert(self.log_entity@[idx as int]@ == ents[idx as int]);
                if n > 1 {
                    assert(buf@ =~= buf0 + ("Log Entity "@ + dec_digits((idx + 1) as nat) + " = "@
                        + json_of(ents[idx as int], 2, Seq::empty()) + seq!['\n']));
                } else {
                    assert(buf@ =~= buf0 + ("Log Entity"@ + json_of(ents[idx as int], 2, Seq::empty())
                        + seq!['\n']));
                }
                assert(buf0 + json_lines_from(ents, idx as int, 2) =~= buf@ + json_lines_from(
                    ents,
                    idx as int + 1,
                    2,
                ));
            }
            idx = idx + 1;
        }
        proof {
            assert(json_lines_from(ents, n as int, 2) =~= Seq::<char>::empty());
        }
        chars_to_string(&buf)
    }
}

} // verus!
