//! Abstract syntax tree for a parsed value and its containing message.
//!
//! `LogEntity` is the tagged union of parsed values; `LogMessage` pairs the
//! message template (object spans replaced by placeholders) with the entities
//! parsed out of those spans.  The `EntityV`/`AttrV` types are the
//! mathematical values the contracts speak about.

use vstd::prelude::*;

use crate::chars::is_alpha;
use crate::chars::is_structural;
use crate::chars::is_ws;
use crate::number::is_canon_number;

verus! {

/// A parsed value: an object with named attributes, a piece of text, a
/// number in canonical decimal form, or an omitted value.
#[derive(Debug, PartialEq)]
pub enum LogEntity {
    Object(String, AttributeList),
    Text(String),
    Number(String),
    Null,
}

/// The ordered attributes of an object; insertion order is preserved and
/// duplicate keys are kept.
#[derive(Debug, PartialEq)]
pub struct AttributeList {
    pub attributes: Vec<Attribute>,
}

/// One `key = value` member of an object.
#[derive(Debug, PartialEq)]
pub struct Attribute {
    pub key: String,
    pub value: LogEntity,
}

/// A whole processed line: the message template with placeholders, and the
/// entities the placeholders stand for, in order.
#[derive(Debug)]
pub struct LogMessage {
    pub message: String,
    pub log_entity: Vec<LogEntity>,
}

/// The mathematical value of a `LogEntity`.
pub enum EntityV {
    Object(Seq<char>, Seq<AttrV>),
    Text(Seq<char>),
    Number(Seq<char>),
    Null,
}

/// The mathematical value of an `Attribute`.
pub struct AttrV {
    pub key: Seq<char>,
    pub value: EntityV,
}

/// The views of the attributes of `v` from index `i` on.
pub open spec fn attrs_view_from(v: Vec<Attribute>, i: int) -> Seq<AttrV>
    decreases v, v@.len() - i,
{
    if 0 <= i < v@.len() {
        seq![v@[i].view()] + attrs_view_from(v, i + 1)
    } else {
        Seq::empty()
    }
}

impl View for Attribute {
    type V = AttrV;

    open spec fn view(&self) -> AttrV
        decreases self,
    {
        AttrV { key: self.key@, value: self.value.view() }
    }
}

impl View for LogEntity {
    type V = EntityV;

    open spec fn view(&self) -> EntityV
        decreases self,
    {
        match self {
            LogEntity::Object(n, al) => EntityV::Object(n@, attrs_view_from(al.attributes, 0)),
            LogEntity::Text(s) => EntityV::Text(s@),
            LogEntity::Number(s) => EntityV::Number(s@),
            LogEntity::Null => EntityV::Null,
        }
    }
}

impl View for AttributeList {
    type V = Seq<AttrV>;

    open spec fn view(&self) -> Seq<AttrV> {
        attrs_view_from(self.attributes, 0)
    }
}

/// The views of a sequence of entities, element by element.
pub open spec fn entities_view_from(v: Vec<LogEntity>, i: int) -> Seq<EntityV>
    decreases v@.len() - i,
{
    if 0 <= i < v@.len() {
        seq![v@[i].view()] + entities_view_from(v, i + 1)
    } else {
        Seq::empty()
    }
}

impl View for LogMessage {
    type V = (Seq<char>, Seq<EntityV>);

    open spec fn view(&self) -> (Seq<char>, Seq<EntityV>) {
        (self.message@, entities_view_from(self.log_entity, 0))
    }
}

/// Pointwise description of `attrs_view_from`.
pub proof fn lemma_attrs_view_from(v: Vec<Attribute>, i: int)
    requires
        0 <= i <= v@.len(),
    ensures
        attrs_view_from(v, i).len() == v@.len() - i,
        forall|j: int|
            0 <= j < v@.len() - i ==> #[trigger] attrs_view_from(v, i)[j] == v@[i + j].view(),
    decreases v@.len() - i,
{
    if i < v@.len() {
        lemma_attrs_view_from(v, i + 1);
        assert(attrs_view_from(v, i) == seq![v@[i].view()] + attrs_view_from(v, i + 1));
        assert forall|j: int| 0 <= j < v@.len() - i implies #[trigger] attrs_view_from(v, i)[j]
            == v@[i + j].view() by {
            if j > 0 {
                assert(attrs_view_from(v, i)[j] == attrs_view_from(v, i + 1)[j - 1]);
            }
        }
    }
}

/// Pointwise description of `entities_view_from`.
pub proof fn lemma_entities_view_from(v: Vec<LogEntity>, i: int)
    requires
        0 <= i <= v@.len(),
    ensures
        entities_view_from(v, i).len() == v@.len() - i,
        forall|j: int|
            0 <= j < v@.len() - i ==> #[trigger] entities_view_from(v, i)[j] == v@[i + j].view(),
    decreases v@.len() - i,
{
    if i < v@.len() {
        lemma_entities_view_from(v, i + 1);
        assert(entities_view_from(v, i) == seq![v@[i].view()] + entities_view_from(v, i + 1));
        assert forall|j: int| 0 <= j < v@.len() - i implies #[trigger] entities_view_from(v, i)[j]
            == v@[i + j].view() by {
            if j > 0 {
                assert(entities_view_from(v, i)[j] == entities_view_from(v, i + 1)[j - 1]);
            }
        }
    }
}

/// A name or text value as the lexer produces it: non-empty, led by an
/// alphabetic non-whitespace character, free of structural characters, and
/// with no trailing whitespace.
pub open spec fn wf_name(s: Seq<char>) -> bool {
    &&& s.len() > 0
    &&& is_alpha(s[0])
    &&& !is_ws(s[0])
    &&& !is_ws(s[s.len() - 1])
    &&& forall|i: int| 0 <= i < s.len() ==> !is_structural(#[trigger] s[i])
}

/// A well-formed entity: names and text are lexable, numbers canonical, and
/// every nested attribute well-formed in turn.
pub open spec fn wf_entity(e: EntityV) -> bool
    decreases e,
{
    match e {
        EntityV::Object(n, attrs) => wf_name(n) && wf_attrs_from(attrs, 0),
        EntityV::Text(s) => wf_name(s),
        EntityV::Number(s) => is_canon_number(s),
        EntityV::Null => true,
    }
}

/// Well-formedness of the attributes from index `i` on.
pub open spec fn wf_attrs_from(attrs: Seq<AttrV>, i: int) -> bool
    decreases attrs, attrs.len() - i,
{
    if 0 <= i < attrs.len() {
        wf_name(attrs[i].key) && wf_entity(attrs[i].value) && wf_attrs_from(attrs, i + 1)
    } else {
        true
    }
}

/// Pointwise well-formedness of the attributes gives `wf_attrs_from`.
pub proof fn lemma_wf_attrs_from_pointwise(attrs: Seq<AttrV>, i: int)
    requires
        0 <= i <= attrs.len(),
        forall|j: int|
            i <= j < attrs.len() ==> wf_name(#[trigger] attrs[j].key) && wf_entity(attrs[j].value),
    ensures
        wf_attrs_from(attrs, i),
    decreases attrs.len() - i,
{
    if i < attrs.len() {
        lemma_wf_attrs_from_pointwise(attrs, i + 1);
        assert(wf_name(attrs[i].key) && wf_entity(attrs[i].value));
    }
}

} // verus!
