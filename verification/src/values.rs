//! Decoded values: what a binding turns a document into.
//!
//! A decoded object holds one field per resolved property of its type, in
//! binding order.  Slots reflect cardinality: an optional scalar for
//! required and functional properties, a sequence for normal ones.  The
//! other variants carry the runtime primitives: references, inlined
//! values, either-of sides, scalars and raw trees.

use vstd::prelude::*;

use crate::json::Json;
use crate::json::JsonView;
use crate::json::json_view;
use crate::xsd::DateTime;
use crate::xsd::Duration;

verus! {

/// A decoded value.
#[derive(Debug, PartialEq)]
pub enum Value {
    /// A raw document tree, carried through unread.
    Json(Json),
    /// A string.
    Text(String),
    /// A boolean.
    Flag(bool),
    /// An integer.
    Number(i64),
    /// An identifier, normalized.
    Id(String),
    /// An XSD date-time.
    Stamp(DateTime),
    /// An XSD duration.
    Span(Duration),
    /// A typed object, under its concrete type.
    Object(ObjectValue),
    /// A reference to a remote object, by its normalized identifier.
    Ref(String),
    /// A reference target inlined instead.
    Inline(Box<Value>),
    /// The first side of an either-of.
    Prim(Box<Value>),
    /// The second side of an either-of.
    Snd(Box<Value>),
}

/// A decoded object: its concrete type and one field per resolved
/// property of that type, in binding order.
#[derive(Debug, PartialEq)]
pub struct ObjectValue {
    pub name: String,
    pub fields: Vec<FieldValue>,
}

/// One property's decoded content, by cardinality.
#[derive(Debug, PartialEq)]
pub enum Slot {
    /// A required or functional property: at most one value.
    Opt(Option<Value>),
    /// A normal property: any number of values, in order.
    Many(Vec<Value>),
}

/// One field of a decoded object.
#[derive(Debug, PartialEq)]
pub enum FieldValue {
    /// A simple property.
    Simple(Slot),
    /// A language container: the language-neutral half and the map half.
    Lang(LangValue),
}

/// A decoded language container.
#[derive(Debug, PartialEq)]
pub struct LangValue {
    pub default: Slot,
    pub per_lang: Vec<(String, Slot)>,
}

/// Model of a decoded value.
#[verifier::ext_equal]
pub enum ValueView {
    Json(JsonView),
    Text(Seq<char>),
    Flag(bool),
    Number(i64),
    Id(Seq<char>),
    Stamp(DateTime),
    Span(Duration),
    Object(ObjectView),
    Ref(Seq<char>),
    Inline(Box<ValueView>),
    Prim(Box<ValueView>),
    Snd(Box<ValueView>),
}

/// Model of a decoded object.
#[verifier::ext_equal]
pub struct ObjectView {
    pub name: Seq<char>,
    pub fields: Seq<FieldView>,
}

/// Model of a slot.
#[verifier::ext_equal]
pub enum SlotView {
    Opt(Option<ValueView>),
    Many(Seq<ValueView>),
}

/// Model of a field.
#[verifier::ext_equal]
pub enum FieldView {
    Simple(SlotView),
    Lang(LangView),
}

/// Model of a decoded language container.
#[verifier::ext_equal]
pub struct LangView {
    pub default: SlotView,
    pub per_lang: Seq<(Seq<char>, SlotView)>,
}

/// Model of a decoded value.
pub open spec fn value_view(v: Value) -> ValueView
    decreases v,
{
    match v {
        Value::Json(j) => ValueView::Json(json_view(j)),
        Value::Text(s) => ValueView::Text(s@),
        Value::Flag(b) => ValueView::Flag(b),
        Value::Number(n) => ValueView::Number(n),
        Value::Id(s) => ValueView::Id(s@),
        Value::Stamp(dt) => ValueView::Stamp(dt),
        Value::Span(d) => ValueView::Span(d),
        Value::Object(o) => ValueView::Object(
            ObjectView { name: o.name@, fields: fields_view(o.fields@) },
        ),
        Value::Ref(s) => ValueView::Ref(s@),
        Value::Inline(b) => ValueView::Inline(Box::new(value_view(*b))),
        Value::Prim(b) => ValueView::Prim(Box::new(value_view(*b))),
        Value::Snd(b) => ValueView::Snd(Box::new(value_view(*b))),
    }
}

/// Models of a field list, elementwise.
pub open spec fn fields_view(s: Seq<FieldValue>) -> Seq<FieldView>
    decreases s,
{
    if s.len() == 0 {
        Seq::empty()
    } else {
        fields_view(s.drop_last()).push(field_view(s.last()))
    }
}

/// Model of a field.
pub open spec fn field_view(f: FieldValue) -> FieldView
    decreases f,
{
    match f {
        FieldValue::Simple(sl) => FieldView::Simple(slot_view(sl)),
        FieldValue::Lang(lv) => FieldView::Lang(
            LangView { default: slot_view(lv.default), per_lang: lang_view(lv.per_lang@) },
        ),
    }
}

/// Model of a slot.
pub open spec fn slot_view(sl: Slot) -> SlotView
    decreases sl,
{
    match sl {
        Slot::Opt(o) => SlotView::Opt(
            match o {
                Some(v) => Some(value_view(v)),
                None => None,
            },
        ),
        Slot::Many(vs) => SlotView::Many(values_view(vs@)),
    }
}

/// Models of a value list, elementwise.
pub open spec fn values_view(s: Seq<Value>) -> Seq<ValueView>
    decreases s,
{
    if s.len() == 0 {
        Seq::empty()
    } else {
        values_view(s.drop_last()).push(value_view(s.last()))
    }
}

/// Models of a language map, elementwise.
pub open spec fn lang_view(s: Seq<(String, Slot)>) -> Seq<(Seq<char>, SlotView)>
    decreases s,
{
    if s.len() == 0 {
        Seq::empty()
    } else {
        lang_view(s.drop_last()).push((s.last().0@, slot_view(s.last().1)))
    }
}

impl View for Value {
    type V = ValueView;

    open spec fn view(&self) -> ValueView {
        value_view(*self)
    }
}

impl View for ObjectValue {
    type V = ObjectView;

    open spec fn view(&self) -> ObjectView {
        (ObjectView { name: self.name@, fields: fields_view(self.fields@) })
    }
}

impl View for Slot {
    type V = SlotView;

    open spec fn view(&self) -> SlotView {
        slot_view(*self)
    }
}

impl View for FieldValue {
    type V = FieldView;

    open spec fn view(&self) -> FieldView {
        field_view(*self)
    }
}

/// `fields_view` is the elementwise model.
pub broadcast proof fn lemma_fields_view(s: Seq<FieldValue>)
    ensures
        (#[trigger] fields_view(s)).len() == s.len(),
        forall|i: int| 0 <= i < s.len() ==> fields_view(s)[i] == field_view(s[i]),
    decreases s,
{
    if s.len() > 0 {
        lemma_fields_view(s.drop_last());
    }
}

/// `values_view` is the elementwise model.
pub broadcast proof fn lemma_values_view(s: Seq<Value>)
    ensures
        (#[trigger] values_view(s)).len() == s.len(),
        forall|i: int| 0 <= i < s.len() ==> values_view(s)[i] == value_view(s[i]),
    decreases s,
{
    if s.len() > 0 {
        lemma_values_view(s.drop_last());
    }
}

/// `lang_view` is the elementwise model.
pub broadcast proof fn lemma_lang_view(s: Seq<(String, Slot)>)
    ensures
        (#[trigger] lang_view(s)).len() == s.len(),
        forall|i: int| 0 <= i < s.len() ==> lang_view(s)[i] == (s[i].0@, slot_view(s[i].1)),
    decreases s,
{
    if s.len() > 0 {
        lemma_lang_view(s.drop_last());
    }
}

/// Structural height of a value model; the termination measure for
/// recursive walks over decoded values.
pub open spec fn vheight(v: ValueView) -> nat
    decreases v,
{
    match v {
        ValueView::Object(o) => 1 + vfields_height(o.fields),
        ValueView::Inline(b) => 1 + vheight(*b),
        ValueView::Prim(b) => 1 + vheight(*b),
        ValueView::Snd(b) => 1 + vheight(*b),
        ValueView::Json(j) => 1,
        _ => 0,
    }
}

/// Height of the tallest field.
pub open spec fn vfields_height(s: Seq<FieldView>) -> nat
    decreases s,
{
    if s.len() == 0 {
        0
    } else if vfield_height(s[0]) >= vfields_height(s.drop_first()) {
        vfield_height(s[0])
    } else {
        vfields_height(s.drop_first())
    }
}

/// Height of one field.
pub open spec fn vfield_height(f: FieldView) -> nat
    decreases f,
{
    match f {
        FieldView::Simple(sl) => 1 + vslot_height(sl),
        FieldView::Lang(lv) => 1 + vslot_height(lv.default) + vlang_height(lv.per_lang),
    }
}

/// Height of one slot.
pub open spec fn vslot_height(sl: SlotView) -> nat
    decreases sl,
{
    match sl {
        SlotView::Opt(o) => match o {
            Some(v) => 1 + vheight(v),
            None => 0,
        },
        SlotView::Many(vs) => 1 + vvalues_height(vs),
    }
}

/// Height of the tallest value of a list.
pub open spec fn vvalues_height(s: Seq<ValueView>) -> nat
    decreases s,
{
    if s.len() == 0 {
        0
    } else if vheight(s[0]) >= vvalues_height(s.drop_first()) {
        vheight(s[0])
    } else {
        vvalues_height(s.drop_first())
    }
}

/// Height of the tallest slot of a language map.
pub open spec fn vlang_height(s: Seq<(Seq<char>, SlotView)>) -> nat
    decreases s,
{
    if s.len() == 0 {
        0
    } else if vslot_height(s[0].1) >= vlang_height(s.drop_first()) {
        vslot_height(s[0].1)
    } else {
        vlang_height(s.drop_first())
    }
}

/// Every field is at most as tall as the list's bound.
pub proof fn lemma_vfields_height(s: Seq<FieldView>, i: int)
    requires
        0 <= i < s.len(),
    ensures
        vfield_height(s[i]) <= vfields_height(s),
    decreases s.len(),
{
    if i > 0 {
        lemma_vfields_height(s.drop_first(), i - 1);
    }
}

/// Every value is at most as tall as the list's bound.
pub proof fn lemma_vvalues_height(s: Seq<ValueView>, i: int)
    requires
        0 <= i < s.len(),
    ensures
        vheight(s[i]) <= vvalues_height(s),
    decreases s.len(),
{
    if i > 0 {
        lemma_vvalues_height(s.drop_first(), i - 1);
    }
}

/// Every slot is at most as tall as the map's bound.
pub proof fn lemma_vlang_height(s: Seq<(Seq<char>, SlotView)>, i: int)
    requires
        0 <= i < s.len(),
    ensures
        vslot_height(s[i].1) <= vlang_height(s),
    decreases s.len(),
{
    if i > 0 {
        lemma_vlang_height(s.drop_first(), i - 1);
    }
}

} // verus!
