//! The binding interpreter: decoding documents into typed values and
//! encoding them back, driven entirely by the compiled table.
//!
//! Decoding scans a document object once.  Every recognized wire key is
//! routed to its property; a second occurrence of a required or functional
//! key is fatal, while normal keys merge by list concatenation and
//! language maps merge by language-key union with later writes winning.
//! Unrecognized keys are ignored.  Polymorphic decode resolves the
//! `"type"` discriminant against the base type's subtype set, falling back
//! to the base type itself.

use vstd::prelude::*;

use crate::bindings::binding_index;
use crate::bindings::BindingTable;
use crate::bindings::ResolvedPropertyView;
use crate::bindings::TableView;
use crate::bindings::TypeBinding;
use crate::bindings::TypeBindingView;
use crate::error::DecodeError;
use crate::error::DecodeErrorView;
use crate::json::arr_height;
use crate::json::arr_view;
use crate::json::height;
use crate::json::json_view;
use crate::json::lemma_arr_height;
use crate::json::lemma_arr_view;
use crate::json::lemma_obj_height;
use crate::json::lemma_obj_view;
use crate::json::obj_height;
use crate::json::obj_view;
use crate::json::Json;
use crate::json::JsonView;
use crate::iri::url_normalized;
use crate::keymap::vextended;
use crate::keymap::vupserted;
use crate::resolve::str_in;
use crate::schema::PropertyKind;
use crate::schema::ValueTypeView;
use crate::values::FieldView;
use crate::values::ObjectView;
use crate::values::SlotView;
use crate::values::ValueView;
use crate::xsd::spec_parse_datetime;
use crate::xsd::spec_parse_duration;

verus! {

/// Structural size of a type expression; with the document's height it
/// bounds every decode descent.
pub open spec fn ty_rank(t: ValueTypeView) -> nat
    decreases t,
{
    match t {
        ValueTypeView::Remote(b) => 1 + ty_rank(*b),
        ValueTypeView::Either(l, r) => 1 + ty_rank(*l) + ty_rank(*r),
        _ => 1,
    }
}

/// The property and half — `false` for the language-neutral half, `true`
/// for the map half — that a wire key addresses; the first match wins.
pub open spec fn spec_key_lookup(props: Seq<ResolvedPropertyView>, k: Seq<char>) -> Option<
    (int, bool),
>
    decreases props.len(),
{
    if props.len() == 0 {
        None
    } else if k == props[0].tag || str_in(props[0].aliases, k) {
        Some((0int, false))
    } else if (match props[0].container {
        Some(c) => k == c.tag || str_in(c.aliases, k),
        None => false,
    }) {
        Some((0int, true))
    } else {
        match spec_key_lookup(props.drop_first(), k) {
            Some(ih) => Some((ih.0 + 1, ih.1)),
            None => None,
        }
    }
}

/// One property's state while a document is scanned: what the
/// language-neutral half and the map half have seen so far.
#[verifier::ext_equal]
pub struct FieldAccView {
    pub default: Option<SlotView>,
    pub container: Option<Seq<(Seq<char>, SlotView)>>,
}

/// The untouched scan state.
pub open spec fn empty_accs(n: nat) -> Seq<FieldAccView> {
    Seq::new(n, |i: int| FieldAccView { default: None, container: None })
}

/// What one value decodes to under a type expression.
pub open spec fn spec_decode_value(tbl: TableView, vt: ValueTypeView, j: JsonView) -> Result<
    ValueView,
    DecodeErrorView,
>
    decreases height(j), 3nat, ty_rank(vt), 0nat,
{
    match vt {
        ValueTypeView::Any => Ok(ValueView::Json(j)),
        ValueTypeView::Str => match j {
            JsonView::Str(s) => Ok(ValueView::Text(s)),
            _ => Err(DecodeErrorView::UnexpectedShape("string"@)),
        },
        ValueTypeView::Bool => match j {
            JsonView::Bool(b) => Ok(ValueView::Flag(b)),
            _ => Err(DecodeErrorView::UnexpectedShape("boolean"@)),
        },
        ValueTypeView::Int => match j {
            JsonView::Int(n) => Ok(ValueView::Number(n)),
            _ => Err(DecodeErrorView::UnexpectedShape("integer"@)),
        },
        ValueTypeView::Url => match j {
            JsonView::Str(s) => match url_normalized(s) {
                Some(t) => Ok(ValueView::Id(t)),
                None => Err(DecodeErrorView::MalformedScalar(s)),
            },
            _ => Err(DecodeErrorView::UnexpectedShape("string"@)),
        },
        ValueTypeView::DateTime => match j {
            JsonView::Str(s) => match spec_parse_datetime(s) {
                Some(dt) => Ok(ValueView::Stamp(dt)),
                None => Err(DecodeErrorView::MalformedScalar(s)),
            },
            _ => Err(DecodeErrorView::UnexpectedShape("string"@)),
        },
        ValueTypeView::Duration => match j {
            JsonView::Str(s) => match spec_parse_duration(s) {
                Some(d) => Ok(ValueView::Span(d)),
                None => Err(DecodeErrorView::MalformedScalar(s)),
            },
            _ => Err(DecodeErrorView::UnexpectedShape("string"@)),
        },
        ValueTypeView::Object(name) => match spec_decode_poly(tbl, name, j) {
            Ok(o) => Ok(ValueView::Object(o)),
            Err(e) => Err(e),
        },
        ValueTypeView::Remote(t) => match spec_decode_value(tbl, *t, j) {
            Ok(v) => Ok(ValueView::Inline(Box::new(v))),
            Err(e1) => match j {
                JsonView::Str(s) => match url_normalized(s) {
                    Some(t2) => Ok(ValueView::Ref(t2)),
                    None => Err(
                        DecodeErrorView::TypeMismatch(
                            Box::new(e1),
                            Box::new(DecodeErrorView::MalformedScalar(s)),
                        ),
                    ),
                },
                _ => Err(
                    DecodeErrorView::TypeMismatch(
                        Box::new(e1),
                        Box::new(DecodeErrorView::UnexpectedShape("string"@)),
                    ),
                ),
            },
        },
        ValueTypeView::Either(l, r) => match spec_decode_value(tbl, *l, j) {
            Ok(v) => Ok(ValueView::Prim(Box::new(v))),
            Err(e1) => match spec_decode_value(tbl, *r, j) {
                Ok(v) => Ok(ValueView::Snd(Box::new(v))),
                Err(e2) => Err(DecodeErrorView::TypeMismatch(Box::new(e1), Box::new(e2))),
            },
        },
    }
}

/// The first `i` elements of an array decoded as a list; the first
/// element fault decides.
pub open spec fn spec_decode_list(
    tbl: TableView,
    vt: ValueTypeView,
    items: Seq<JsonView>,
    i: int,
) -> Result<Seq<ValueView>, DecodeErrorView>
    decreases height(JsonView::Arr(items)), 5nat, ty_rank(vt), i,
    when 0 <= i <= items.len()
    via spec_decode_list_dec
{
    if i <= 0 {
        Ok(Seq::empty())
    } else {
        match spec_decode_list(tbl, vt, items, i - 1) {
            Err(e) => Err(e),
            Ok(acc) => match spec_decode_value(tbl, vt, items[i - 1]) {
                Err(e) => Err(e),
                Ok(v) => Ok(acc.push(v)),
            },
        }
    }
}

#[via_fn]
proof fn spec_decode_list_dec(tbl: TableView, vt: ValueTypeView, items: Seq<JsonView>, i: int) {
    if i > 0 {
        lemma_arr_height(items, i - 1);
    }
}

/// What a value decodes to under a normal property: a whole array when
/// every element fits, else nothing from `null`, else one element; both
/// faults are carried when neither path fits.
pub open spec fn spec_decode_many(tbl: TableView, vt: ValueTypeView, j: JsonView) -> Result<
    Seq<ValueView>,
    DecodeErrorView,
>
    decreases height(j), 6nat, ty_rank(vt), 0nat,
{
    match j {
        JsonView::Arr(items) => match spec_decode_list(tbl, vt, items, items.len() as int) {
            Ok(vs) => Ok(vs),
            Err(e1) => spec_decode_many_opt(tbl, vt, j, e1),
        },
        _ => spec_decode_many_opt(tbl, vt, j, DecodeErrorView::UnexpectedShape("array"@)),
    }
}

/// The optional path of a normal property: `null` is the empty list, any
/// other value is a one-element list when it decodes alone.
pub open spec fn spec_decode_many_opt(
    tbl: TableView,
    vt: ValueTypeView,
    j: JsonView,
    e1: DecodeErrorView,
) -> Result<Seq<ValueView>, DecodeErrorView>
    decreases height(j), 4nat, ty_rank(vt), 0nat,
{
    if j == JsonView::Null {
        Ok(Seq::empty())
    } else {
        match spec_decode_value(tbl, vt, j) {
            Ok(v) => Ok(seq![v]),
            Err(e2) => Err(DecodeErrorView::TypeMismatch(Box::new(e1), Box::new(e2))),
        }
    }
}

/// What a value decodes to under one half of a property, by cardinality:
/// a required value must be there, a functional one may be `null`, a
/// normal one is a list.
pub open spec fn spec_decode_half(
    tbl: TableView,
    kind: PropertyKind,
    vt: ValueTypeView,
    j: JsonView,
) -> Result<SlotView, DecodeErrorView>
    decreases height(j), 7nat, ty_rank(vt), 0nat,
{
    match kind {
        PropertyKind::Required => match spec_decode_value(tbl, vt, j) {
            Ok(v) => Ok(SlotView::Opt(Some(v))),
            Err(e) => Err(e),
        },
        PropertyKind::Functional => if j == JsonView::Null {
            Ok(SlotView::Opt(None))
        } else {
            match spec_decode_value(tbl, vt, j) {
                Ok(v) => Ok(SlotView::Opt(Some(v))),
                Err(e) => Err(e),
            }
        },
        PropertyKind::Normal => match spec_decode_many(tbl, vt, j) {
            Ok(vs) => Ok(SlotView::Many(vs)),
            Err(e) => Err(e),
        },
    }
}

/// The first `i` entries of a wire language map decoded: each language's
/// value under the property's own cardinality, later writes winning.
pub open spec fn spec_decode_langmap(
    tbl: TableView,
    kind: PropertyKind,
    vt: ValueTypeView,
    entries: Seq<(Seq<char>, JsonView)>,
    i: int,
) -> Result<Seq<(Seq<char>, SlotView)>, DecodeErrorView>
    decreases height(JsonView::Obj(entries)), 8nat, ty_rank(vt), i,
    when 0 <= i <= entries.len()
    via spec_decode_langmap_dec
{
    if i <= 0 {
        Ok(Seq::empty())
    } else {
        match spec_decode_langmap(tbl, kind, vt, entries, i - 1) {
            Err(e) => Err(e),
            Ok(acc) => match spec_decode_half(tbl, kind, vt, entries[i - 1].1) {
                Err(e) => Err(e),
                Ok(sl) => Ok(vupserted(acc, entries[i - 1].0, sl)),
            },
        }
    }
}

#[via_fn]
proof fn spec_decode_langmap_dec(
    tbl: TableView,
    kind: PropertyKind,
    vt: ValueTypeView,
    entries: Seq<(Seq<char>, JsonView)>,
    i: int,
) {
    if i > 0 {
        lemma_obj_height(entries, i - 1);
    }
}

/// One half-merge on the language-neutral side: normal values
/// concatenate, required and functional values refuse a second arrival.
pub open spec fn spec_merge_default(
    kind: PropertyKind,
    name: Seq<char>,
    acc: FieldAccView,
    sl: SlotView,
) -> Result<FieldAccView, DecodeErrorView> {
    match kind {
        PropertyKind::Normal => Ok(
            FieldAccView {
                default: Some(
                    match (acc.default, sl) {
                        (Some(SlotView::Many(a)), SlotView::Many(b)) => SlotView::Many(a + b),
                        (_, s2) => s2,
                    },
                ),
                container: acc.container,
            },
        ),
        _ => if acc.default is Some {
            Err(DecodeErrorView::DuplicateField(name))
        } else {
            Ok(FieldAccView { default: Some(sl), container: acc.container })
        },
    }
}

/// One half-merge on the map side: normal maps unite with later writes
/// winning, required and functional maps refuse a second arrival.
pub open spec fn spec_merge_container(
    kind: PropertyKind,
    name: Seq<char>,
    acc: FieldAccView,
    newmap: Seq<(Seq<char>, SlotView)>,
) -> Result<FieldAccView, DecodeErrorView> {
    match kind {
        PropertyKind::Normal => Ok(
            FieldAccView {
                default: acc.default,
                container: Some(
                    match acc.container {
                        Some(old) => vextended(old, newmap),
                        None => newmap,
                    },
                ),
            },
        ),
        _ => if acc.container is Some {
            Err(DecodeErrorView::DuplicateField(name))
        } else {
            Ok(FieldAccView { default: acc.default, container: Some(newmap) })
        },
    }
}

/// The scan state after one wire entry: an unrecognized key is ignored, a
/// recognized one decodes under its half and merges by cardinality.
pub open spec fn spec_apply_entry(
    tbl: TableView,
    props: Seq<ResolvedPropertyView>,
    accs: Seq<FieldAccView>,
    k: Seq<char>,
    v: JsonView,
) -> Result<Seq<FieldAccView>, DecodeErrorView>
    decreases height(v), 9nat, 0nat, 0nat,
    when accs.len() == props.len()
    via spec_apply_entry_dec
{
    match spec_key_lookup(props, k) {
        None => Ok(accs),
        Some(ih) => {
            let pi = ih.0;
            if !(0 <= pi < props.len()) {
                Ok(accs)
            } else {
                let prop = props[pi];
                let acc = accs[pi];
                if !ih.1 {
                    match spec_decode_half(tbl, prop.kind, prop.value_type, v) {
                        Err(e) => Err(e),
                        Ok(sl) => match spec_merge_default(prop.kind, prop.name, acc, sl) {
                            Err(e) => Err(e),
                            Ok(na) => Ok(accs.update(pi, na)),
                        },
                    }
                } else {
                    match v {
                        JsonView::Obj(m) => match spec_decode_langmap(
                            tbl,
                            prop.kind,
                            prop.value_type,
                            m,
                            m.len() as int,
                        ) {
                            Err(e) => Err(e),
                            Ok(newmap) => match spec_merge_container(
                                prop.kind,
                                prop.name,
                                acc,
                                newmap,
                            ) {
                                Err(e) => Err(e),
                                Ok(na) => Ok(accs.update(pi, na)),
                            },
                        },
                        _ => Err(DecodeErrorView::UnexpectedShape("object"@)),
                    }
                }
            }
        },
    }
}

#[via_fn]
proof fn spec_apply_entry_dec(
    tbl: TableView,
    props: Seq<ResolvedPropertyView>,
    accs: Seq<FieldAccView>,
    k: Seq<char>,
    v: JsonView,
) {
}

/// The scan state after the first `i` wire entries.
pub open spec fn spec_scan(
    tbl: TableView,
    props: Seq<ResolvedPropertyView>,
    entries: Seq<(Seq<char>, JsonView)>,
    i: int,
) -> Result<Seq<FieldAccView>, DecodeErrorView>
    decreases height(JsonView::Obj(entries)), 0nat, 0nat, i,
    when 0 <= i <= entries.len()
    via spec_scan_dec
{
    if i <= 0 {
        Ok(empty_accs(props.len() as nat))
    } else {
        match spec_scan(tbl, props, entries, i - 1) {
            Err(e) => Err(e),
            Ok(accs) => spec_apply_entry(tbl, props, accs, entries[i - 1].0, entries[i - 1].1),
        }
    }
}

#[via_fn]
proof fn spec_scan_dec(
    tbl: TableView,
    props: Seq<ResolvedPropertyView>,
    entries: Seq<(Seq<char>, JsonView)>,
    i: int,
) {
    if i > 0 {
        lemma_obj_height(entries, i - 1);
    }
}

/// The empty slot a missing half defaults to, by cardinality.
pub open spec fn empty_slot(kind: PropertyKind) -> SlotView {
    match kind {
        PropertyKind::Normal => SlotView::Many(Seq::empty()),
        _ => SlotView::Opt(None),
    }
}

/// The fields built from the first `i` properties' scan state: required
/// fields must have arrived — a required language container through
/// either half — and the rest default to none or empty.
pub open spec fn spec_finish(
    props: Seq<ResolvedPropertyView>,
    accs: Seq<FieldAccView>,
    i: int,
) -> Result<Seq<FieldView>, DecodeErrorView>
    decreases i,
{
    if i <= 0 {
        Ok(Seq::empty())
    } else {
        match spec_finish(props, accs, i - 1) {
            Err(e) => Err(e),
            Ok(fields) => {
                if !(0 <= i - 1 < props.len() && accs.len() == props.len()) {
                    Ok(fields)
                } else {
                    let prop = props[i - 1];
                    let acc = accs[i - 1];
                    match prop.container {
                        None => match prop.kind {
                            PropertyKind::Required => match acc.default {
                                Some(sl) => Ok(fields.push(FieldView::Simple(sl))),
                                None => Err(DecodeErrorView::MissingRequiredField(prop.name)),
                            },
                            _ => Ok(
                                fields.push(
                                    FieldView::Simple(
                                        match acc.default {
                                            Some(sl) => sl,
                                            None => empty_slot(prop.kind),
                                        },
                                    ),
                                ),
                            ),
                        },
                        Some(_) => {
                            let map = match acc.container {
                                Some(m) => m,
                                None => Seq::empty(),
                            };
                            if prop.kind == PropertyKind::Required && acc.default is None
                                && map.len() == 0 {
                                Err(DecodeErrorView::MissingRequiredField(prop.name))
                            } else {
                                Ok(
                                    fields.push(
                                        FieldView::Lang(
                                            crate::values::LangView {
                                                default: match acc.default {
                                                    Some(sl) => sl,
                                                    None => empty_slot(prop.kind),
                                                },
                                                per_lang: map,
                                            },
                                        ),
                                    ),
                                )
                            }
                        },
                    }
                }
            },
        }
    }
}

/// What a document object decodes to against one concrete binding.
pub open spec fn spec_decode_concrete(
    tbl: TableView,
    b: TypeBindingView,
    entries: Seq<(Seq<char>, JsonView)>,
) -> Result<ObjectView, DecodeErrorView>
    decreases height(JsonView::Obj(entries)), 0nat, 1nat, 0nat,
{
    match spec_scan(tbl, b.props, entries, entries.len() as int) {
        Err(e) => Err(e),
        Ok(accs) => match spec_finish(b.props, accs, b.props.len() as int) {
            Err(e) => Err(e),
            Ok(fields) => Ok(ObjectView { name: b.name, fields }),
        },
    }
}

/// The value of the last entry with the discriminant key among the
/// first `i`, if any.
pub open spec fn spec_tag_value(
    entries: Seq<(Seq<char>, JsonView)>,
    key: Seq<char>,
    i: int,
) -> Option<JsonView>
    decreases i,
{
    if i <= 0 {
        None
    } else if 0 <= i - 1 < entries.len() && entries[i - 1].0 == key {
        Some(entries[i - 1].1)
    } else {
        spec_tag_value(entries, key, i - 1)
    }
}

/// The first recognized subtype name among the first `i` elements of a
/// discriminant array.
pub open spec fn spec_first_label(subs: Seq<Seq<char>>, items: Seq<JsonView>, i: int) -> Option<
    Seq<char>,
>
    decreases items.len() - i,
{
    if !(0 <= i < items.len()) {
        None
    } else {
        match items[i] {
            JsonView::Str(s) => if str_in(subs, s) {
                Some(s)
            } else {
                spec_first_label(subs, items, i + 1)
            },
            _ => spec_first_label(subs, items, i + 1),
        }
    }
}

/// The concrete subtype a discriminant value names, resolved against the
/// base's subtype set: a recognized string, or the first recognized
/// string of an array.
pub open spec fn spec_resolve_tag(subs: Seq<Seq<char>>, tv: Option<JsonView>) -> Option<
    Seq<char>,
> {
    match tv {
        Some(JsonView::Str(s)) => if str_in(subs, s) {
            Some(s)
        } else {
            None
        },
        Some(JsonView::Arr(items)) => spec_first_label(subs, items, 0),
        _ => None,
    }
}

/// The text reported when a discriminant resolves to nothing.
pub open spec fn spec_tag_text(tv: Option<JsonView>) -> Seq<char> {
    match tv {
        Some(JsonView::Str(s)) => s,
        _ => Seq::empty(),
    }
}

/// The base-type path of a polymorphic decode: with the discriminant
/// absent or unrecognized, the base binding decides, and its failure is
/// reported as an unknown discriminant naming the expected set.  The
/// base's own fault — a missing or duplicated field, say — is surfaced by
/// `decode_exact`, which addresses the one type directly.
pub open spec fn spec_decode_fallback(
    tbl: TableView,
    base: Seq<char>,
    entries: Seq<(Seq<char>, JsonView)>,
    tag_text: Seq<char>,
    subs: Seq<Seq<char>>,
) -> Result<ObjectView, DecodeErrorView>
    decreases height(JsonView::Obj(entries)), 1nat, 0nat, 0nat,
{
    match binding_index(tbl, base) {
        Some(bi) => match spec_decode_concrete(tbl, tbl[bi], entries) {
            Ok(o) => Ok(o),
            Err(_) => Err(DecodeErrorView::UnknownDiscriminant(tag_text, subs)),
        },
        None => Err(DecodeErrorView::UnknownDiscriminant(tag_text, subs)),
    }
}

/// What a document decodes to against a base type: the discriminant
/// picks a subtype; an absent or unrecognized discriminant falls back to
/// the base type itself.
pub open spec fn spec_decode_poly(tbl: TableView, base: Seq<char>, j: JsonView) -> Result<
    ObjectView,
    DecodeErrorView,
>
    decreases height(j), 2nat, 0nat, 0nat,
{
    match j {
        JsonView::Obj(entries) => {
            let tv = spec_tag_value(entries, "type"@, entries.len() as int);
            let subs = match binding_index(tbl, base) {
                Some(bi) => tbl[bi].subtypes,
                None => Seq::empty(),
            };
            match spec_resolve_tag(subs, tv) {
                Some(cn) => match binding_index(tbl, cn) {
                    Some(ci) => spec_decode_concrete(tbl, tbl[ci], entries),
                    None => spec_decode_fallback(tbl, base, entries, spec_tag_text(tv), subs),
                },
                None => spec_decode_fallback(tbl, base, entries, spec_tag_text(tv), subs),
            }
        },
        _ => Err(DecodeErrorView::UnexpectedShape("object"@)),
    }
}

} // verus!

verus! {

/// No half of `p` answers to the key `k`.
pub open spec fn no_key_match(p: ResolvedPropertyView, k: Seq<char>) -> bool {
    &&& !(k == p.tag || str_in(p.aliases, k))
    &&& !(match p.container {
        Some(c) => k == c.tag || str_in(c.aliases, k),
        None => false,
    })
}

/// What `spec_key_lookup` finds, told from a first-match layout.
proof fn lemma_key_lookup_first(
    props: Seq<ResolvedPropertyView>,
    k: Seq<char>,
    f: int,
    half: bool,
)
    requires
        0 <= f < props.len(),
        forall|j: int| 0 <= j < f ==> no_key_match(#[trigger] props[j], k),
        !half ==> (k == props[f].tag || str_in(props[f].aliases, k)),
        half ==> !(k == props[f].tag || str_in(props[f].aliases, k)) && (match props[f].container {
            Some(c) => k == c.tag || str_in(c.aliases, k),
            None => false,
        }),
    ensures
        spec_key_lookup(props, k) == Some((f, half)),
    decreases f,
{
    if f > 0 {
        assert(no_key_match(props[0], k));
        assert(props.drop_first()[f - 1] == props[f]);
        assert forall|j: int| 0 <= j < f - 1 implies no_key_match(
            #[trigger] props.drop_first()[j],
            k,
        ) by {
            assert(props.drop_first()[j] == props[j + 1]);
        }
        lemma_key_lookup_first(props.drop_first(), k, f - 1, half);
    }
}

/// A key no property answers to finds nothing.
proof fn lemma_key_lookup_none(props: Seq<ResolvedPropertyView>, k: Seq<char>)
    requires
        forall|j: int| 0 <= j < props.len() ==> no_key_match(#[trigger] props[j], k),
    ensures
        spec_key_lookup(props, k) is None,
    decreases props.len(),
{
    if props.len() > 0 {
        assert(no_key_match(props[0], k));
        assert forall|j: int| 0 <= j < props.drop_first().len() implies no_key_match(
            #[trigger] props.drop_first()[j],
            k,
        ) by {
            assert(props.drop_first()[j] == props[j + 1]);
        }
        lemma_key_lookup_none(props.drop_first(), k);
    }
}

/// Routes a wire key to its property and half, as `spec_key_lookup`
/// describes.
fn key_lookup(props: &Vec<crate::bindings::ResolvedProperty>, k: &String) -> (r: Option<
    (usize, bool),
>)
    ensures
        match r {
            Some(ih) => ih.0 < props@.len() && spec_key_lookup(
                crate::bindings::rprops_view(props@),
                k@,
            ) == Some((ih.0 as int, ih.1)),
            None => spec_key_lookup(crate::bindings::rprops_view(props@), k@) is None,
        },
{
    let ghost pv = crate::bindings::rprops_view(props@);
    let n = props.len();
    let mut i: usize = 0;
    while i < n
        invariant
            i <= n,
            n == props@.len(),
            pv == crate::bindings::rprops_view(props@),
            forall|j: int| 0 <= j < i ==> no_key_match(#[trigger] pv[j], k@),
        decreases n - i,
    {
        let p = &props[i];
        proof {
            assert(pv[i as int] == crate::bindings::resolved_property_view(props@[i as int]));
        }
        if p.tag.eq(k) || crate::resolve::contains_str(&p.aliases, k) {
            proof {
                lemma_key_lookup_first(pv, k@, i as int, false);
            }
            return Some((i, false));
        }
        match &p.container {
            Some(c) => {
                if c.tag.eq(k) || crate::resolve::contains_str(&c.aliases, k) {
                    proof {
                        lemma_key_lookup_first(pv, k@, i as int, true);
                    }
                    return Some((i, true));
                }
            },
            None => {},
        }
        proof {
            assert(no_key_match(pv[i as int], k@));
        }
        i = i + 1;
    }
    proof {
        lemma_key_lookup_none(pv, k@);
    }
    None
}

/// Decodes one scalar value under a leaf type expression, as
/// `spec_decode_value` describes for that leaf.
#[verifier::rlimit(100)]
fn decode_scalar(tbl: &BindingTable, vt: &crate::schema::ValueType, j: &Json) -> (r: Result<
    crate::values::Value,
    DecodeError,
>)
    requires
        vt@ is Any || vt@ is Str || vt@ is Bool || vt@ is Int || vt@ is Url || vt@ is DateTime
            || vt@ is Duration,
    ensures
        match r {
            Ok(v) => spec_decode_value(tbl@, vt@, j@) == Ok::<ValueView, DecodeErrorView>(v@),
            Err(e) => spec_decode_value(tbl@, vt@, j@) == Err::<ValueView, DecodeErrorView>(e@),
        },
{
    match vt {
        crate::schema::ValueType::Any => Ok(crate::values::Value::Json(j.duplicate())),
        crate::schema::ValueType::Str => match j {
            Json::Str(s) => Ok(crate::values::Value::Text(s.clone())),
            _ => Err(DecodeError::UnexpectedShape(String::from_str("string"))),
        },
        crate::schema::ValueType::Bool => match j {
            Json::Bool(b) => Ok(crate::values::Value::Flag(*b)),
            _ => Err(DecodeError::UnexpectedShape(String::from_str("boolean"))),
        },
        crate::schema::ValueType::Int => match j {
            Json::Int(n) => Ok(crate::values::Value::Number(*n)),
            _ => Err(DecodeError::UnexpectedShape(String::from_str("integer"))),
        },
        crate::schema::ValueType::Url => match j {
            Json::Str(s) => match crate::iri::parse_url(s.as_str()) {
                Some(t) => Ok(crate::values::Value::Id(t)),
                None => Err(DecodeError::MalformedScalar(s.clone())),
            },
            _ => Err(DecodeError::UnexpectedShape(String::from_str("string"))),
        },
        crate::schema::ValueType::DateTime => match j {
            Json::Str(s) => match crate::xsd::DateTime::parse(s.as_str()) {
                Some(dt) => Ok(crate::values::Value::Stamp(dt)),
                None => Err(DecodeError::MalformedScalar(s.clone())),
            },
            _ => Err(DecodeError::UnexpectedShape(String::from_str("string"))),
        },
        _ => match j {
            Json::Str(s) => match crate::xsd::Duration::parse(s.as_str()) {
                Ok(d) => Ok(crate::values::Value::Span(d)),
                Err(_) => Err(DecodeError::MalformedScalar(s.clone())),
            },
            _ => Err(DecodeError::UnexpectedShape(String::from_str("string"))),
        },
    }
}

/// Decodes one value under a type expression, as `spec_decode_value`
/// describes.
#[verifier::rlimit(100)]
pub fn decode_value(tbl: &BindingTable, vt: &crate::schema::ValueType, j: &Json) -> (r: Result<
    crate::values::Value,
    DecodeError,
>)
    ensures
        r is Ok ==> spec_decode_value(tbl@, vt@, j@) == Ok::<ValueView, DecodeErrorView>(
            r->Ok_0@,
        ),
        r is Err ==> spec_decode_value(tbl@, vt@, j@) == Err::<ValueView, DecodeErrorView>(
            r->Err_0@,
        ),
    decreases height(j@), 3nat, ty_rank(vt@), 0nat,
{
    match vt {
        crate::schema::ValueType::Object(name) => match decode_poly(tbl, name, j) {
            Ok(o) => Ok(crate::values::Value::Object(o)),
            Err(e) => Err(e),
        },
        crate::schema::ValueType::Remote(t) => match decode_value(tbl, t, j) {
            Ok(v) => Ok(crate::values::Value::Inline(Box::new(v))),
            Err(e1) => match j {
                Json::Str(s) => match crate::iri::parse_url(s.as_str()) {
                    Some(t2) => Ok(crate::values::Value::Ref(t2)),
                    None => {
                        let inner = DecodeError::MalformedScalar(s.clone());
                        proof {
                            assert(inner@ == DecodeErrorView::MalformedScalar(s@));
                        }
                        Err(DecodeError::TypeMismatch(Box::new(e1), Box::new(inner)))
                    },
                },
                _ => {
                    let inner = DecodeError::UnexpectedShape(String::from_str("string"));
                    proof {
                        assert(inner@ == DecodeErrorView::UnexpectedShape("string"@));
                    }
                    Err(DecodeError::TypeMismatch(Box::new(e1), Box::new(inner)))
                },
            },
        },
        crate::schema::ValueType::Either(l, rt) => match decode_value(tbl, l, j) {
            Ok(v) => Ok(crate::values::Value::Prim(Box::new(v))),
            Err(e1) => match decode_value(tbl, rt, j) {
                Ok(v) => Ok(crate::values::Value::Snd(Box::new(v))),
                Err(e2) => Err(DecodeError::TypeMismatch(Box::new(e1), Box::new(e2))),
            },
        },
        _ => decode_scalar(tbl, vt, j),
    }
}

/// A fault on an earlier element decides the whole list.
proof fn lemma_decode_list_err(
    tbl: TableView,
    vt: ValueTypeView,
    items: Seq<JsonView>,
    k: int,
)
    requires
        0 <= k <= items.len(),
        spec_decode_list(tbl, vt, items, k) is Err,
    ensures
        spec_decode_list(tbl, vt, items, items.len() as int) == spec_decode_list(
            tbl,
            vt,
            items,
            k,
        ),
    decreases items.len() - k,
{
    if k < items.len() {
        lemma_decode_list_err(tbl, vt, items, k + 1);
    }
}

/// Decodes the optional path of a normal property, as
/// `spec_decode_many_opt` describes.
fn decode_many_opt(
    tbl: &BindingTable,
    vt: &crate::schema::ValueType,
    j: &Json,
    e1: DecodeError,
) -> (r: Result<Vec<crate::values::Value>, DecodeError>)
    ensures
        match r {
            Ok(vs) => spec_decode_many_opt(tbl@, vt@, j@, e1@) == Ok::<
                Seq<ValueView>,
                DecodeErrorView,
            >(crate::values::values_view(vs@)),
            Err(e) => spec_decode_many_opt(tbl@, vt@, j@, e1@) == Err::<
                Seq<ValueView>,
                DecodeErrorView,
            >(e@),
        },
    decreases height(j@), 4nat, ty_rank(vt@), 0nat,
{
    broadcast use crate::values::lemma_values_view;

    match j {
        Json::Null => {
            let out: Vec<crate::values::Value> = Vec::new();
            proof {
                assert(crate::values::values_view(out@) =~= Seq::<ValueView>::empty());
            }
            Ok(out)
        },
        _ => match decode_value(tbl, vt, j) {
            Ok(v) => {
                let mut out: Vec<crate::values::Value> = Vec::new();
                out.push(v);
                proof {
                    assert(crate::values::values_view(out@) =~= seq![
                        spec_decode_value(tbl@, vt@, j@)->Ok_0,
                    ]);
                }
                Ok(out)
            },
            Err(e2) => Err(DecodeError::TypeMismatch(Box::new(e1), Box::new(e2))),
        },
    }
}

/// Decodes a value under a normal property, as `spec_decode_many`
/// describes.
fn decode_many(tbl: &BindingTable, vt: &crate::schema::ValueType, j: &Json) -> (r: Result<
    Vec<crate::values::Value>,
    DecodeError,
>)
    ensures
        match r {
            Ok(vs) => spec_decode_many(tbl@, vt@, j@) == Ok::<Seq<ValueView>, DecodeErrorView>(
                crate::values::values_view(vs@),
            ),
            Err(e) => spec_decode_many(tbl@, vt@, j@) == Err::<Seq<ValueView>, DecodeErrorView>(
                e@,
            ),
        },
    decreases height(j@), 6nat, ty_rank(vt@), 0nat,
{
    broadcast use crate::values::lemma_values_view, lemma_arr_view;

    match j {
        Json::Arr(items) => {
            let ghost itemsv = arr_view(items@);
            let mut out: Vec<crate::values::Value> = Vec::new();
            let mut k: usize = 0;
            let mut failed: Option<DecodeError> = None;
            proof {
                assert(spec_decode_list(tbl@, vt@, itemsv, 0) == Ok::<
                    Seq<ValueView>,
                    DecodeErrorView,
                >(crate::values::values_view(out@))) by {
                    assert(crate::values::values_view(out@) =~= Seq::<ValueView>::empty());
                }
            }
            loop
                invariant_except_break
                    failed is None,
                invariant
                    k <= itemsv.len(),
                    itemsv == arr_view(items@),
                    itemsv.len() == items@.len(),
                    j == Json::Arr(*items),
                    height(j@) == height(JsonView::Arr(itemsv)),
                    spec_decode_list(tbl@, vt@, itemsv, k as int) == Ok::<
                        Seq<ValueView>,
                        DecodeErrorView,
                    >(crate::values::values_view(out@)),
                ensures
                    match failed {
                        Some(e) => spec_decode_list(tbl@, vt@, itemsv, itemsv.len() as int)
                            == Err::<Seq<ValueView>, DecodeErrorView>(e@),
                        None => spec_decode_list(tbl@, vt@, itemsv, itemsv.len() as int) == Ok::<
                            Seq<ValueView>,
                            DecodeErrorView,
                        >(crate::values::values_view(out@)),
                    },
                decreases itemsv.len() - k,
            {
                if k >= items.len() {
                    break;
                }
                proof {
                    lemma_arr_view(items@);
                    lemma_arr_height(itemsv, k as int);
                    assert(itemsv[k as int] == json_view(items@[k as int]));
                    assert(height(items@[k as int]@) < height(j@));
                }
                match decode_value(tbl, vt, &items[k]) {
                    Ok(v) => {
                        let ghost before = crate::values::values_view(out@);
                        let ghost out0 = out@;
                        out.push(v);
                        proof {
                            crate::values::lemma_values_view(out@);
                            crate::values::lemma_values_view(out0);
                            assert(crate::values::values_view(out@) =~= before.push(
                                spec_decode_value(tbl@, vt@, itemsv[k as int])->Ok_0,
                            ));
                        }
                    },
                    Err(e) => {
                        proof {
                            lemma_decode_list_err(tbl@, vt@, itemsv, k as int + 1);
                        }
                        failed = Some(e);
                        break;
                    },
                }
                k = k + 1;
            }
            match failed {
                None => Ok(out),
                Some(e) => decode_many_opt(tbl, vt, j, e),
            }
        },
        _ => decode_many_opt(
            tbl,
            vt,
            j,
            DecodeError::UnexpectedShape(String::from_str("array")),
        ),
    }
}

/// Decodes one half of a property by its cardinality, as
/// `spec_decode_half` describes.
fn decode_half(
    tbl: &BindingTable,
    kind: PropertyKind,
    vt: &crate::schema::ValueType,
    j: &Json,
) -> (r: Result<crate::values::Slot, DecodeError>)
    ensures
        match r {
            Ok(sl) => spec_decode_half(tbl@, kind, vt@, j@) == Ok::<SlotView, DecodeErrorView>(
                crate::values::slot_view(sl),
            ),
            Err(e) => spec_decode_half(tbl@, kind, vt@, j@) == Err::<SlotView, DecodeErrorView>(
                e@,
            ),
        },
    decreases height(j@), 7nat, ty_rank(vt@), 0nat,
{
    match kind {
        PropertyKind::Required => match decode_value(tbl, vt, j) {
            Ok(v) => Ok(crate::values::Slot::Opt(Some(v))),
            Err(e) => Err(e),
        },
        PropertyKind::Functional => match j {
            Json::Null => Ok(crate::values::Slot::Opt(None)),
            _ => match decode_value(tbl, vt, j) {
                Ok(v) => Ok(crate::values::Slot::Opt(Some(v))),
                Err(e) => Err(e),
            },
        },
        PropertyKind::Normal => match decode_many(tbl, vt, j) {
            Ok(vs) => Ok(crate::values::Slot::Many(vs)),
            Err(e) => Err(e),
        },
    }
}

} // verus!

verus! {

/// One property's state while a document is scanned.
#[derive(Debug, PartialEq)]
pub struct FieldAcc {
    pub default: Option<crate::values::Slot>,
    pub container: Option<Vec<(String, crate::values::Slot)>>,
}

/// Model of a scan state.
pub open spec fn acc_view(a: FieldAcc) -> FieldAccView {
    FieldAccView {
        default: match a.default {
            Some(sl) => Some(crate::values::slot_view(sl)),
            None => None,
        },
        container: match a.container {
            Some(m) => Some(crate::values::lang_view(m@)),
            None => None,
        },
    }
}

/// Models of the whole scan state, elementwise.
pub open spec fn accs_view(s: Seq<FieldAcc>) -> Seq<FieldAccView> {
    Seq::new(s.len(), |i: int| acc_view(s[i]))
}

/// Writes a slot under a language, as `vupserted` describes.
fn upsert_slot(m: &mut Vec<(String, crate::values::Slot)>, k: String, v: crate::values::Slot)
    ensures
        crate::values::lang_view(final(m)@) == vupserted(
            crate::values::lang_view(old(m)@),
            k@,
            crate::values::slot_view(v),
        ),
{
    broadcast use crate::values::lemma_lang_view;

    proof {
        crate::values::lemma_lang_view(m@);
        crate::keymap::lemma_vkey_index(crate::values::lang_view(m@), k@);
    }
    let n = m.len();
    let mut i: usize = 0;
    while i < n
        invariant
            i <= n,
            n == m@.len(),
            m@ == old(m)@,
            forall|j: int| 0 <= j < i ==> (#[trigger] crate::values::lang_view(m@)[j]).0 != k@,
        decreases n - i,
    {
        proof {
            crate::values::lemma_lang_view(m@);
            assert(crate::values::lang_view(m@)[i as int].0 == m@[i as int].0@);
        }
        if m[i].0.eq(&k) {
            proof {
                crate::keymap::lemma_vkey_index_first(
                    crate::values::lang_view(m@),
                    k@,
                    i as int,
                );
            }
            let _ = m.remove(i);
            m.insert(i, (k, v));
            proof {
                crate::values::lemma_lang_view(m@);
                crate::values::lemma_lang_view(old(m)@);
                assert(crate::values::lang_view(m@) =~= crate::values::lang_view(
                    old(m)@,
                ).update(i as int, (k@, crate::values::slot_view(v))));
            }
            return;
        }
        i = i + 1;
    }
    m.push((k, v));
    proof {
        crate::values::lemma_lang_view(m@);
        crate::values::lemma_lang_view(old(m)@);
        assert(crate::keymap::vkey_index(crate::values::lang_view(old(m)@), k@) is None) by {
            crate::keymap::lemma_vkey_index(crate::values::lang_view(old(m)@), k@);
        }
        assert(crate::values::lang_view(m@) =~= crate::values::lang_view(old(m)@).push(
            (k@, crate::values::slot_view(v)),
        ));
    }
}

/// A fault on an earlier language decides the whole map.
proof fn lemma_decode_langmap_err(
    tbl: TableView,
    kind: PropertyKind,
    vt: ValueTypeView,
    entries: Seq<(Seq<char>, JsonView)>,
    k: int,
)
    requires
        0 <= k <= entries.len(),
        spec_decode_langmap(tbl, kind, vt, entries, k) is Err,
    ensures
        spec_decode_langmap(tbl, kind, vt, entries, entries.len() as int) == spec_decode_langmap(
            tbl,
            kind,
            vt,
            entries,
            k,
        ),
    decreases entries.len() - k,
{
    if k < entries.len() {
        lemma_decode_langmap_err(tbl, kind, vt, entries, k + 1);
    }
}

/// Decodes a wire language map, as `spec_decode_langmap` describes.
fn decode_langmap(
    tbl: &BindingTable,
    kind: PropertyKind,
    vt: &crate::schema::ValueType,
    entries: &Vec<(String, Json)>,
) -> (r: Result<Vec<(String, crate::values::Slot)>, DecodeError>)
    ensures
        match r {
            Ok(m) => spec_decode_langmap(
                tbl@,
                kind,
                vt@,
                obj_view(entries@),
                entries@.len() as int,
            ) == Ok::<Seq<(Seq<char>, SlotView)>, DecodeErrorView>(
                crate::values::lang_view(m@),
            ),
            Err(e) => spec_decode_langmap(
                tbl@,
                kind,
                vt@,
                obj_view(entries@),
                entries@.len() as int,
            ) == Err::<Seq<(Seq<char>, SlotView)>, DecodeErrorView>(e@),
        },
    decreases height(JsonView::Obj(obj_view(entries@))), 8nat, ty_rank(vt@), 0nat,
{
    broadcast use lemma_obj_view, crate::values::lemma_lang_view;

    let ghost ev = obj_view(entries@);
    let mut out: Vec<(String, crate::values::Slot)> = Vec::new();
    let mut i: usize = 0;
    proof {
        assert(spec_decode_langmap(tbl@, kind, vt@, ev, 0) == Ok::<
            Seq<(Seq<char>, SlotView)>,
            DecodeErrorView,
        >(crate::values::lang_view(out@))) by {
            assert(crate::values::lang_view(out@) =~= Seq::<(Seq<char>, SlotView)>::empty());
        }
    }
    while i < entries.len()
        invariant
            i <= ev.len(),
            ev == obj_view(entries@),
            ev.len() == entries@.len(),
            spec_decode_langmap(tbl@, kind, vt@, ev, i as int) == Ok::<
                Seq<(Seq<char>, SlotView)>,
                DecodeErrorView,
            >(crate::values::lang_view(out@)),
        decreases ev.len() - i,
    {
        proof {
            lemma_obj_view(entries@);
            lemma_obj_height(ev, i as int);
            assert(ev[i as int] == (entries@[i as int].0@, json_view(entries@[i as int].1)));
        }
        match decode_half(tbl, kind, vt, &entries[i].1) {
            Ok(sl) => {
                let key = entries[i].0.clone();
                upsert_slot(&mut out, key, sl);
            },
            Err(e) => {
                proof {
                    lemma_decode_langmap_err(tbl@, kind, vt@, ev, i as int + 1);
                }
                return Err(e);
            },
        }
        i = i + 1;
    }
    Ok(out)
}

/// A fault on an earlier entry decides the whole scan.
proof fn lemma_scan_err(
    tbl: TableView,
    props: Seq<ResolvedPropertyView>,
    entries: Seq<(Seq<char>, JsonView)>,
    k: int,
)
    requires
        0 <= k <= entries.len(),
        spec_scan(tbl, props, entries, k) is Err,
    ensures
        spec_scan(tbl, props, entries, entries.len() as int) == spec_scan(
            tbl,
            props,
            entries,
            k,
        ),
    decreases entries.len() - k,
{
    if k < entries.len() {
        lemma_scan_err(tbl, props, entries, k + 1);
    }
}

/// A fault on an earlier property decides the whole finish.
proof fn lemma_finish_err(
    props: Seq<ResolvedPropertyView>,
    accs: Seq<FieldAccView>,
    k: int,
    n: int,
)
    requires
        0 <= k <= n,
        spec_finish(props, accs, k) is Err,
    ensures
        spec_finish(props, accs, n) == spec_finish(props, accs, k),
    decreases n - k,
{
    if k < n {
        lemma_finish_err(props, accs, k + 1, n);
    }
}

/// The empty slot of a missing half.
fn make_empty_slot(kind: PropertyKind) -> (r: crate::values::Slot)
    ensures
        crate::values::slot_view(r) == empty_slot(kind),
{
    match kind {
        PropertyKind::Normal => {
            let vs: Vec<crate::values::Value> = Vec::new();
            proof {
                assert(crate::values::values_view(vs@) =~= Seq::<ValueView>::empty());
            }
            crate::values::Slot::Many(vs)
        },
        _ => crate::values::Slot::Opt(None),
    }
}

/// Merges a decoded language-neutral half into its property's state, as
/// `spec_merge_default` describes.
fn merge_default_acc(
    kind: PropertyKind,
    name: &String,
    acc: FieldAcc,
    sl: crate::values::Slot,
) -> (r: Result<FieldAcc, DecodeError>)
    ensures
        match r {
            Ok(na) => spec_merge_default(
                kind,
                name@,
                acc_view(acc),
                crate::values::slot_view(sl),
            ) == Ok::<FieldAccView, DecodeErrorView>(acc_view(na)),
            Err(e) => spec_merge_default(
                kind,
                name@,
                acc_view(acc),
                crate::values::slot_view(sl),
            ) == Err::<FieldAccView, DecodeErrorView>(e@),
        },
{
    match kind {
        PropertyKind::Normal => {
            let merged = match (acc.default, sl) {
                (Some(crate::values::Slot::Many(mut a)), crate::values::Slot::Many(mut bs)) => {
                    let ghost av = crate::values::values_view(a@);
                    let ghost bv = crate::values::values_view(bs@);
                    let ghost a0 = a@;
                    let ghost b0 = bs@;
                    a.append(&mut bs);
                    proof {
                        crate::values::lemma_values_view(a@);
                        crate::values::lemma_values_view(a0);
                        crate::values::lemma_values_view(b0);
                        assert(crate::values::values_view(a@) =~= av + bv);
                    }
                    crate::values::Slot::Many(a)
                },
                (_, s2) => s2,
            };
            Ok(FieldAcc { default: Some(merged), container: acc.container })
        },
        _ => {
            if acc.default.is_some() {
                return Err(DecodeError::DuplicateField(name.clone()));
            }
            Ok(FieldAcc { default: Some(sl), container: acc.container })
        },
    }
}

/// Merges a decoded map half into its property's state, as
/// `spec_merge_container` describes.
fn merge_container_acc(
    kind: PropertyKind,
    name: &String,
    acc: FieldAcc,
    newmap: Vec<(String, crate::values::Slot)>,
) -> (r: Result<FieldAcc, DecodeError>)
    ensures
        match r {
            Ok(na) => spec_merge_container(
                kind,
                name@,
                acc_view(acc),
                crate::values::lang_view(newmap@),
            ) == Ok::<FieldAccView, DecodeErrorView>(acc_view(na)),
            Err(e) => spec_merge_container(
                kind,
                name@,
                acc_view(acc),
                crate::values::lang_view(newmap@),
            ) == Err::<FieldAccView, DecodeErrorView>(e@),
        },
{
    match kind {
        PropertyKind::Normal => {
            let merged = match acc.container {
                Some(old_map) => extend_langmap(old_map, newmap),
                None => newmap,
            };
            Ok(FieldAcc { default: acc.default, container: Some(merged) })
        },
        _ => {
            if acc.container.is_some() {
                return Err(DecodeError::DuplicateField(name.clone()));
            }
            Ok(FieldAcc { default: acc.default, container: Some(newmap) })
        },
    }
}

/// Applies a recognized language-neutral-half entry, as
/// `spec_apply_entry` describes for that half.
#[verifier::rlimit(100)]
#[verifier::spinoff_prover]
fn apply_default_entry(
    tbl: &BindingTable,
    b: &TypeBinding,
    accs: &mut Vec<FieldAcc>,
    pi: usize,
    key: &String,
    v: &Json,
) -> (r: Result<(), DecodeError>)
    requires
        old(accs)@.len() == b.props@.len(),
        pi < b.props@.len(),
        spec_key_lookup(b@.props, key@) == Some((pi as int, false)),
    ensures
        match r {
            Ok(_) => spec_apply_entry(tbl@, b@.props, accs_view(old(accs)@), key@, v@) == Ok::<
                Seq<FieldAccView>,
                DecodeErrorView,
            >(accs_view(final(accs)@)) && final(accs)@.len() == old(accs)@.len(),
            Err(e) => spec_apply_entry(tbl@, b@.props, accs_view(old(accs)@), key@, v@) == Err::<
                Seq<FieldAccView>,
                DecodeErrorView,
            >(e@),
        },
    decreases height(v@), 10nat, 0nat, 0nat,
{
    let ghost pv = b@.props;
    let ghost accs0 = accs_view(accs@);
    proof {
        assert(pv[pi as int] == crate::bindings::resolved_property_view(b.props@[pi as int]));
        assert(accs0[pi as int] == acc_view(accs@[pi as int]));
    }
    let kind = b.props[pi].kind;
    match decode_half(tbl, kind, &b.props[pi].value_type, v) {
        Err(e) => Err(e),
        Ok(sl) => {
            let acc = accs.remove(pi);
            match merge_default_acc(kind, &b.props[pi].name, acc, sl) {
                Err(e) => Err(e),
                Ok(na) => {
                    accs.insert(pi, na);
                    proof {
                        assert(accs_view(accs@) =~= accs0.update(pi as int, acc_view(na)));
                    }
                    Ok(())
                },
            }
        },
    }
}

/// Applies a recognized map-half entry, as `spec_apply_entry` describes
/// for that half.
#[verifier::rlimit(100)]
#[verifier::spinoff_prover]
fn apply_container_entry(
    tbl: &BindingTable,
    b: &TypeBinding,
    accs: &mut Vec<FieldAcc>,
    pi: usize,
    key: &String,
    v: &Json,
) -> (r: Result<(), DecodeError>)
    requires
        old(accs)@.len() == b.props@.len(),
        pi < b.props@.len(),
        spec_key_lookup(b@.props, key@) == Some((pi as int, true)),
    ensures
        match r {
            Ok(_) => spec_apply_entry(tbl@, b@.props, accs_view(old(accs)@), key@, v@) == Ok::<
                Seq<FieldAccView>,
                DecodeErrorView,
            >(accs_view(final(accs)@)) && final(accs)@.len() == old(accs)@.len(),
            Err(e) => spec_apply_entry(tbl@, b@.props, accs_view(old(accs)@), key@, v@) == Err::<
                Seq<FieldAccView>,
                DecodeErrorView,
            >(e@),
        },
    decreases height(v@), 10nat, 0nat, 0nat,
{
    let ghost pv = b@.props;
    let ghost accs0 = accs_view(accs@);
    proof {
        assert(pv[pi as int] == crate::bindings::resolved_property_view(b.props@[pi as int]));
        assert(accs0[pi as int] == acc_view(accs@[pi as int]));
    }
    let kind = b.props[pi].kind;
    match v {
        Json::Obj(m) => {
            proof {
                lemma_obj_view(m@);
            }
            match decode_langmap(tbl, kind, &b.props[pi].value_type, m) {
            Err(e) => Err(e),
            Ok(newmap) => {
                let acc = accs.remove(pi);
                match merge_container_acc(kind, &b.props[pi].name, acc, newmap) {
                    Err(e) => Err(e),
                    Ok(na) => {
                        accs.insert(pi, na);
                        proof {
                            assert(accs_view(accs@) =~= accs0.update(pi as int, acc_view(na)));
                        }
                        Ok(())
                    },
                }
            },
        }
        },
        _ => Err(DecodeError::UnexpectedShape(String::from_str("object"))),
    }
}

/// Applies one wire entry to the scan state, as `spec_apply_entry`
/// describes: unrecognized keys are ignored.
fn apply_wire_entry(
    tbl: &BindingTable,
    b: &TypeBinding,
    accs: &mut Vec<FieldAcc>,
    key: &String,
    v: &Json,
) -> (r: Result<(), DecodeError>)
    requires
        old(accs)@.len() == b.props@.len(),
    ensures
        match r {
            Ok(_) => spec_apply_entry(tbl@, b@.props, accs_view(old(accs)@), key@, v@) == Ok::<
                Seq<FieldAccView>,
                DecodeErrorView,
            >(accs_view(final(accs)@)) && final(accs)@.len() == old(accs)@.len(),
            Err(e) => spec_apply_entry(tbl@, b@.props, accs_view(old(accs)@), key@, v@) == Err::<
                Seq<FieldAccView>,
                DecodeErrorView,
            >(e@),
        },
    decreases height(v@), 11nat, 0nat, 0nat,
{
    match key_lookup(&b.props, key) {
        None => Ok(()),
        Some((pi, half)) => {
            if !half {
                apply_default_entry(tbl, b, accs, pi, key, v)
            } else {
                apply_container_entry(tbl, b, accs, pi, key, v)
            }
        },
    }
}

/// Unites two language maps, later writes winning, as `vextended`
/// describes.
fn extend_langmap(
    base: Vec<(String, crate::values::Slot)>,
    add: Vec<(String, crate::values::Slot)>,
) -> (r: Vec<(String, crate::values::Slot)>)
    ensures
        crate::values::lang_view(r@) == vextended(
            crate::values::lang_view(base@),
            crate::values::lang_view(add@),
        ),
{
    let ghost basev = crate::values::lang_view(base@);
    let ghost all = crate::values::lang_view(add@);
    let mut out = base;
    let mut rest = add;
    while rest.len() > 0
        invariant
            vextended(basev, all) == vextended(
                crate::values::lang_view(out@),
                crate::values::lang_view(rest@),
            ),
        decreases rest@.len(),
    {
        let ghost rest_full = crate::values::lang_view(rest@);
        let ghost rest0 = rest@;
        let kv = rest.remove(0);
        proof {
            crate::values::lemma_lang_view(rest@);
            crate::values::lemma_lang_view(rest0);
            assert(crate::values::lang_view(rest@) =~= rest_full.drop_first());
            assert(rest_full[0] == (kv.0@, crate::values::slot_view(kv.1)));
            crate::keymap::lemma_vextended_shift(
                crate::values::lang_view(out@),
                rest_full,
            );
        }
        upsert_slot(&mut out, kv.0, kv.1);
    }
    proof {
        assert(crate::values::lang_view(rest@) =~= Seq::<(Seq<char>, SlotView)>::empty());
    }
    out
}

/// Builds the fields from the finished scan state, as `spec_finish`
/// describes: required properties must have arrived.
#[verifier::rlimit(100)]
fn finish_fields(b: &TypeBinding, accs: Vec<FieldAcc>) -> (r: Result<
    Vec<crate::values::FieldValue>,
    DecodeError,
>)
    requires
        accs@.len() == b.props@.len(),
    ensures
        match r {
            Ok(fields) => spec_finish(
                b@.props,
                accs_view(accs@),
                b@.props.len() as int,
            ) == Ok::<Seq<FieldView>, DecodeErrorView>(crate::values::fields_view(fields@)),
            Err(e) => spec_finish(b@.props, accs_view(accs@), b@.props.len() as int) == Err::<
                Seq<FieldView>,
                DecodeErrorView,
            >(e@),
        },
{
    let ghost pv = b@.props;
    let ghost accsv = accs_view(accs@);
    let mut fields: Vec<crate::values::FieldValue> = Vec::new();
    let mut rest = accs;
    let ghost mut done: int = 0;
    proof {
        assert(spec_finish(pv, accsv, 0) == Ok::<Seq<FieldView>, DecodeErrorView>(
            crate::values::fields_view(fields@),
        )) by {
            assert(crate::values::fields_view(fields@) =~= Seq::<FieldView>::empty());
        }
    }
    while rest.len() > 0
        invariant
            0 <= done,
            done + rest@.len() == pv.len(),
            pv == b@.props,
            pv.len() == b.props@.len(),
            accsv.len() == pv.len(),
            accsv == accs_view(accs@),
            accs_view(rest@) =~= accsv.skip(done),
            spec_finish(pv, accsv, done) == Ok::<Seq<FieldView>, DecodeErrorView>(
                crate::values::fields_view(fields@),
            ),
        decreases rest@.len(),
    {
        let ghost rest_full = accs_view(rest@);
        let acc = rest.remove(0);
        proof {
            assert(accs_view(rest@) =~= rest_full.drop_first());
            assert(rest_full[0] == acc_view(acc));
            assert(rest_full[0] == accsv[done]);
            assert(accs_view(rest@) =~= accsv.skip(done + 1));
            assert(pv[done] == crate::bindings::resolved_property_view(b.props@[done]));
        }
        let pi = b.props.len() - rest.len() - 1;
        proof {
            assert(pi as int == done);
        }
        let prop = &b.props[pi];
        let kind = prop.kind;
        let ghost before = crate::values::fields_view(fields@);
        match &prop.container {
            None => match kind {
                PropertyKind::Required => match acc.default {
                    Some(sl) => {
                        let ghost f0 = fields@;
                        fields.push(crate::values::FieldValue::Simple(sl));
                        proof {
                            crate::values::lemma_fields_view(fields@);
                            crate::values::lemma_fields_view(f0);
                            assert(crate::values::fields_view(fields@) =~= before.push(
                                spec_finish(pv, accsv, done + 1)->Ok_0.last(),
                            ));
                        }
                    },
                    None => {
                        proof {
                            assert(spec_finish(pv, accsv, done + 1)
                                == Err::<Seq<FieldView>, DecodeErrorView>(
                                DecodeErrorView::MissingRequiredField(pv[done].name),
                            ));
                            lemma_finish_err(pv, accsv, done + 1, pv.len() as int);
                        }
                        return Err(DecodeError::MissingRequiredField(prop.name.clone()));
                    },
                },
                _ => {
                    let sl = match acc.default {
                        Some(sl) => sl,
                        None => make_empty_slot(kind),
                    };
                    let ghost f0 = fields@;
                    fields.push(crate::values::FieldValue::Simple(sl));
                    proof {
                        crate::values::lemma_fields_view(fields@);
                        crate::values::lemma_fields_view(f0);
                        assert(crate::values::fields_view(fields@) =~= before.push(
                            spec_finish(pv, accsv, done + 1)->Ok_0.last(),
                        ));
                    }
                },
            },
            Some(_) => {
                let map_empty = match &acc.container {
                    Some(m) => {
                        proof {
                            crate::values::lemma_lang_view(m@);
                        }
                        m.len() == 0
                    },
                    None => true,
                };
                if kind == PropertyKind::Required && acc.default.is_none() && map_empty {
                    proof {
                        assert(spec_finish(pv, accsv, done + 1)
                            == Err::<Seq<FieldView>, DecodeErrorView>(
                            DecodeErrorView::MissingRequiredField(pv[done].name),
                        ));
                        lemma_finish_err(pv, accsv, done + 1, pv.len() as int);
                    }
                    return Err(DecodeError::MissingRequiredField(prop.name.clone()));
                }
                let dflt = match acc.default {
                    Some(sl) => sl,
                    None => make_empty_slot(kind),
                };
                let map = match acc.container {
                    Some(m) => m,
                    None => Vec::new(),
                };
                proof {
                    if acc_view(acc).container is None {
                        assert(crate::values::lang_view(map@) =~= Seq::<
                            (Seq<char>, SlotView),
                        >::empty());
                    }
                }
                let ghost f0 = fields@;
                fields.push(
                    crate::values::FieldValue::Lang(
                        crate::values::LangValue { default: dflt, per_lang: map },
                    ),
                );
                proof {
                    crate::values::lemma_fields_view(fields@);
                    crate::values::lemma_fields_view(f0);
                    assert(crate::values::fields_view(fields@) =~= before.push(
                        spec_finish(pv, accsv, done + 1)->Ok_0.last(),
                    ));
                }
            },
        }
        proof {
            done = done + 1;
        }
    }
    proof {
        assert(done == pv.len());
    }
    Ok(fields)
}

/// Decodes a document object against one concrete binding, as
/// `spec_decode_concrete` describes: one scan over the entries, then the
/// required-field check.
fn decode_concrete(
    tbl: &BindingTable,
    b: &TypeBinding,
    entries: &Vec<(String, Json)>,
) -> (r: Result<crate::values::ObjectValue, DecodeError>)
    ensures
        match r {
            Ok(o) => spec_decode_concrete(tbl@, b@, obj_view(entries@)) == Ok::<
                ObjectView,
                DecodeErrorView,
            >(o@),
            Err(e) => spec_decode_concrete(tbl@, b@, obj_view(entries@)) == Err::<
                ObjectView,
                DecodeErrorView,
            >(e@),
        },
    decreases height(JsonView::Obj(obj_view(entries@))), 0nat, 1nat, 0nat,
{
    let ghost ev = obj_view(entries@);
    let ghost pv = b@.props;
    let nprops = b.props.len();
    let mut accs: Vec<FieldAcc> = Vec::new();
    let mut t: usize = 0;
    while t < nprops
        invariant
            t <= nprops,
            accs@.len() == t,
            forall|j: int| 0 <= j < t ==> accs@[j] == (FieldAcc {
                default: None::<crate::values::Slot>,
                container: None::<Vec<(String, crate::values::Slot)>>,
            }),
        decreases nprops - t,
    {
        accs.push(FieldAcc { default: None, container: None });
        t = t + 1;
    }
    proof {
        lemma_obj_view(entries@);
        assert(accs_view(accs@) =~= empty_accs(pv.len() as nat));
    }
    let mut i: usize = 0;
    while i < entries.len()
        invariant
            i <= ev.len(),
            ev == obj_view(entries@),
            ev.len() == entries@.len(),
            pv == b@.props,
            pv.len() == b.props@.len(),
            accs@.len() == pv.len(),
            spec_scan(tbl@, pv, ev, i as int) == Ok::<
                Seq<FieldAccView>,
                DecodeErrorView,
            >(accs_view(accs@)),
        decreases ev.len() - i,
    {
        proof {
            lemma_obj_view(entries@);
            lemma_obj_height(ev, i as int);
            assert(ev[i as int] == (entries@[i as int].0@, json_view(entries@[i as int].1)));
            assert(height(entries@[i as int].1@) < height(JsonView::Obj(ev)));
        }
        let key = &entries[i].0;
        let v = &entries[i].1;
        match apply_wire_entry(tbl, b, &mut accs, key, v) {
            Ok(_) => {},
            Err(e) => {
                proof {
                    lemma_scan_err(tbl@, pv, ev, i as int + 1);
                }
                return Err(e);
            },
        }
        i = i + 1;
    }
    match finish_fields(b, accs) {
        Ok(fields) => {
            let o = crate::values::ObjectValue { name: b.name.clone(), fields };
            proof {
                assert(o@ =~= spec_decode_concrete(tbl@, b@, ev)->Ok_0);
            }
            Ok(o)
        },
        Err(e) => Err(e),
    }
}

} // verus!

verus! {

/// Decodes a document against a base type with subtype dispatch, as
/// `spec_decode_poly` describes: the last `"type"` entry picks the
/// subtype; absent or unrecognized discriminants fall back to the base.
pub fn decode_poly(tbl: &BindingTable, base: &String, j: &Json) -> (r: Result<
    crate::values::ObjectValue,
    DecodeError,
>)
    ensures
        match r {
            Ok(o) => spec_decode_poly(tbl@, base@, j@) == Ok::<ObjectView, DecodeErrorView>(o@),
            Err(e) => spec_decode_poly(tbl@, base@, j@) == Err::<ObjectView, DecodeErrorView>(
                e@,
            ),
        },
    decreases height(j@), 2nat, 0nat, 0nat,
{
    broadcast use lemma_obj_view, lemma_arr_view;

    let entries = match j {
        Json::Obj(entries) => entries,
        _ => {
            return Err(DecodeError::UnexpectedShape(String::from_str("object")));
        },
    };
    let ghost ev = obj_view(entries@);
    proof {
        lemma_obj_view(entries@);
    }
    // The last `"type"` entry decides the discriminant.
    let type_key = String::from_str("type");
    let mut tag_idx: Option<usize> = None;
    let mut i: usize = 0;
    while i < entries.len()
        invariant
            i <= ev.len(),
            ev == obj_view(entries@),
            ev.len() == entries@.len(),
            type_key@ == "type"@,
            match tag_idx {
                Some(t) => t < i && spec_tag_value(ev, "type"@, i as int) == Some(
                    ev[t as int].1,
                ),
                None => spec_tag_value(ev, "type"@, i as int) is None,
            },
        decreases ev.len() - i,
    {
        proof {
            lemma_obj_view(entries@);
            assert(ev[i as int] == (entries@[i as int].0@, json_view(entries@[i as int].1)));
        }
        if entries[i].0.eq(&type_key) {
            tag_idx = Some(i);
        }
        i = i + 1;
    }
    let ghost tv = spec_tag_value(ev, "type"@, ev.len() as int);
    // The base type's subtype set.
    let empty_subs: Vec<String> = Vec::new();
    let base_binding = crate::bindings::find_binding(tbl, base);
    let subs = match &base_binding {
        Some(b) => &b.subtypes,
        None => &empty_subs,
    };
    let ghost subsv = match binding_index(tbl@, base@) {
        Some(bi) => tbl@[bi].subtypes,
        None => Seq::<Seq<char>>::empty(),
    };
    proof {
        assert(crate::error::strs_view(subs@) =~= subsv);
    }
    // Resolve the discriminant.
    let resolved: Option<&String> = match tag_idx {
        None => None,
        Some(t) => match &entries[t].1 {
            Json::Str(s) => {
                if crate::resolve::contains_str(subs, s) {
                    Some(s)
                } else {
                    None
                }
            },
            Json::Arr(items) => {
                let ghost itemsv = arr_view(items@);
                let mut e: usize = 0;
                let mut found: Option<&String> = None;
                while e < items.len()
                    invariant
                        e <= itemsv.len(),
                        itemsv == arr_view(items@),
                        itemsv.len() == items@.len(),
                        subsv == crate::error::strs_view(subs@),
                        match found {
                            Some(s) => spec_first_label(subsv, itemsv, 0) == Some(s@),
                            None => spec_first_label(subsv, itemsv, 0) == spec_first_label(
                                subsv,
                                itemsv,
                                e as int,
                            ),
                        },
                    decreases itemsv.len() - e,
                {
                    if found.is_none() {
                        proof {
                            lemma_arr_view(items@);
                            assert(itemsv[e as int] == json_view(items@[e as int]));
                        }
                        match &items[e] {
                            Json::Str(s) => {
                                if crate::resolve::contains_str(subs, s) {
                                    found = Some(s);
                                }
                            },
                            _ => {},
                        }
                    }
                    e = e + 1;
                }
                proof {
                    if found is None {
                        assert(spec_first_label(subsv, itemsv, itemsv.len() as int) is None);
                    }
                }
                found
            },
            _ => None,
        },
    };
    proof {
        match resolved {
            Some(s) => {
                assert(spec_resolve_tag(subsv, tv) == Some(s@));
            },
            None => {
                assert(spec_resolve_tag(subsv, tv) is None);
            },
        }
    }
    if let Some(cn) = resolved {
        match crate::bindings::find_binding(tbl, cn) {
            Some(cb) => {
                return decode_concrete(tbl, cb, entries);
            },
            None => {},
        }
    }
    // The fallback: the base type itself.
    let tag_text: String = match tag_idx {
        Some(t) => match &entries[t].1 {
            Json::Str(s) => s.clone(),
            _ => String::new(),
        },
        None => String::new(),
    };
    proof {
        assert(tag_text@ == spec_tag_text(tv));
    }
    match &base_binding {
        Some(bb) => match decode_concrete(tbl, bb, entries) {
            Ok(o) => Ok(o),
            Err(_) => Err(
                DecodeError::UnknownDiscriminant(tag_text, crate::resolve::clone_strs_pub(subs)),
            ),
        },
        None => Err(
            DecodeError::UnknownDiscriminant(tag_text, crate::resolve::clone_strs_pub(subs)),
        ),
    }
}

/// What a document decodes to against the one named type, with no
/// subtype dispatch: the concrete binding's own verdict, faults included.
pub open spec fn spec_decode_exact(tbl: TableView, name: Seq<char>, j: JsonView) -> Result<
    ObjectView,
    DecodeErrorView,
> {
    match j {
        JsonView::Obj(entries) => match binding_index(tbl, name) {
            Some(bi) => spec_decode_concrete(tbl, tbl[bi], entries),
            None => Err(DecodeErrorView::UnknownDiscriminant(name, Seq::empty())),
        },
        _ => Err(DecodeErrorView::UnexpectedShape("object"@)),
    }
}

/// Decodes one document against the one named type directly, without
/// subtype dispatch, as `spec_decode_exact` describes.  Unlike the
/// dispatching `decode`, this surfaces the type's own faults — a missing
/// required field, a duplicated key — unwrapped.
pub fn decode_exact(tbl: &BindingTable, name: &String, j: &Json) -> (r: Result<
    crate::values::ObjectValue,
    DecodeError,
>)
    ensures
        match r {
            Ok(o) => spec_decode_exact(tbl@, name@, j@) == Ok::<ObjectView, DecodeErrorView>(
                o@,
            ),
            Err(e) => spec_decode_exact(tbl@, name@, j@) == Err::<ObjectView, DecodeErrorView>(
                e@,
            ),
        },
{
    let entries = match j {
        Json::Obj(entries) => entries,
        _ => {
            return Err(DecodeError::UnexpectedShape(String::from_str("object")));
        },
    };
    match crate::bindings::find_binding(tbl, name) {
        Some(b) => decode_concrete(tbl, b, entries),
        None => {
            let empty: Vec<String> = Vec::new();
            proof {
                assert(crate::error::strs_view(empty@) =~= Seq::<Seq<char>>::empty());
            }
            Err(DecodeError::UnknownDiscriminant(name.clone(), empty))
        },
    }
}

/// Decodes one document against the named base type.  This is the
/// library boundary spoken of per generated type: one call per document.
pub fn decode(tbl: &BindingTable, name: &String, j: &Json) -> (r: Result<
    crate::values::ObjectValue,
    DecodeError,
>)
    ensures
        match r {
            Ok(o) => spec_decode_poly(tbl@, name@, j@) == Ok::<
                ObjectView,
                DecodeErrorView,
            >(o@),
            Err(e) => spec_decode_poly(tbl@, name@, j@) == Err::<
                ObjectView,
                DecodeErrorView,
            >(e@),
        },
{
    decode_poly(tbl, name, j)
}

} // verus!

verus! {

/// What one value encodes to.  Encoding never fails: a value a decode
/// produced always renders, and shapes follow cardinality — omitted when
/// empty, bare when single, an array when plural.
pub open spec fn spec_encode_value(tbl: TableView, v: ValueView) -> JsonView
    decreases crate::values::vheight(v), 2nat, 0nat,
{
    match v {
        ValueView::Json(j) => j,
        ValueView::Text(s) => JsonView::Str(s),
        ValueView::Flag(b) => JsonView::Bool(b),
        ValueView::Number(n) => JsonView::Int(n),
        ValueView::Id(s) => JsonView::Str(s),
        ValueView::Stamp(dt) => JsonView::Str(crate::xsd::spec_format_datetime(dt)),
        ValueView::Span(d) => JsonView::Str(crate::xsd::spec_format_duration(d)),
        ValueView::Ref(s) => JsonView::Str(s),
        ValueView::Inline(b) => spec_encode_value(tbl, *b),
        ValueView::Prim(b) => spec_encode_value(tbl, *b),
        ValueView::Snd(b) => spec_encode_value(tbl, *b),
        ValueView::Object(o) => JsonView::Obj(spec_encode_object(tbl, o)),
    }
}

/// What an object encodes to: its `"type"` discriminant first, then each
/// field's entries in binding order.  A value whose type the table does
/// not know, or whose field count disagrees, keeps only the discriminant.
pub open spec fn spec_encode_object(tbl: TableView, o: ObjectView) -> Seq<(Seq<char>, JsonView)>
    decreases crate::values::vheight(ValueView::Object(o)), 1nat, 0nat,
{
    seq![("type"@, JsonView::Str(o.name))] + (match binding_index(tbl, o.name) {
        Some(bi) => if tbl[bi].props.len() == o.fields.len() {
            spec_encode_fields(tbl, tbl[bi].props, o.fields, o.fields.len() as int)
        } else {
            Seq::empty()
        },
        None => Seq::empty(),
    })
}

/// The entries of the first `i` fields.
pub open spec fn spec_encode_fields(
    tbl: TableView,
    props: Seq<ResolvedPropertyView>,
    fields: Seq<FieldView>,
    i: int,
) -> Seq<(Seq<char>, JsonView)>
    decreases crate::values::vheight(
        ValueView::Object(ObjectView { name: Seq::empty(), fields }),
    ), 0nat, i,
    when 0 <= i <= fields.len() && props.len() == fields.len()
    via spec_encode_fields_dec
{
    if i <= 0 {
        Seq::empty()
    } else {
        spec_encode_fields(tbl, props, fields, i - 1) + spec_field_entries(
            tbl,
            props[i - 1],
            fields[i - 1],
        )
    }
}

#[via_fn]
proof fn spec_encode_fields_dec(
    tbl: TableView,
    props: Seq<ResolvedPropertyView>,
    fields: Seq<FieldView>,
    i: int,
) {
    if i > 0 {
        crate::values::lemma_vfields_height(fields, i - 1);
    }
}

/// The entries of one field: the language-neutral half under the
/// canonical tag, and for a language container a nonempty map under the
/// container tag.
pub open spec fn spec_field_entries(
    tbl: TableView,
    p: ResolvedPropertyView,
    f: FieldView,
) -> Seq<(Seq<char>, JsonView)>
    decreases crate::values::vfield_height(f), 2nat, 0nat,
{
    match f {
        FieldView::Simple(sl) => spec_half_entries(tbl, p.tag, sl),
        FieldView::Lang(lv) => spec_half_entries(tbl, p.tag, lv.default) + (if lv.per_lang.len()
            == 0 {
            Seq::empty()
        } else {
            seq![
                (
                    match p.container {
                        Some(c) => c.tag,
                        None => p.tag,
                    },
                    JsonView::Obj(spec_lang_entries(tbl, lv.per_lang, lv.per_lang.len() as int)),
                ),
            ]
        }),
    }
}

/// The entries of one half under its tag: none when empty, a bare value
/// when single, an array when plural.
pub open spec fn spec_half_entries(tbl: TableView, tag: Seq<char>, sl: SlotView) -> Seq<
    (Seq<char>, JsonView),
>
    decreases crate::values::vslot_height(sl), 1nat, 0nat,
{
    match sl {
        SlotView::Opt(o) => match o {
            None => Seq::empty(),
            Some(v) => seq![(tag, spec_encode_value(tbl, v))],
        },
        SlotView::Many(vs) => if vs.len() == 0 {
            Seq::empty()
        } else if vs.len() == 1 {
            seq![(tag, spec_encode_value(tbl, vs[0]))]
        } else {
            seq![(tag, JsonView::Arr(spec_encode_list(tbl, vs, vs.len() as int)))]
        },
    }
}

/// The first `i` values of a list, encoded.
pub open spec fn spec_encode_list(tbl: TableView, vs: Seq<ValueView>, i: int) -> Seq<JsonView>
    decreases crate::values::vvalues_height(vs) + 1, 0nat, i,
    when 0 <= i <= vs.len()
    via spec_encode_list_dec
{
    if i <= 0 {
        Seq::empty()
    } else {
        spec_encode_list(tbl, vs, i - 1).push(spec_encode_value(tbl, vs[i - 1]))
    }
}

#[via_fn]
proof fn spec_encode_list_dec(tbl: TableView, vs: Seq<ValueView>, i: int) {
    if i > 0 {
        crate::values::lemma_vvalues_height(vs, i - 1);
    }
}

/// A language map value: `null` when empty, bare when single, an array
/// when plural.
pub open spec fn spec_lang_slot(tbl: TableView, sl: SlotView) -> JsonView
    decreases crate::values::vslot_height(sl), 1nat, 0nat,
{
    match sl {
        SlotView::Opt(o) => match o {
            None => JsonView::Null,
            Some(v) => spec_encode_value(tbl, v),
        },
        SlotView::Many(vs) => if vs.len() == 0 {
            JsonView::Null
        } else if vs.len() == 1 {
            spec_encode_value(tbl, vs[0])
        } else {
            JsonView::Arr(spec_encode_list(tbl, vs, vs.len() as int))
        },
    }
}

/// The first `i` languages of a map, encoded.
pub open spec fn spec_lang_entries(
    tbl: TableView,
    m: Seq<(Seq<char>, SlotView)>,
    i: int,
) -> Seq<(Seq<char>, JsonView)>
    decreases crate::values::vlang_height(m) + 1, 0nat, i,
    when 0 <= i <= m.len()
    via spec_lang_entries_dec
{
    if i <= 0 {
        Seq::empty()
    } else {
        spec_lang_entries(tbl, m, i - 1).push((m[i - 1].0, spec_lang_slot(tbl, m[i - 1].1)))
    }
}

#[via_fn]
proof fn spec_lang_entries_dec(tbl: TableView, m: Seq<(Seq<char>, SlotView)>, i: int) {
    if i > 0 {
        crate::values::lemma_vlang_height(m, i - 1);
    }
}

} // verus!

verus! {

/// Encodes the values of a list, as `spec_encode_list` describes.
fn encode_list(tbl: &BindingTable, vs: &Vec<crate::values::Value>) -> (r: Vec<Json>)
    ensures
        arr_view(r@) == spec_encode_list(
            tbl@,
            crate::values::values_view(vs@),
            vs@.len() as int,
        ),
    decreases crate::values::vvalues_height(crate::values::values_view(vs@)) + 1, 0nat, 0nat,
{
    let ghost vsv = crate::values::values_view(vs@);
    let mut out: Vec<Json> = Vec::new();
    let mut i: usize = 0;
    proof {
        crate::values::lemma_values_view(vs@);
        assert(arr_view(out@) =~= Seq::<JsonView>::empty());
    }
    while i < vs.len()
        invariant
            i <= vsv.len(),
            vsv == crate::values::values_view(vs@),
            vsv.len() == vs@.len(),
            arr_view(out@) == spec_encode_list(tbl@, vsv, i as int),
        decreases vsv.len() - i,
    {
        proof {
            crate::values::lemma_values_view(vs@);
            crate::values::lemma_vvalues_height(vsv, i as int);
            assert(vsv[i as int] == crate::values::value_view(vs@[i as int]));
        }
        let ghost out0 = out@;
        let j = encode_value(tbl, &vs[i]);
        out.push(j);
        proof {
            lemma_arr_view(out@);
            lemma_arr_view(out0);
            assert(arr_view(out@) =~= spec_encode_list(tbl@, vsv, i as int).push(
                spec_encode_value(tbl@, vsv[i as int]),
            ));
        }
        i = i + 1;
    }
    out
}

/// Encodes one language map value, as `spec_lang_slot` describes.
fn encode_lang_slot(tbl: &BindingTable, sl: &crate::values::Slot) -> (r: Json)
    ensures
        r@ == spec_lang_slot(tbl@, crate::values::slot_view(*sl)),
    decreases crate::values::vslot_height(crate::values::slot_view(*sl)), 1nat, 0nat,
{
    match sl {
        crate::values::Slot::Opt(o) => match o {
            None => Json::Null,
            Some(v) => encode_value(tbl, v),
        },
        crate::values::Slot::Many(vs) => {
            proof {
                crate::values::lemma_values_view(vs@);
            }
            if vs.len() == 0 {
                Json::Null
            } else if vs.len() == 1 {
                proof {
                    crate::values::lemma_vvalues_height(
                        crate::values::values_view(vs@),
                        0,
                    );
                }
                encode_value(tbl, &vs[0])
            } else {
                Json::Arr(encode_list(tbl, vs))
            }
        },
    }
}

/// Encodes the languages of a map, as `spec_lang_entries` describes.
fn encode_lang_entries(tbl: &BindingTable, m: &Vec<(String, crate::values::Slot)>) -> (r: Vec<
    (String, Json),
>)
    ensures
        obj_view(r@) == spec_lang_entries(
            tbl@,
            crate::values::lang_view(m@),
            m@.len() as int,
        ),
    decreases crate::values::vlang_height(crate::values::lang_view(m@)) + 1, 0nat, 0nat,
{
    let ghost mv = crate::values::lang_view(m@);
    let mut out: Vec<(String, Json)> = Vec::new();
    let mut i: usize = 0;
    proof {
        crate::values::lemma_lang_view(m@);
        assert(obj_view(out@) =~= Seq::<(Seq<char>, JsonView)>::empty());
    }
    while i < m.len()
        invariant
            i <= mv.len(),
            mv == crate::values::lang_view(m@),
            mv.len() == m@.len(),
            obj_view(out@) == spec_lang_entries(tbl@, mv, i as int),
        decreases mv.len() - i,
    {
        proof {
            crate::values::lemma_lang_view(m@);
            crate::values::lemma_vlang_height(mv, i as int);
            assert(mv[i as int] == (m@[i as int].0@, crate::values::slot_view(m@[i as int].1)));
        }
        let ghost out0 = out@;
        let key = m[i].0.clone();
        let j = encode_lang_slot(tbl, &m[i].1);
        out.push((key, j));
        proof {
            lemma_obj_view(out@);
            lemma_obj_view(out0);
            assert(obj_view(out@) =~= spec_lang_entries(tbl@, mv, i as int).push(
                (mv[i as int].0, spec_lang_slot(tbl@, mv[i as int].1)),
            ));
        }
        i = i + 1;
    }
    out
}

/// Encodes one half under its tag, as `spec_half_entries` describes.
fn encode_half_entries(tbl: &BindingTable, tag: &String, sl: &crate::values::Slot) -> (r: Vec<
    (String, Json),
>)
    ensures
        obj_view(r@) == spec_half_entries(tbl@, tag@, crate::values::slot_view(*sl)),
    decreases crate::values::vslot_height(crate::values::slot_view(*sl)), 2nat, 0nat,
{
    let mut out: Vec<(String, Json)> = Vec::new();
    match sl {
        crate::values::Slot::Opt(o) => match o {
            None => {
                proof {
                    assert(obj_view(out@) =~= Seq::<(Seq<char>, JsonView)>::empty());
                }
            },
            Some(v) => {
                let j = encode_value(tbl, v);
                out.push((tag.clone(), j));
                proof {
                    lemma_obj_view(out@);
                    assert(obj_view(out@) =~= seq![
                        (tag@, spec_encode_value(tbl@, crate::values::value_view(*v))),
                    ]);
                }
            },
        },
        crate::values::Slot::Many(vs) => {
            proof {
                crate::values::lemma_values_view(vs@);
            }
            if vs.len() == 0 {
                proof {
                    assert(obj_view(out@) =~= Seq::<(Seq<char>, JsonView)>::empty());
                }
            } else if vs.len() == 1 {
                proof {
                    crate::values::lemma_vvalues_height(
                        crate::values::values_view(vs@),
                        0,
                    );
                }
                let j = encode_value(tbl, &vs[0]);
                out.push((tag.clone(), j));
                proof {
                    lemma_obj_view(out@);
                    assert(obj_view(out@) =~= seq![
                        (
                            tag@,
                            spec_encode_value(
                                tbl@,
                                crate::values::values_view(vs@)[0],
                            ),
                        ),
                    ]);
                }
            } else {
                let j = Json::Arr(encode_list(tbl, vs));
                out.push((tag.clone(), j));
                proof {
                    lemma_obj_view(out@);
                    assert(obj_view(out@) =~= seq![
                        (
                            tag@,
                            JsonView::Arr(
                                spec_encode_list(
                                    tbl@,
                                    crate::values::values_view(vs@),
                                    vs@.len() as int,
                                ),
                            ),
                        ),
                    ]);
                }
            }
        },
    }
    out
}

/// Encodes one field, as `spec_field_entries` describes.
fn encode_field_entries(
    tbl: &BindingTable,
    p: &crate::bindings::ResolvedProperty,
    f: &crate::values::FieldValue,
) -> (r: Vec<(String, Json)>)
    ensures
        obj_view(r@) == spec_field_entries(tbl@, p@, crate::values::field_view(*f)),
    decreases crate::values::vfield_height(crate::values::field_view(*f)), 2nat, 0nat,
{
    match f {
        crate::values::FieldValue::Simple(sl) => {
            let r = encode_half_entries(tbl, &p.tag, sl);
            proof {
                assert(obj_view(r@) =~= spec_field_entries(
                    tbl@,
                    p@,
                    crate::values::field_view(*f),
                ));
            }
            r
        },
        crate::values::FieldValue::Lang(lv) => {
            let mut out = encode_half_entries(tbl, &p.tag, &lv.default);
            let ghost half0 = obj_view(out@);
            proof {
                crate::values::lemma_lang_view(lv.per_lang@);
            }
            if lv.per_lang.len() > 0 {
                let ctag = match &p.container {
                    Some(c) => c.tag.clone(),
                    None => p.tag.clone(),
                };
                let m = encode_lang_entries(tbl, &lv.per_lang);
                let ghost out0 = out@;
                out.push((ctag, Json::Obj(m)));
                proof {
                    lemma_obj_view(out@);
                    lemma_obj_view(out0);
                    assert(obj_view(out@) =~= spec_field_entries(
                        tbl@,
                        p@,
                        crate::values::field_view(*f),
                    ));
                }
            } else {
                proof {
                    assert(obj_view(out@) =~= half0 + Seq::<(Seq<char>, JsonView)>::empty());
                    assert(obj_view(out@) =~= spec_field_entries(
                        tbl@,
                        p@,
                        crate::values::field_view(*f),
                    ));
                }
            }
            out
        },
    }
}

/// Encodes an object's wire entries, as `spec_encode_object` describes.
fn encode_object_entries(tbl: &BindingTable, o: &crate::values::ObjectValue) -> (r: Vec<
    (String, Json),
>)
    ensures
        obj_view(r@) == spec_encode_object(tbl@, o@),
    decreases crate::values::vheight(ValueView::Object(o@)), 1nat, 0nat,
{
    broadcast use crate::values::lemma_fields_view;

    let mut out: Vec<(String, Json)> = Vec::new();
    out.push((String::from_str("type"), Json::Str(o.name.clone())));
    let ghost head = obj_view(out@);
    proof {
        lemma_obj_view(out@);
        assert(head =~= seq![("type"@, JsonView::Str(o.name@))]);
    }
    let binding = crate::bindings::find_binding(tbl, &o.name);
    match binding {
        Some(b) => {
            if b.props.len() == o.fields.len() {
                let ghost pv = b@.props;
                let ghost fv = crate::values::fields_view(o.fields@);
                let mut i: usize = 0;
                proof {
                    crate::values::lemma_fields_view(o.fields@);
                    assert(obj_view(out@) =~= head + spec_encode_fields(tbl@, pv, fv, 0));
                }
                while i < o.fields.len()
                    invariant
                        i <= fv.len(),
                        pv == b@.props,
                        pv.len() == b.props@.len(),
                        fv == crate::values::fields_view(o.fields@),
                        fv.len() == o.fields@.len(),
                        pv.len() == fv.len(),
                        obj_view(out@) == head + spec_encode_fields(tbl@, pv, fv, i as int),
                    decreases fv.len() - i,
                {
                    proof {
                        crate::values::lemma_fields_view(o.fields@);
                        crate::values::lemma_vfields_height(fv, i as int);
                        assert(fv[i as int] == crate::values::field_view(o.fields@[i as int]));
                        assert(pv[i as int] == crate::bindings::resolved_property_view(
                            b.props@[i as int],
                        ));
                    }
                    let mut part = encode_field_entries(tbl, &b.props[i], &o.fields[i]);
                    let ghost out0 = out@;
                    let ghost part0 = part@;
                    out.append(&mut part);
                    proof {
                        lemma_obj_view(out@);
                        lemma_obj_view(out0);
                        lemma_obj_view(part0);
                        assert(obj_view(out@) =~= obj_view(out0) + obj_view(part0));
                        assert(obj_view(out@) =~= head + spec_encode_fields(
                            tbl@,
                            pv,
                            fv,
                            i as int + 1,
                        ));
                    }
                    i = i + 1;
                }
                proof {
                    assert(obj_view(out@) =~= spec_encode_object(tbl@, o@));
                }
            } else {
                proof {
                    assert(obj_view(out@) =~= spec_encode_object(tbl@, o@));
                }
            }
        },
        None => {
            proof {
                assert(obj_view(out@) =~= spec_encode_object(tbl@, o@));
            }
        },
    }
    out
}

/// Encodes one decoded value back to a document, as `spec_encode_value`
/// describes.  Encoding never fails.
pub fn encode_value(tbl: &BindingTable, v: &crate::values::Value) -> (r: Json)
    ensures
        r@ == spec_encode_value(tbl@, v@),
    decreases crate::values::vheight(v@), 2nat, 0nat,
{
    match v {
        crate::values::Value::Json(j) => j.duplicate(),
        crate::values::Value::Text(s) => Json::Str(s.clone()),
        crate::values::Value::Flag(b) => Json::Bool(*b),
        crate::values::Value::Number(n) => Json::Int(*n),
        crate::values::Value::Id(s) => Json::Str(s.clone()),
        crate::values::Value::Stamp(dt) => Json::Str(dt.to_text()),
        crate::values::Value::Span(d) => Json::Str(d.to_text()),
        crate::values::Value::Ref(s) => Json::Str(s.clone()),
        crate::values::Value::Inline(b) => encode_value(tbl, b),
        crate::values::Value::Prim(b) => encode_value(tbl, b),
        crate::values::Value::Snd(b) => encode_value(tbl, b),
        crate::values::Value::Object(o) => Json::Obj(encode_object_entries(tbl, o)),
    }
}

/// Encodes a decoded object back to a document object.
pub fn encode(tbl: &BindingTable, o: &crate::values::ObjectValue) -> (r: Json)
    ensures
        r@ == JsonView::Obj(spec_encode_object(tbl@, o@)),
{
    Json::Obj(encode_object_entries(tbl, o))
}

} // verus!

verus! {

/// The discriminant scanner: configured with the envelope's name and the
/// wire key that carries the discriminant, it walks a document object
/// once and hands back the last value under that key.
#[derive(Debug, PartialEq)]
pub struct TaggedContentVisitor {
    pub name: String,
    pub tag: String,
}

impl TaggedContentVisitor {
    /// A scanner for the named envelope and discriminant key.
    pub fn new(name: String, tag: String) -> (r: TaggedContentVisitor)
        ensures
            r.name == name,
            r.tag == tag,
    {
        TaggedContentVisitor { name, tag }
    }

    /// The value of the last entry under the discriminant key, if any.
    pub fn tag_value<'a>(&self, entries: &'a Vec<(String, Json)>) -> (r: Option<&'a Json>)
        ensures
            match r {
                Some(v) => spec_tag_value(
                    obj_view(entries@),
                    self.tag@,
                    entries@.len() as int,
                ) == Some(v@),
                None => spec_tag_value(
                    obj_view(entries@),
                    self.tag@,
                    entries@.len() as int,
                ) is None,
            },
    {
        let ghost ev = obj_view(entries@);
        proof {
            lemma_obj_view(entries@);
        }
        let mut hit: Option<usize> = None;
        let mut i: usize = 0;
        while i < entries.len()
            invariant
                i <= ev.len(),
                ev == obj_view(entries@),
                ev.len() == entries@.len(),
                match hit {
                    Some(t) => t < i && spec_tag_value(ev, self.tag@, i as int) == Some(
                        ev[t as int].1,
                    ),
                    None => spec_tag_value(ev, self.tag@, i as int) is None,
                },
            decreases ev.len() - i,
        {
            proof {
                lemma_obj_view(entries@);
                assert(ev[i as int] == (entries@[i as int].0@, json_view(entries@[i as int].1)));
            }
            if entries[i].0.eq(&self.tag) {
                hit = Some(i);
            }
            i = i + 1;
        }
        match hit {
            Some(t) => {
                proof {
                    lemma_obj_view(entries@);
                }
                Some(&entries[t].1)
            },
            None => None,
        }
    }
}

// ---------------------------------------------------------------------------
// Laws of the binding interpreter
// ---------------------------------------------------------------------------

/// Either-of precedence: a value the first side accepts always resolves
/// to the first side, whatever the second side would have said.
pub proof fn lemma_either_prefers_first(
    tbl: TableView,
    l: ValueTypeView,
    r: ValueTypeView,
    j: JsonView,
    v: ValueView,
)
    requires
        spec_decode_value(tbl, l, j) == Ok::<ValueView, DecodeErrorView>(v),
    ensures
        spec_decode_value(tbl, ValueTypeView::Either(Box::new(l), Box::new(r)), j) == Ok::<
            ValueView,
            DecodeErrorView,
        >(ValueView::Prim(Box::new(v))),
{
}

/// Reference-or-inline precedence: a value the target type accepts is
/// inlined, never read as a reference.
pub proof fn lemma_inline_wins(tbl: TableView, t: ValueTypeView, j: JsonView, v: ValueView)
    requires
        spec_decode_value(tbl, t, j) == Ok::<ValueView, DecodeErrorView>(v),
    ensures
        spec_decode_value(tbl, ValueTypeView::Remote(Box::new(t)), j) == Ok::<
            ValueView,
            DecodeErrorView,
        >(ValueView::Inline(Box::new(v))),
{
}

/// Reference fallback: a bare identifier string the target type refuses
/// becomes a reference, carrying the identifier itself.
pub proof fn lemma_reference_fallback(
    tbl: TableView,
    t: ValueTypeView,
    s: Seq<char>,
    u: Seq<char>,
)
    requires
        spec_decode_value(tbl, t, JsonView::Str(s)) is Err,
        crate::iri::url_normalized(s) == Some(u),
    ensures
        spec_decode_value(tbl, ValueTypeView::Remote(Box::new(t)), JsonView::Str(s)) == Ok::<
            ValueView,
            DecodeErrorView,
        >(ValueView::Ref(u)),
{
}

/// Alias equivalence: two wire keys that the binding routes to the same
/// property and half have the same effect on a scan, whatever the value.
pub proof fn lemma_alias_equivalence(
    tbl: TableView,
    props: Seq<ResolvedPropertyView>,
    accs: Seq<FieldAccView>,
    k1: Seq<char>,
    k2: Seq<char>,
    v: JsonView,
)
    requires
        accs.len() == props.len(),
        spec_key_lookup(props, k1) == spec_key_lookup(props, k2),
    ensures
        spec_apply_entry(tbl, props, accs, k1, v) == spec_apply_entry(tbl, props, accs, k2, v),
{
}

/// Cardinality shape: a normal property with no values is omitted, one
/// value is a bare scalar, two or more are an array.
pub proof fn lemma_cardinality_shape(tbl: TableView, tag: Seq<char>, vs: Seq<ValueView>)
    ensures
        vs.len() == 0 ==> spec_half_entries(tbl, tag, SlotView::Many(vs)) == Seq::<
            (Seq<char>, JsonView),
        >::empty(),
        vs.len() == 1 ==> spec_half_entries(tbl, tag, SlotView::Many(vs)) == seq![
            (tag, spec_encode_value(tbl, vs[0])),
        ],
        vs.len() >= 2 ==> spec_half_entries(tbl, tag, SlotView::Many(vs)) == seq![
            (tag, JsonView::Arr(spec_encode_list(tbl, vs, vs.len() as int))),
        ],
{
}

/// Polymorphic dispatch: a discriminant that resolves to a known subtype
/// decides, and the whole object is decoded against that subtype's own
/// binding.
pub proof fn lemma_dispatch_selects_subtype(
    tbl: TableView,
    base: Seq<char>,
    entries: Seq<(Seq<char>, JsonView)>,
    cn: Seq<char>,
    bi: int,
    ci: int,
)
    requires
        binding_index(tbl, base) == Some(bi),
        spec_resolve_tag(
            tbl[bi].subtypes,
            spec_tag_value(entries, "type"@, entries.len() as int),
        ) == Some(cn),
        binding_index(tbl, cn) == Some(ci),
    ensures
        spec_decode_poly(tbl, base, JsonView::Obj(entries)) == spec_decode_concrete(
            tbl,
            tbl[ci],
            entries,
        ),
{
}

/// Polymorphic fallback: with no discriminant at all, the object is
/// decoded against the base type itself; its success stands, and its
/// failure is reported as an unknown discriminant naming the expected
/// set.
pub proof fn lemma_dispatch_falls_back(
    tbl: TableView,
    base: Seq<char>,
    entries: Seq<(Seq<char>, JsonView)>,
    bi: int,
)
    requires
        binding_index(tbl, base) == Some(bi),
        spec_tag_value(entries, "type"@, entries.len() as int) is None,
    ensures
        spec_decode_poly(tbl, base, JsonView::Obj(entries)) == (match spec_decode_concrete(
            tbl,
            tbl[bi],
            entries,
        ) {
            Ok(o) => Ok::<ObjectView, DecodeErrorView>(o),
            Err(_) => Err::<ObjectView, DecodeErrorView>(
                DecodeErrorView::UnknownDiscriminant(Seq::empty(), tbl[bi].subtypes),
            ),
        }),
{
}

/// Which values a scalar type accepts back from its own rendering.
pub open spec fn scalar_conforms(vt: ValueTypeView, v: ValueView) -> bool {
    match (vt, v) {
        (ValueTypeView::Any, ValueView::Json(_)) => true,
        (ValueTypeView::Str, ValueView::Text(_)) => true,
        (ValueTypeView::Bool, ValueView::Flag(_)) => true,
        (ValueTypeView::Int, ValueView::Number(_)) => true,
        (ValueTypeView::Url, ValueView::Id(s)) => crate::iri::normalized_iri(s),
        (ValueTypeView::DateTime, ValueView::Stamp(dt)) => crate::xsd::datetime_wf(dt),
        (ValueTypeView::Duration, ValueView::Span(_)) => true,
        _ => false,
    }
}

/// Round trip at the scalars: every conforming scalar value decodes back
/// from its own rendering — identifiers through URL normalization,
/// date-times and durations through their grammars.
#[verifier::rlimit(100)]
pub proof fn lemma_scalar_round_trip(tbl: TableView, vt: ValueTypeView, v: ValueView)
    requires
        scalar_conforms(vt, v),
    ensures
        spec_decode_value(tbl, vt, spec_encode_value(tbl, v)) == Ok::<
            ValueView,
            DecodeErrorView,
        >(v),
{
    match v {
        ValueView::Json(j) => {
            assert(spec_encode_value(tbl, v) == j);
            assert(spec_decode_value(tbl, vt, j) == Ok::<ValueView, DecodeErrorView>(v));
        },
        ValueView::Text(t) => {
            assert(spec_encode_value(tbl, v) == JsonView::Str(t));
            assert(spec_decode_value(tbl, vt, JsonView::Str(t)) == Ok::<
                ValueView,
                DecodeErrorView,
            >(v));
        },
        ValueView::Flag(b) => {
            assert(spec_decode_value(tbl, vt, JsonView::Bool(b)) == Ok::<
                ValueView,
                DecodeErrorView,
            >(v));
        },
        ValueView::Number(n) => {
            assert(spec_decode_value(tbl, vt, JsonView::Int(n)) == Ok::<
                ValueView,
                DecodeErrorView,
            >(v));
        },
        ValueView::Id(s) => {
            assert(crate::iri::url_normalized(s) == Some(s));
            assert(spec_decode_value(tbl, vt, JsonView::Str(s)) == Ok::<
                ValueView,
                DecodeErrorView,
            >(v));
        },
        ValueView::Stamp(dt) => {
            crate::xsd::lemma_datetime_round_trip(dt);
            assert(spec_decode_value(
                tbl,
                vt,
                JsonView::Str(crate::xsd::spec_format_datetime(dt)),
            ) == Ok::<ValueView, DecodeErrorView>(v));
        },
        ValueView::Span(d) => {
            crate::xsd::lemma_duration_round_trip(d);
            assert(spec_decode_value(
                tbl,
                vt,
                JsonView::Str(crate::xsd::spec_format_duration(d)),
            ) == Ok::<ValueView, DecodeErrorView>(v));
        },
        _ => {
            assert(false);
        },
    }
}

} // verus!

verus! {

/// Position of the property with the given name, if any.
pub open spec fn prop_index_named(props: Seq<ResolvedPropertyView>, name: Seq<char>) -> Option<
    int,
>
    decreases props.len(),
{
    if props.len() == 0 {
        None
    } else if props[0].name == name {
        Some(0int)
    } else {
        match prop_index_named(props.drop_first(), name) {
            Some(i) => Some(i + 1),
            None => None,
        }
    }
}

/// `prop_index_named` is within bounds and finds its name.
proof fn lemma_prop_index_named(props: Seq<ResolvedPropertyView>, name: Seq<char>)
    ensures
        match prop_index_named(props, name) {
            Some(i) => 0 <= i < props.len() && props[i].name == name,
            None => forall|j: int| 0 <= j < props.len() ==> (#[trigger] props[j]).name != name,
        },
    decreases props.len(),
{
    if props.len() > 0 && props[0].name != name {
        lemma_prop_index_named(props.drop_first(), name);
        match prop_index_named(props.drop_first(), name) {
            Some(i) => {
                assert(props.drop_first()[i] == props[i + 1]);
            },
            None => {
                assert forall|j: int| 0 <= j < props.len() implies (#[trigger] props[j]).name
                    != name by {
                    if j > 0 {
                        assert(props.drop_first()[j - 1] == props[j]);
                    }
                }
            },
        }
    }
}

/// The first matching property is the one `prop_index_named` names.
proof fn lemma_prop_index_named_first(
    props: Seq<ResolvedPropertyView>,
    name: Seq<char>,
    f: int,
)
    requires
        0 <= f < props.len(),
        props[f].name == name,
        forall|j: int| 0 <= j < f ==> (#[trigger] props[j]).name != name,
    ensures
        prop_index_named(props, name) == Some(f),
    decreases f,
{
    if f > 0 {
        assert(props.drop_first()[f - 1] == props[f]);
        assert forall|j: int| 0 <= j < f - 1 implies (#[trigger] props.drop_first()[j]).name
            != name by {
            assert(props.drop_first()[j] == props[j + 1]);
        }
        lemma_prop_index_named_first(props.drop_first(), name, f - 1);
    }
}

/// The type-appropriate default of a target property whose name the
/// source lacks: the absent or empty slot of its cardinality.  A required
/// property defaults to the absent slot too, so the conversion stays
/// total; re-decoding such an object may then reject it as missing.
pub open spec fn spec_default_field(p: ResolvedPropertyView) -> FieldView {
    match p.container {
        None => FieldView::Simple(empty_slot(p.kind)),
        Some(_) => FieldView::Lang(
            crate::values::LangView { default: empty_slot(p.kind), per_lang: Seq::empty() },
        ),
    }
}

/// The fields of the first `i` target properties under an upcast: fields
/// the source shares by name move straight across, the rest default.
pub open spec fn spec_upcast_fields(
    sprops: Seq<ResolvedPropertyView>,
    sfields: Seq<FieldView>,
    tprops: Seq<ResolvedPropertyView>,
    i: int,
) -> Seq<FieldView>
    decreases i,
{
    if i <= 0 {
        Seq::empty()
    } else {
        let fields = spec_upcast_fields(sprops, sfields, tprops, i - 1);
        if !(0 <= i - 1 < tprops.len() && sprops.len() == sfields.len()) {
            fields
        } else {
            match prop_index_named(sprops, tprops[i - 1].name) {
                Some(pi) => if 0 <= pi < sfields.len() {
                    fields.push(sfields[pi])
                } else {
                    fields.push(spec_default_field(tprops[i - 1]))
                },
                None => fields.push(spec_default_field(tprops[i - 1])),
            }
        }
    }
}

/// What an upcast yields: the target type's object, its fields taken by
/// name from the source where the names coincide and every other field
/// set to its type-appropriate default — a total conversion.  Nothing
/// comes back only when a type is unknown to the table or the source
/// does not fit its own binding.
pub open spec fn spec_upcast(tbl: TableView, o: ObjectView, target: Seq<char>) -> Option<
    ObjectView,
> {
    match (binding_index(tbl, o.name), binding_index(tbl, target)) {
        (Some(si), Some(ti)) => {
            if tbl[si].props.len() != o.fields.len() {
                None
            } else {
                Some(
                    ObjectView {
                        name: target,
                        fields: spec_upcast_fields(
                            tbl[si].props,
                            o.fields,
                            tbl[ti].props,
                            tbl[ti].props.len() as int,
                        ),
                    },
                )
            }
        },
        _ => None,
    }
}

/// The property of the given name, if the binding has one.
fn find_prop_named(props: &Vec<crate::bindings::ResolvedProperty>, name: &String) -> (r: Option<
    usize,
>)
    ensures
        match r {
            Some(i) => i < props@.len() && prop_index_named(
                crate::bindings::rprops_view(props@),
                name@,
            ) == Some(i as int),
            None => prop_index_named(crate::bindings::rprops_view(props@), name@) is None,
        },
{
    let ghost pv = crate::bindings::rprops_view(props@);
    let n = props.len();
    let mut i: usize = 0;
    while i < n
        invariant
            i <= n,
            n == props@.len(),
            pv == crate::bindings::rprops_view(props@),
            forall|j: int| 0 <= j < i ==> (#[trigger] pv[j]).name != name@,
        decreases n - i,
    {
        proof {
            assert(pv[i as int] == crate::bindings::resolved_property_view(props@[i as int]));
        }
        if props[i].name.eq(name) {
            proof {
                lemma_prop_index_named_first(pv, name@, i as int);
            }
            return Some(i);
        }
        i = i + 1;
    }
    proof {
        lemma_prop_index_named(pv, name@);
    }
    None
}

/// Upcasts a decoded object to an ancestor (or any other) type: shared
/// fields move straight across by name and every other target field is
/// set to its type-appropriate default.  The conversion is total over
/// the table's own types; it refuses only a type the table does not know
/// or a value that does not fit its own binding.
#[verifier::rlimit(100)]
pub fn upcast(tbl: &BindingTable, value: &crate::values::ObjectValue, target: &String) -> (r:
    Option<crate::values::ObjectValue>)
    ensures
        match r {
            Some(o) => spec_upcast(tbl@, value@, target@) == Some(o@),
            None => spec_upcast(tbl@, value@, target@) is None,
        },
{
    let sb = match crate::bindings::find_binding(tbl, &value.name) {
        Some(b) => b,
        None => {
            return None;
        },
    };
    let tb = match crate::bindings::find_binding(tbl, target) {
        Some(b) => b,
        None => {
            return None;
        },
    };
    if sb.props.len() != value.fields.len() {
        proof {
            crate::values::lemma_fields_view(value.fields@);
        }
        return None;
    }
    let ghost sprops = sb@.props;
    let ghost tprops = tb@.props;
    let ghost sfieldsv = crate::values::fields_view(value.fields@);
    proof {
        crate::values::lemma_fields_view(value.fields@);
    }
    let mut fields: Vec<crate::values::FieldValue> = Vec::new();
    let mut i: usize = 0;
    proof {
        assert(crate::values::fields_view(fields@) =~= Seq::<FieldView>::empty());
    }
    while i < tb.props.len()
        invariant
            i <= tprops.len(),
            sprops == sb@.props,
            tprops == tb@.props,
            binding_index(tbl@, value.name@) matches Some(si) && tbl@[si] == sb@,
            binding_index(tbl@, target@) matches Some(ti) && tbl@[ti] == tb@,
            sprops.len() == sb.props@.len(),
            tprops.len() == tb.props@.len(),
            sfieldsv == crate::values::fields_view(value.fields@),
            sfieldsv.len() == value.fields@.len(),
            sprops.len() == sfieldsv.len(),
            spec_upcast_fields(sprops, sfieldsv, tprops, i as int) == crate::values::fields_view(
                fields@,
            ),
        decreases tprops.len() - i,
    {
        proof {
            assert(tprops[i as int] == crate::bindings::resolved_property_view(
                tb.props@[i as int],
            ));
        }
        let ghost before = crate::values::fields_view(fields@);
        let ghost f0 = fields@;
        match find_prop_named(&sb.props, &tb.props[i].name) {
            Some(pi) => {
                proof {
                    crate::values::lemma_fields_view(value.fields@);
                }
                let copied = field_dup(&value.fields[pi]);
                fields.push(copied);
                proof {
                    crate::values::lemma_fields_view(fields@);
                    crate::values::lemma_fields_view(f0);
                    assert(crate::values::fields_view(fields@) =~= before.push(
                        sfieldsv[pi as int],
                    ));
                }
            },
            None => {
                let kind = tb.props[i].kind;
                let f = match &tb.props[i].container {
                    None => crate::values::FieldValue::Simple(make_empty_slot(kind)),
                    Some(_) => crate::values::FieldValue::Lang(
                        crate::values::LangValue {
                            default: make_empty_slot(kind),
                            per_lang: Vec::new(),
                        },
                    ),
                };
                proof {
                    if f is Lang {
                        assert(crate::values::lang_view(f->Lang_0.per_lang@) =~= Seq::<
                            (Seq<char>, SlotView),
                        >::empty());
                    }
                    assert(crate::values::field_view(f) == spec_default_field(
                        tprops[i as int],
                    ));
                }
                fields.push(f);
                proof {
                    crate::values::lemma_fields_view(fields@);
                    crate::values::lemma_fields_view(f0);
                    assert(crate::values::fields_view(fields@) =~= before.push(
                        spec_default_field(tprops[i as int]),
                    ));
                }
            },
        }
        i = i + 1;
    }
    let o = crate::values::ObjectValue { name: target.clone(), fields };
    proof {
        assert(o@ =~= spec_upcast(tbl@, value@, target@)->0);
    }
    Some(o)
}



} // verus!

verus! {

/// A deep copy of a decoded value with the same model.
pub fn value_dup(v: &crate::values::Value) -> (r: crate::values::Value)
    ensures
        r@ == v@,
    decreases crate::values::vheight(v@), 3nat,
{
    match v {
        crate::values::Value::Json(j) => crate::values::Value::Json(j.duplicate()),
        crate::values::Value::Text(s) => crate::values::Value::Text(s.clone()),
        crate::values::Value::Flag(b) => crate::values::Value::Flag(*b),
        crate::values::Value::Number(n) => crate::values::Value::Number(*n),
        crate::values::Value::Id(s) => crate::values::Value::Id(s.clone()),
        crate::values::Value::Stamp(dt) => crate::values::Value::Stamp(*dt),
        crate::values::Value::Span(d) => crate::values::Value::Span(*d),
        crate::values::Value::Ref(s) => crate::values::Value::Ref(s.clone()),
        crate::values::Value::Inline(b) => crate::values::Value::Inline(Box::new(value_dup(b))),
        crate::values::Value::Prim(b) => crate::values::Value::Prim(Box::new(value_dup(b))),
        crate::values::Value::Snd(b) => crate::values::Value::Snd(Box::new(value_dup(b))),
        crate::values::Value::Object(o) => {
            let mut fields: Vec<crate::values::FieldValue> = Vec::new();
            let ghost fv = crate::values::fields_view(o.fields@);
            let mut k: usize = 0;
            proof {
                crate::values::lemma_fields_view(o.fields@);
                assert(crate::values::fields_view(fields@) =~= fv.subrange(0, 0));
            }
            while k < o.fields.len()
                invariant
                    k <= fv.len(),
                    fv == crate::values::fields_view(o.fields@),
                    fv.len() == o.fields@.len(),
                    v == crate::values::Value::Object(*o),
                    crate::values::fields_view(fields@) == fv.subrange(0, k as int),
                decreases fv.len() - k,
            {
                proof {
                    crate::values::lemma_fields_view(o.fields@);
                    crate::values::lemma_vfields_height(fv, k as int);
                }
                let ghost f0 = fields@;
                let f = field_dup(&o.fields[k]);
                fields.push(f);
                proof {
                    crate::values::lemma_fields_view(fields@);
                    crate::values::lemma_fields_view(f0);
                    assert(crate::values::fields_view(fields@) =~= fv.subrange(0, k as int + 1));
                }
                k = k + 1;
            }
            proof {
                assert(crate::values::fields_view(fields@) =~= fv);
            }
            crate::values::Value::Object(
                crate::values::ObjectValue { name: o.name.clone(), fields },
            )
        },
    }
}

/// A deep copy of a slot with the same model.
fn slot_dup(sl: &crate::values::Slot) -> (r: crate::values::Slot)
    ensures
        crate::values::slot_view(r) == crate::values::slot_view(*sl),
    decreases crate::values::vslot_height(crate::values::slot_view(*sl)), 4nat,
{
    match sl {
        crate::values::Slot::Opt(o) => match o {
            None => crate::values::Slot::Opt(None),
            Some(v) => crate::values::Slot::Opt(Some(value_dup(v))),
        },
        crate::values::Slot::Many(vs) => {
            let ghost vv = crate::values::values_view(vs@);
            let mut out: Vec<crate::values::Value> = Vec::new();
            let mut k: usize = 0;
            proof {
                crate::values::lemma_values_view(vs@);
                assert(crate::values::values_view(out@) =~= vv.subrange(0, 0));
            }
            while k < vs.len()
                invariant
                    k <= vv.len(),
                    vv == crate::values::values_view(vs@),
                    vv.len() == vs@.len(),
                    sl == crate::values::Slot::Many(*vs),
                    crate::values::values_view(out@) == vv.subrange(0, k as int),
                decreases vv.len() - k,
            {
                proof {
                    crate::values::lemma_values_view(vs@);
                    crate::values::lemma_vvalues_height(vv, k as int);
                }
                let ghost o0 = out@;
                let x = value_dup(&vs[k]);
                out.push(x);
                proof {
                    crate::values::lemma_values_view(out@);
                    crate::values::lemma_values_view(o0);
                    assert(crate::values::values_view(out@) =~= vv.subrange(0, k as int + 1));
                }
                k = k + 1;
            }
            proof {
                assert(crate::values::values_view(out@) =~= vv);
            }
            crate::values::Slot::Many(out)
        },
    }
}

/// A deep copy of a field with the same model.
pub fn field_dup(f: &crate::values::FieldValue) -> (r: crate::values::FieldValue)
    ensures
        crate::values::field_view(r) == crate::values::field_view(*f),
    decreases crate::values::vfield_height(crate::values::field_view(*f)), 5nat,
{
    match f {
        crate::values::FieldValue::Simple(sl) => crate::values::FieldValue::Simple(slot_dup(sl)),
        crate::values::FieldValue::Lang(lv) => {
            let default = slot_dup(&lv.default);
            let ghost mv = crate::values::lang_view(lv.per_lang@);
            let mut per_lang: Vec<(String, crate::values::Slot)> = Vec::new();
            let mut k: usize = 0;
            proof {
                crate::values::lemma_lang_view(lv.per_lang@);
                assert(crate::values::lang_view(per_lang@) =~= mv.subrange(0, 0));
            }
            while k < lv.per_lang.len()
                invariant
                    k <= mv.len(),
                    mv == crate::values::lang_view(lv.per_lang@),
                    mv.len() == lv.per_lang@.len(),
                    f == crate::values::FieldValue::Lang(*lv),
                    crate::values::lang_view(per_lang@) == mv.subrange(0, k as int),
                decreases mv.len() - k,
            {
                proof {
                    crate::values::lemma_lang_view(lv.per_lang@);
                    crate::values::lemma_vlang_height(mv, k as int);
                }
                let ghost p0 = per_lang@;
                let key = lv.per_lang[k].0.clone();
                let x = slot_dup(&lv.per_lang[k].1);
                per_lang.push((key, x));
                proof {
                    crate::values::lemma_lang_view(per_lang@);
                    crate::values::lemma_lang_view(p0);
                    assert(crate::values::lang_view(per_lang@) =~= mv.subrange(0, k as int + 1));
                }
                k = k + 1;
            }
            proof {
                assert(crate::values::lang_view(per_lang@) =~= mv);
            }
            crate::values::FieldValue::Lang(
                crate::values::LangValue { default, per_lang },
            )
        },
    }
}

} // verus!

verus! {

/// How many entries of the first `i` carry the given key.
pub open spec fn key_count(entries: Seq<(Seq<char>, JsonView)>, key: Seq<char>, i: int) -> int
    decreases i,
{
    if i <= 0 {
        0
    } else if 0 <= i - 1 < entries.len() && entries[i - 1].0 == key {
        key_count(entries, key, i - 1) + 1
    } else {
        key_count(entries, key, i - 1)
    }
}

/// The first `i` entries with the given key removed.
pub open spec fn strip_key(entries: Seq<(Seq<char>, JsonView)>, key: Seq<char>, i: int) -> Seq<
    (Seq<char>, JsonView),
>
    decreases i,
{
    if i <= 0 {
        Seq::empty()
    } else if 0 <= i - 1 < entries.len() && entries[i - 1].0 == key {
        strip_key(entries, key, i - 1)
    } else if 0 <= i - 1 < entries.len() {
        strip_key(entries, key, i - 1).push(entries[i - 1])
    } else {
        strip_key(entries, key, i - 1)
    }
}

/// What a document envelope decodes to: the `@context` entry — at most
/// one — beside the typed body, whose wire keys sit flattened at the same
/// object level; the body is dispatched against the base type with the
/// `@context` entry stripped out.
pub open spec fn spec_decode_document(tbl: TableView, base: Seq<char>, j: JsonView) -> Result<
    (Option<crate::context::ContextView>, ObjectView),
    DecodeErrorView,
> {
    match j {
        JsonView::Obj(entries) => {
            if key_count(entries, "@context"@, entries.len() as int) >= 2 {
                Err(DecodeErrorView::DuplicateField("@context"@))
            } else {
                let body = JsonView::Obj(strip_key(entries, "@context"@, entries.len() as int));
                match spec_tag_value(entries, "@context"@, entries.len() as int) {
                    Some(cj) => match crate::context::spec_decode_context(cj) {
                        Err(e) => Err(e),
                        Ok(cv) => match spec_decode_poly(tbl, base, body) {
                            Err(e) => Err(e),
                            Ok(o) => Ok((Some(cv), o)),
                        },
                    },
                    None => match spec_decode_poly(tbl, base, body) {
                        Err(e) => Err(e),
                        Ok(o) => Ok((None::<crate::context::ContextView>, o)),
                    },
                }
            }
        },
        _ => Err(DecodeErrorView::UnexpectedShape("object"@)),
    }
}

/// What a document envelope encodes to: the `@context` entry first, when
/// there is one, then the body's entries at the same level.
pub open spec fn spec_encode_document(
    tbl: TableView,
    ctx: Option<crate::context::ContextView>,
    o: ObjectView,
) -> JsonView {
    JsonView::Obj(
        (match ctx {
            Some(c) => seq![("@context"@, crate::context::spec_encode_context(c))],
            None => Seq::empty(),
        }) + spec_encode_object(tbl, o),
    )
}

/// Decodes a document envelope, as `spec_decode_document` describes: the
/// `@context` key, which may appear at most once, is pulled out and the
/// flattened body beside it is dispatched against the base type.
pub fn decode_with_context(tbl: &BindingTable, base: &String, j: &Json) -> (r: Result<
    crate::context::WithContext<crate::values::ObjectValue>,
    DecodeError,
>)
    ensures
        match r {
            Ok(wc) => spec_decode_document(tbl@, base@, j@) == Ok::<
                (Option<crate::context::ContextView>, ObjectView),
                DecodeErrorView,
            >(
                (
                    match wc.context {
                        Some(c) => Some(crate::context::context_view(c)),
                        None => None,
                    },
                    wc.body@,
                ),
            ),
            Err(e) => spec_decode_document(tbl@, base@, j@) == Err::<
                (Option<crate::context::ContextView>, ObjectView),
                DecodeErrorView,
            >(e@),
        },
{
    let entries = match j {
        Json::Obj(entries) => entries,
        _ => {
            return Err(DecodeError::UnexpectedShape(String::from_str("object")));
        },
    };
    let ghost ev = obj_view(entries@);
    proof {
        lemma_obj_view(entries@);
    }
    let ctx_key = String::from_str("@context");
    let mut count: usize = 0;
    let mut ctx_idx: Option<usize> = None;
    let mut body: Vec<(String, Json)> = Vec::new();
    let mut i: usize = 0;
    proof {
        assert(obj_view(body@) =~= strip_key(ev, "@context"@, 0));
    }
    while i < entries.len()
        invariant
            i <= ev.len(),
            ev == obj_view(entries@),
            ev.len() == entries@.len(),
            ctx_key@ == "@context"@,
            count <= i,
            count == key_count(ev, "@context"@, i as int),
            match ctx_idx {
                Some(t) => t < i && spec_tag_value(ev, "@context"@, i as int) == Some(
                    ev[t as int].1,
                ),
                None => spec_tag_value(ev, "@context"@, i as int) is None,
            },
            obj_view(body@) == strip_key(ev, "@context"@, i as int),
        decreases ev.len() - i,
    {
        proof {
            lemma_obj_view(entries@);
            assert(ev[i as int] == (entries@[i as int].0@, json_view(entries@[i as int].1)));
        }
        if entries[i].0.eq(&ctx_key) {
            count = count + 1;
            ctx_idx = Some(i);
        } else {
            let ghost body0 = obj_view(body@);
            let ghost braw = body@;
            let key = entries[i].0.clone();
            let val = entries[i].1.duplicate();
            body.push((key, val));
            proof {
                lemma_obj_view(body@);
                lemma_obj_view(braw);
                assert(obj_view(body@) =~= body0.push(ev[i as int]));
            }
        }
        i = i + 1;
    }
    if count >= 2 {
        return Err(DecodeError::DuplicateField(ctx_key));
    }
    let context = match ctx_idx {
        Some(t) => match crate::context::decode_context(&entries[t].1) {
            Ok(c) => Some(c),
            Err(e) => {
                return Err(e);
            },
        },
        None => None,
    };
    let body_json = Json::Obj(body);
    match decode_poly(tbl, base, &body_json) {
        Ok(o) => Ok(crate::context::WithContext { context, body: o }),
        Err(e) => Err(e),
    }
}

/// Encodes a document envelope, as `spec_encode_document` describes.
pub fn encode_with_context(
    tbl: &BindingTable,
    wc: &crate::context::WithContext<crate::values::ObjectValue>,
) -> (r: Json)
    ensures
        r@ == spec_encode_document(
            tbl@,
            (match wc.context {
                Some(c) => Some(crate::context::context_view(c)),
                None => None,
            }),
            wc.body@,
        ),
{
    let mut entries: Vec<(String, Json)> = Vec::new();
    match &wc.context {
        Some(c) => {
            let cj = crate::context::encode_context(c);
            entries.push((String::from_str("@context"), cj));
            proof {
                lemma_obj_view(entries@);
                assert(obj_view(entries@) =~= seq![
                    (
                        "@context"@,
                        crate::context::spec_encode_context(crate::context::context_view(*c)),
                    ),
                ]);
            }
        },
        None => {
            proof {
                assert(obj_view(entries@) =~= Seq::<(Seq<char>, JsonView)>::empty());
            }
        },
    }
    let ghost head = obj_view(entries@);
    let ghost eraw = entries@;
    let mut tail = encode_object_entries(tbl, &wc.body);
    let ghost traw = tail@;
    let ghost tail0 = obj_view(tail@);
    entries.append(&mut tail);
    proof {
        lemma_obj_view(entries@);
        lemma_obj_view(eraw);
        lemma_obj_view(traw);
        assert(obj_view(entries@) =~= head + tail0);
    }
    Json::Obj(entries)
}

} // verus!

verus! {

/// A canonical tag and an alias of one property route to the same place,
/// provided no earlier property answers to either key; composed with
/// `lemma_alias_equivalence`, documents keyed either way decode alike.
pub proof fn lemma_alias_keys_route_together(
    props: Seq<ResolvedPropertyView>,
    k1: Seq<char>,
    k2: Seq<char>,
    f: int,
)
    requires
        0 <= f < props.len(),
        forall|j: int| 0 <= j < f ==> no_key_match(#[trigger] props[j], k1),
        forall|j: int| 0 <= j < f ==> no_key_match(#[trigger] props[j], k2),
        k1 == props[f].tag || str_in(props[f].aliases, k1),
        k2 == props[f].tag || str_in(props[f].aliases, k2),
    ensures
        spec_key_lookup(props, k1) == Some((f, false)),
        spec_key_lookup(props, k2) == Some((f, false)),
        spec_key_lookup(props, k1) == spec_key_lookup(props, k2),
{
    lemma_key_lookup_first(props, k1, f, false);
    lemma_key_lookup_first(props, k2, f, false);
}

} // verus!

