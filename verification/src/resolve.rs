//! The inheritance resolver and the subtype graph builder.
//!
//! For a type, the effective property set is the post-order union of its
//! resolved ancestors' sets, its own properties inserted last so they win
//! name collisions, minus its excepted names, with its preferred-name
//! overrides applied to every survivor.  Because a hostile schema could
//! make `extends` cyclic, resolution carries a descent allowance that a
//! schema of `n` types can never exhaust on any acyclic path; running out
//! of it reports the cycle instead of descending forever.

use vstd::prelude::*;
use vstd::pervasive::VecAdditionalExecFns;

use crate::error::strs_view;
use crate::error::SchemaError;
use crate::error::SchemaErrorView;
use crate::keymap::lemma_vkey_index;
use crate::keymap::lemma_vkey_index_first;
use crate::keymap::vextended;
use crate::keymap::vkey_index;
use crate::schema::property_def_view;
use crate::schema::props_view;
use crate::schema::PreferredPropertyName;
use crate::schema::PreferredPropertyNameView;
use crate::schema::PropertyDef;
use crate::schema::PropertyDefView;
use crate::schema::Schema;
use crate::schema::TypeDef;
use crate::schema::TypeDefView;

verus! {

/// The table of types a schema models.
pub type SchemaView = Seq<(Seq<char>, TypeDefView)>;

/// The table of properties resolution produces.
pub type PropsView = Seq<(Seq<char>, PropertyDefView)>;

/// Whether `x` occurs among `s`.
pub open spec fn str_in(s: Seq<Seq<char>>, x: Seq<char>) -> bool {
    exists|i: int| 0 <= i < s.len() && s[i] == x
}

/// An alias set with `x` added, unless it is already there.
pub open spec fn insert_name(aka: Seq<Seq<char>>, x: Seq<char>) -> Seq<Seq<char>> {
    if str_in(aka, x) {
        aka
    } else {
        aka.push(x)
    }
}

/// The canonical wire tag of a declared property: its `tag`, or its name.
pub open spec fn default_tag(tag: Option<Seq<char>>, name: Seq<char>) -> Seq<char> {
    match tag {
        Some(t) => t,
        None => name,
    }
}

/// A property after the owning type's preferred-name override: the
/// override becomes the canonical tag and the previous tag joins the
/// aliases; an override whose shape does not match the property fails.
pub open spec fn spec_rename(td: TypeDefView, name: Seq<char>, pd: PropertyDefView) -> Result<
    PropertyDefView,
    SchemaErrorView,
> {
    match vkey_index(td.preferred_property_name, name) {
        None => Ok(pd),
        Some(pi) => match (td.preferred_property_name[pi].1, pd) {
            (
                PreferredPropertyNameView::Simple(pref),
                PropertyDefView::Simple { tag, property_type, aka, uri, doc, kind },
            ) => Ok(
                PropertyDefView::Simple {
                    tag: Some(pref),
                    property_type,
                    aka: insert_name(aka, default_tag(tag, name)),
                    uri,
                    doc,
                    kind,
                },
            ),
            (
                PreferredPropertyNameView::LangContainer { default, container },
                PropertyDefView::LangContainer {
                    tag,
                    property_type,
                    container_tag,
                    aka,
                    container_aka,
                    uri,
                    doc,
                    kind,
                },
            ) => Ok(
                PropertyDefView::LangContainer {
                    tag: Some(default),
                    property_type,
                    container_tag: container,
                    aka: insert_name(aka, default_tag(tag, name)),
                    container_aka: insert_name(container_aka, container_tag),
                    uri,
                    doc,
                    kind,
                },
            ),
            _ => Err(SchemaErrorView::KindMismatch(name)),
        },
    }
}

/// Ancestors' property tables folded into `acc`, post order, each ancestor
/// fully resolved with the same remaining allowance.
pub open spec fn spec_collect_supers(
    s: SchemaView,
    exts: Seq<Seq<char>>,
    fuel: nat,
    acc: PropsView,
) -> Result<PropsView, SchemaErrorView>
    decreases fuel, exts.len(),
{
    if exts.len() == 0 {
        Ok(acc)
    } else {
        match vkey_index(s, exts[0]) {
            None => Err(SchemaErrorView::UnknownSupertype(exts[0])),
            Some(ti) => match spec_collect_props(s, s[ti].1, fuel) {
                Err(e) => Err(e),
                Ok(pp) => spec_collect_supers(s, exts.drop_first(), fuel, vextended(acc, pp)),
            },
        }
    }
}

/// The table without the named entries.
pub open spec fn remove_names(s: PropsView, names: Seq<Seq<char>>) -> PropsView
    decreases s.len(),
{
    if s.len() == 0 {
        s
    } else if str_in(names, s.last().0) {
        remove_names(s.drop_last(), names)
    } else {
        remove_names(s.drop_last(), names).push(s.last())
    }
}

/// Every entry renamed by the owning type, first fault wins.
pub open spec fn spec_rename_all(td: TypeDefView, s: PropsView) -> Result<
    PropsView,
    SchemaErrorView,
>
    decreases s.len(),
{
    if s.len() == 0 {
        Ok(s)
    } else {
        match spec_rename_all(td, s.drop_last()) {
            Err(e) => Err(e),
            Ok(acc) => match spec_rename(td, s.last().0, s.last().1) {
                Err(e) => Err(e),
                Ok(pd) => Ok(acc.push((s.last().0, pd))),
            },
        }
    }
}

/// The effective property table of a type: ancestors post order, own
/// properties last, excepted names removed, overrides applied.  `fuel`
/// bounds the descent; a schema of `n` types never exhausts `n + 1` of it
/// unless `extends` has a cycle.
pub open spec fn spec_collect_props(s: SchemaView, td: TypeDefView, fuel: nat) -> Result<
    PropsView,
    SchemaErrorView,
>
    decreases fuel, 0nat,
{
    if fuel == 0 {
        Err(SchemaErrorView::CyclicInheritance(td.uri))
    } else {
        match spec_collect_supers(s, td.extends, (fuel - 1) as nat, Seq::empty()) {
            Err(e) => Err(e),
            Ok(inherited) => spec_rename_all(
                td,
                remove_names(vextended(inherited, td.properties), td.except_properties),
            ),
        }
    }
}

/// Whether the text `x` occurs in `v`.
pub fn contains_str(v: &Vec<String>, x: &String) -> (r: bool)
    ensures
        r == str_in(strs_view(v@), x@),
{
    let mut i: usize = 0;
    while i < v.len()
        invariant
            i <= v@.len(),
            forall|j: int| 0 <= j < i ==> strs_view(v@)[j] != x@,
        decreases v@.len() - i,
    {
        if v[i].eq(x) {
            proof {
                assert(strs_view(v@)[i as int] == x@);
            }
            return true;
        }
        i = i + 1;
    }
    false
}

/// Adds `x` to an alias list, unless it is already there.
fn insert_alias(aka: &mut Vec<String>, x: String)
    ensures
        strs_view(final(aka)@) == insert_name(strs_view(old(aka)@), x@),
{
    if !contains_str(aka, &x) {
        let ghost before = strs_view(aka@);
        aka.push(x);
        proof {
            assert(strs_view(aka@) =~= before.push(x@));
        }
    }
}

/// A copy of a text list with the same model.
pub fn clone_strs_pub(v: &Vec<String>) -> (r: Vec<String>)
    ensures
        r@ == v@,
{
    let mut out: Vec<String> = Vec::new();
    let mut i: usize = 0;
    while i < v.len()
        invariant
            i <= v@.len(),
            out@ == v@.subrange(0, i as int),
        decreases v@.len() - i,
    {
        out.push(v[i].clone());
        proof {
            assert(out@ =~= v@.subrange(0, i as int + 1));
        }
        i = i + 1;
    }
    proof {
        assert(out@ =~= v@);
    }
    out
}

/// A copy of an optional text with the same model.
fn clone_opt_str(v: &Option<String>) -> (r: Option<String>)
    ensures
        r == *v,
{
    match v {
        None => None,
        Some(s) => Some(s.clone()),
    }
}

/// A copy of a property declaration with the same model.
pub fn clone_property_def(p: &PropertyDef) -> (r: PropertyDef)
    ensures
        r@ == p@,
{
    match p {
        PropertyDef::Simple { tag, property_type, aka, uri, doc, kind } => {
            let r = PropertyDef::Simple {
                tag: clone_opt_str(tag),
                property_type: property_type.clone(),
                aka: clone_strs_pub(aka),
                uri: uri.clone(),
                doc: doc.clone(),
                kind: *kind,
            };
            proof {
                assert(r@ =~= p@);
            }
            r
        },
        PropertyDef::LangContainer {
            tag,
            property_type,
            container_tag,
            aka,
            container_aka,
            uri,
            doc,
            kind,
        } => {
            let r = PropertyDef::LangContainer {
                tag: clone_opt_str(tag),
                property_type: property_type.clone(),
                container_tag: container_tag.clone(),
                aka: clone_strs_pub(aka),
                container_aka: clone_strs_pub(container_aka),
                uri: uri.clone(),
                doc: doc.clone(),
                kind: *kind,
            };
            proof {
                assert(r@ =~= p@);
            }
            r
        },
    }
}

/// Applies the owning type's preferred-name override to one property, as
/// `spec_rename` describes.
pub fn rename_default_name(
    type_def: &TypeDef,
    property_name: &String,
    property_def: PropertyDef,
) -> (r: Result<PropertyDef, SchemaError>)
    ensures
        match r {
            Ok(pd) => spec_rename(type_def@, property_name@, property_def@) == Ok::<
                PropertyDefView,
                SchemaErrorView,
            >(pd@),
            Err(e) => spec_rename(type_def@, property_name@, property_def@) == Err::<
                PropertyDefView,
                SchemaErrorView,
            >(e@),
        },
{
    let prefs = &type_def.preferred_property_name;
    let ghost pv = type_def@.preferred_property_name;
    let mut i: usize = 0;
    let n = prefs.len();
    let mut hit: Option<usize> = None;
    loop
        invariant_except_break
            hit is None,
        invariant
            i <= n,
            n == pv.len(),
            n == prefs@.len(),
            prefs@ == type_def.preferred_property_name@,
            pv == type_def@.preferred_property_name,
            forall|j: int| 0 <= j < i ==> (#[trigger] pv[j]).0 != property_name@,
        ensures
            match hit {
                Some(h) => h < n && pv[h as int].0 == property_name@ && forall|j: int|
                    0 <= j < h ==> (#[trigger] pv[j]).0 != property_name@,
                None => forall|j: int| 0 <= j < n ==> (#[trigger] pv[j]).0 != property_name@,
            },
        decreases n - i,
    {
        if i >= n {
            break;
        }
        if prefs[i].0.eq(property_name) {
            proof {
                assert(pv[i as int].0 == prefs@[i as int].0@);
            }
            hit = Some(i);
            break;
        }
        proof {
            assert(pv[i as int].0 == prefs@[i as int].0@);
        }
        i = i + 1;
    }
    match hit {
        None => {
            proof {
                assert(vkey_index(pv, property_name@) is None) by {
                    lemma_vkey_index(pv, property_name@);
                }
            }
            Ok(property_def)
        },
        Some(h) => {
            proof {
                lemma_vkey_index_first(pv, property_name@, h as int);
            }
            match (&prefs[h].1, property_def) {
                (
                    PreferredPropertyName::Simple(pref),
                    PropertyDef::Simple { tag, property_type, mut aka, uri, doc, kind },
                ) => {
                    let previous = match &tag {
                        Some(t) => t.clone(),
                        None => property_name.clone(),
                    };
                    insert_alias(&mut aka, previous);
                    let r = PropertyDef::Simple {
                        tag: Some(pref.clone()),
                        property_type,
                        aka,
                        uri,
                        doc,
                        kind,
                    };
                    proof {
                        assert(spec_rename(type_def@, property_name@, property_def@) == Ok::<
                            PropertyDefView,
                            SchemaErrorView,
                        >(r@)) by {
                            assert(r@ =~= spec_rename(
                                type_def@,
                                property_name@,
                                property_def@,
                            )->Ok_0);
                        }
                    }
                    Ok(r)
                },
                (
                    PreferredPropertyName::LangContainer { default, container },
                    PropertyDef::LangContainer {
                        tag,
                        property_type,
                        container_tag,
                        mut aka,
                        mut container_aka,
                        uri,
                        doc,
                        kind,
                    },
                ) => {
                    let previous = match &tag {
                        Some(t) => t.clone(),
                        None => property_name.clone(),
                    };
                    insert_alias(&mut aka, previous);
                    insert_alias(&mut container_aka, container_tag);
                    let r = PropertyDef::LangContainer {
                        tag: Some(default.clone()),
                        property_type,
                        container_tag: container.clone(),
                        aka,
                        container_aka,
                        uri,
                        doc,
                        kind,
                    };
                    proof {
                        assert(spec_rename(type_def@, property_name@, property_def@) == Ok::<
                            PropertyDefView,
                            SchemaErrorView,
                        >(r@)) by {
                            assert(r@ =~= spec_rename(
                                type_def@,
                                property_name@,
                                property_def@,
                            )->Ok_0);
                        }
                    }
                    Ok(r)
                },
                (_, pd) => Err(SchemaError::KindMismatch(property_name.clone())),
            }
        },
    }
}

} // verus!

verus! {

/// The first schema entry with the given type name.
pub fn find_type(full_defs: &Schema, name: &String) -> (r: Option<usize>)
    ensures
        match r {
            Some(h) => h < full_defs.types@.len() && vkey_index(full_defs@, name@) == Some(
                h as int,
            ),
            None => vkey_index(full_defs@, name@) is None,
        },
{
    let ghost sv = full_defs@;
    let n = full_defs.types.len();
    let mut t: usize = 0;
    while t < n
        invariant
            t <= n,
            n == full_defs.types@.len(),
            sv == full_defs@,
            forall|j: int| 0 <= j < t ==> (#[trigger] sv[j]).0 != name@,
        decreases n - t,
    {
        if full_defs.types[t].0.eq(name) {
            proof {
                assert(sv[t as int].0 == full_defs.types@[t as int].0@);
                lemma_vkey_index_first(sv, name@, t as int);
            }
            return Some(t);
        }
        proof {
            assert(sv[t as int].0 == full_defs.types@[t as int].0@);
        }
        t = t + 1;
    }
    proof {
        lemma_vkey_index(sv, name@);
    }
    None
}

/// Writes a property under its name, as `vupserted` describes.
fn upsert_prop(m: &mut Vec<(String, PropertyDef)>, key: String, v: PropertyDef)
    ensures
        props_view(final(m)@) == crate::keymap::vupserted(props_view(old(m)@), key@, v@),
{
    proof {
        lemma_vkey_index(props_view(m@), key@);
    }
    let n = m.len();
    let mut i: usize = 0;
    while i < n
        invariant
            i <= n,
            n == m@.len(),
            m@ == old(m)@,
            forall|j: int| 0 <= j < i ==> (#[trigger] props_view(m@)[j]).0 != key@,
        decreases n - i,
    {
        if m[i].0.eq(&key) {
            proof {
                assert(props_view(m@)[i as int].0 == m@[i as int].0@);
                lemma_vkey_index_first(props_view(m@), key@, i as int);
            }
            let _ = m.remove(i);
            m.insert(i, (key, v));
            proof {
                assert(props_view(m@) =~= crate::keymap::vupserted(
                    props_view(old(m)@),
                    key@,
                    v@,
                ));
            }
            return;
        }
        proof {
            assert(props_view(m@)[i as int].0 == m@[i as int].0@);
        }
        i = i + 1;
    }
    m.push((key, v));
    proof {
        assert(vkey_index(props_view(old(m)@), key@) is None) by {
            lemma_vkey_index(props_view(old(m)@), key@);
        }
        assert(props_view(m@) =~= props_view(old(m)@).push((key@, v@)));
    }
}

/// A fault on an earlier entry decides the whole renaming.
proof fn lemma_rename_all_err(td: TypeDefView, s: PropsView, k: int)
    requires
        0 <= k <= s.len(),
        spec_rename_all(td, s.subrange(0, k)) is Err,
    ensures
        spec_rename_all(td, s) == spec_rename_all(td, s.subrange(0, k)),
    decreases s.len() - k,
{
    if k < s.len() {
        assert(s.subrange(0, k + 1).drop_last() =~= s.subrange(0, k));
        lemma_rename_all_err(td, s, k + 1);
    } else {
        assert(s.subrange(0, k) =~= s);
    }
}

/// Resolves a type's effective property table, as `spec_collect_props`
/// describes: ancestors post order, own properties last so they win name
/// collisions, excepted names removed, preferred-name overrides applied.
#[verifier::loop_isolation(false)]
pub fn collect_properties(full_defs: &Schema, type_def: &TypeDef, fuel: usize) -> (r: Result<
    Vec<(String, PropertyDef)>,
    SchemaError,
>)
    ensures
        match r {
            Ok(v) => spec_collect_props(full_defs@, type_def@, fuel as nat) == Ok::<
                PropsView,
                SchemaErrorView,
            >(props_view(v@)),
            Err(e) => spec_collect_props(full_defs@, type_def@, fuel as nat) == Err::<
                PropsView,
                SchemaErrorView,
            >(e@),
        },
    decreases fuel,
{
    if fuel == 0 {
        return Err(SchemaError::CyclicInheritance(type_def.uri.clone()));
    }
    let ghost sv = full_defs@;
    let ghost exts = type_def@.extends;
    let ghost f1 = (fuel - 1) as nat;
    // Ancestors, post order.
    let mut acc: Vec<(String, PropertyDef)> = Vec::new();
    let mut k: usize = 0;
    proof {
        assert(exts.skip(0) =~= exts);
        assert(props_view(acc@) =~= Seq::<(Seq<char>, PropertyDefView)>::empty());
    }
    while k < type_def.extends.len()
        invariant
            k <= exts.len(),
            spec_collect_supers(sv, exts, f1, Seq::empty()) == spec_collect_supers(
                sv,
                exts.skip(k as int),
                f1,
                props_view(acc@),
            ),
        decreases exts.len() - k,
    {
        proof {
            assert(exts.skip(k as int)[0] == exts[k as int]);
            assert(exts.skip(k as int).drop_first() =~= exts.skip(k as int + 1));
        }
        let super_name = &type_def.extends[k];
        let ti = match find_type(full_defs, super_name) {
            Some(h) => h,
            None => {
                return Err(SchemaError::UnknownSupertype(super_name.clone()));
            },
        };
        let pp = match collect_properties(full_defs, &full_defs.types[ti].1, fuel - 1) {
            Ok(pp) => pp,
            Err(e) => {
                return Err(e);
            },
        };
        // Fold the ancestor's table into the accumulator.
        let ghost acc0 = props_view(acc@);
        let ghost ppv = props_view(pp@);
        let mut rest = pp;
        let ghost mut done: int = 0;
        proof {
            assert(ppv.subrange(0, 0) =~= Seq::<(Seq<char>, PropertyDefView)>::empty());
            assert(vextended(acc0, ppv.subrange(0, 0)) == acc0);
        }
        while rest.len() > 0
            invariant
                0 <= done,
                done + rest@.len() == ppv.len(),
                props_view(rest@) =~= ppv.skip(done),
                props_view(acc@) == vextended(acc0, ppv.subrange(0, done)),
            decreases rest@.len(),
        {
            let ghost rest_full = props_view(rest@);
            let kv = rest.remove(0);
            proof {
                assert(props_view(rest@) =~= rest_full.drop_first());
                assert(rest_full[0] == (kv.0@, kv.1@));
                assert(rest_full[0] == ppv[done]);
                assert(props_view(rest@) =~= ppv.skip(done + 1));
            }
            upsert_prop(&mut acc, kv.0, kv.1);
            proof {
                assert(ppv.subrange(0, done + 1).drop_last() =~= ppv.subrange(0, done));
                assert(ppv.subrange(0, done + 1).last() == ppv[done]);
                done = done + 1;
            }
        }
        proof {
            assert(ppv.subrange(0, ppv.len() as int) =~= ppv);
        }
        k = k + 1;
    }
    proof {
        assert(exts.skip(exts.len() as int) =~= Seq::<Seq<char>>::empty());
    }
    let ghost inherited = props_view(acc@);
    proof {
        assert(spec_collect_supers(sv, exts, f1, Seq::empty()) == Ok::<
            PropsView,
            SchemaErrorView,
        >(inherited));
    }
    // The type's own properties, winning collisions.
    let own = &type_def.properties;
    let ghost ownv = type_def@.properties;
    let mut t: usize = 0;
    proof {
        assert(ownv.subrange(0, 0) =~= Seq::<(Seq<char>, PropertyDefView)>::empty());
        assert(vextended(inherited, ownv.subrange(0, 0)) == inherited);
    }
    while t < own.len()
        invariant
            t <= ownv.len(),
            props_view(acc@) == vextended(inherited, ownv.subrange(0, t as int)),
        decreases ownv.len() - t,
    {
        let key = own[t].0.clone();
        let pd = clone_property_def(&own[t].1);
        proof {
            assert(ownv[t as int] == (own@[t as int].0@, own@[t as int].1@));
        }
        upsert_prop(&mut acc, key, pd);
        proof {
            assert(ownv.subrange(0, t as int + 1).drop_last() =~= ownv.subrange(0, t as int));
            assert(ownv.subrange(0, t as int + 1).last() == ownv[t as int]);
        }
        t = t + 1;
    }
    proof {
        assert(ownv.subrange(0, ownv.len() as int) =~= ownv);
    }
    let ghost merged = props_view(acc@);
    // Excepted names are removed, even when inherited.
    let ghost excepts = type_def@.except_properties;
    let mut kept: Vec<(String, PropertyDef)> = Vec::new();
    let mut t: usize = 0;
    proof {
        assert(merged.subrange(0, 0) =~= Seq::<(Seq<char>, PropertyDefView)>::empty());
        assert(props_view(kept@) =~= remove_names(merged.subrange(0, 0), excepts));
    }
    while t < acc.len()
        invariant
            t <= acc@.len(),
            merged == props_view(acc@),
            props_view(kept@) == remove_names(merged.subrange(0, t as int), excepts),
        decreases acc@.len() - t,
    {
        proof {
            assert(merged.subrange(0, t as int + 1).drop_last() =~= merged.subrange(0, t as int));
            assert(merged.subrange(0, t as int + 1).last() == merged[t as int]);
            assert(merged[t as int].0 == acc@[t as int].0@);
        }
        if !contains_str(&type_def.except_properties, &acc[t].0) {
            let ghost before = props_view(kept@);
            let key = acc[t].0.clone();
            let pd = clone_property_def(&acc[t].1);
            kept.push((key, pd));
            proof {
                assert(props_view(kept@) =~= before.push(merged[t as int]));
            }
        }
        t = t + 1;
    }
    proof {
        assert(merged.subrange(0, merged.len() as int) =~= merged);
    }
    let ghost filtered = props_view(kept@);
    // The owning type's preferred names, applied last.
    let mut out: Vec<(String, PropertyDef)> = Vec::new();
    let mut t: usize = 0;
    proof {
        assert(filtered.subrange(0, 0) =~= Seq::<(Seq<char>, PropertyDefView)>::empty());
        assert(spec_rename_all(type_def@, filtered.subrange(0, 0)) == Ok::<
            PropsView,
            SchemaErrorView,
        >(props_view(out@)));
    }
    while t < kept.len()
        invariant
            t <= kept@.len(),
            filtered == props_view(kept@),
            spec_rename_all(type_def@, filtered.subrange(0, t as int)) == Ok::<
                PropsView,
                SchemaErrorView,
            >(props_view(out@)),
        decreases kept@.len() - t,
    {
        proof {
            assert(filtered.subrange(0, t as int + 1).drop_last() =~= filtered.subrange(
                0,
                t as int,
            ));
            assert(filtered.subrange(0, t as int + 1).last() == filtered[t as int]);
            assert(filtered[t as int] == (kept@[t as int].0@, kept@[t as int].1@));
        }
        let name = kept[t].0.clone();
        let pd = clone_property_def(&kept[t].1);
        match rename_default_name(type_def, &name, pd) {
            Ok(pd2) => {
                let ghost before = props_view(out@);
                out.push((name, pd2));
                proof {
                    assert(props_view(out@) =~= before.push(
                        (
                            filtered[t as int].0,
                            spec_rename(
                                type_def@,
                                filtered[t as int].0,
                                filtered[t as int].1,
                            )->Ok_0,
                        ),
                    ));
                }
            },
            Err(e) => {
                proof {
                    lemma_rename_all_err(type_def@, filtered, t as int + 1);
                }
                return Err(e);
            },
        }
        t = t + 1;
    }
    proof {
        assert(filtered.subrange(0, filtered.len() as int) =~= filtered);
    }
    Ok(out)
}

} // verus!

verus! {

/// An inheritance edge between schema positions: the type at `t` extends
/// the name whose first schema entry is `p`.
pub open spec fn sub_edge(s: SchemaView, p: int, t: int) -> bool {
    &&& 0 <= p < s.len()
    &&& 0 <= t < s.len()
    &&& str_in(s[t].1.extends, s[p].0)
    &&& vkey_index(s, s[p].0) == Some(p)
}

/// A descent through inheritance edges, by schema position.
pub open spec fn sub_chain(s: SchemaView, c: Seq<int>) -> bool {
    &&& c.len() >= 1
    &&& forall|i: int| 0 <= i < c.len() ==> 0 <= #[trigger] c[i] < s.len()
    &&& forall|i: int| 1 <= i < c.len() ==> sub_edge(s, c[i - 1], #[trigger] c[i])
}

/// The type at `t` transitively extends the type at `b` (or is it).
pub open spec fn sub_reaches(s: SchemaView, b: int, t: int) -> bool {
    exists|c: Seq<int>| sub_chain(s, c) && c.first() == b && c.last() == t
}

/// The names of the first `k` schema entries that `b` reaches, in schema
/// order.
pub open spec fn subbase_names_upto(s: SchemaView, b: int, k: int) -> Seq<Seq<char>>
    decreases k,
{
    if k <= 0 {
        Seq::empty()
    } else if sub_reaches(s, b, k - 1) {
        subbase_names_upto(s, b, k - 1).push(s[k - 1].0)
    } else {
        subbase_names_upto(s, b, k - 1)
    }
}

/// The subtype set of a base type: the base and every type transitively
/// extending it, in schema order; empty when the base is unknown.
pub open spec fn spec_subtypes(s: SchemaView, base: Seq<char>) -> Seq<Seq<char>> {
    match vkey_index(s, base) {
        Some(b) => subbase_names_upto(s, b, s.len() as int),
        None => Seq::empty(),
    }
}

/// How many marks are set.
pub open spec fn count_true(s: Seq<bool>) -> nat
    decreases s.len(),
{
    if s.len() == 0 {
        0
    } else {
        count_true(s.drop_last()) + (if s.last() {
            1nat
        } else {
            0nat
        })
    }
}

/// Setting one more mark raises the count by one.
proof fn lemma_count_true_update(s: Seq<bool>, i: int)
    requires
        0 <= i < s.len(),
        !s[i],
    ensures
        count_true(s.update(i, true)) == count_true(s) + 1,
    decreases s.len(),
{
    if i == s.len() - 1 {
        assert(s.update(i, true).drop_last() =~= s.drop_last());
    } else {
        assert(s.update(i, true).drop_last() =~= s.drop_last().update(i, true));
        lemma_count_true_update(s.drop_last(), i);
    }
}

/// The count never passes the length.
proof fn lemma_count_true_bound(s: Seq<bool>)
    ensures
        count_true(s) <= s.len(),
    decreases s.len(),
{
    if s.len() > 0 {
        lemma_count_true_bound(s.drop_last());
    }
}

/// A chain grows by one edge.
proof fn lemma_chain_extend(s: SchemaView, c: Seq<int>, t: int)
    requires
        sub_chain(s, c),
        sub_edge(s, c.last(), t),
    ensures
        sub_chain(s, c.push(t)),
        c.push(t).first() == c.first(),
        c.push(t).last() == t,
{
    let c2 = c.push(t);
    assert forall|i: int| 1 <= i < c2.len() implies sub_edge(s, c2[i - 1], #[trigger] c2[i]) by {
        if i < c.len() {
            assert(c2[i] == c[i] && c2[i - 1] == c[i - 1]);
        } else {
            assert(c2[i] == t && c2[i - 1] == c.last());
        }
    }
}

/// Once no pass changes anything, every chain from a marked origin ends
/// marked.
proof fn lemma_chain_marked(s: SchemaView, marked: Seq<bool>, c: Seq<int>)
    requires
        marked.len() == s.len(),
        sub_chain(s, c),
        marked[c.first()],
        forall|p: int, t: int| sub_edge(s, p, t) && marked[p] ==> marked[t],
    ensures
        marked[c.last()],
    decreases c.len(),
{
    if c.len() > 1 {
        let c0 = c.drop_last();
        assert(sub_chain(s, c0));
        assert(c0.first() == c.first());
        lemma_chain_marked(s, marked, c0);
        assert(sub_edge(s, c[c.len() - 2], c[c.len() - 1]));
        assert(c0.last() == c[c.len() - 2]);
    }
}

/// Collects the subtype set of a type: itself plus the transitive closure
/// of the types whose `extends` reach it, in schema order.
pub fn collect_subtypes(full_defs: &Schema, base_name: &String) -> (r: Vec<String>)
    ensures
        strs_view(r@) == spec_subtypes(full_defs@, base_name@),
{
    let ghost sv = full_defs@;
    let b = match find_type(full_defs, base_name) {
        Some(b) => b,
        None => {
            proof {
                assert(strs_view(Seq::<String>::empty()) =~= Seq::<Seq<char>>::empty());
            }
            return Vec::new();
        },
    };
    let n = full_defs.types.len();
    let mut marked: Vec<bool> = Vec::new();
    let mut i: usize = 0;
    while i < n
        invariant
            i <= n,
            marked@.len() == i,
            forall|j: int| 0 <= j < i ==> !(#[trigger] marked@[j]),
        decreases n - i,
    {
        marked.push(false);
        i = i + 1;
    }
    marked.set(b, true);
    proof {
        assert(sub_chain(sv, seq![b as int])) by {
            assert(seq![b as int][0] == b as int);
        }
        assert(sub_reaches(sv, b as int, b as int)) by {
            let c = seq![b as int];
            assert(sub_chain(sv, c) && c.first() == b as int && c.last() == b as int);
        }
    }
    // Saturate: mark every type one of whose supertypes is marked, until a
    // whole pass changes nothing.
    loop
        invariant
            n == sv.len(),
            n == full_defs.types@.len(),
            sv == full_defs@,
            marked@.len() == n,
            b < n,
            marked@[b as int],
            vkey_index(sv, base_name@) == Some(b as int),
            forall|j: int| 0 <= j < n && #[trigger] marked@[j] ==> sub_reaches(sv, b as int, j),
        ensures
            marked@.len() == n,
            forall|j: int| 0 <= j < n && #[trigger] marked@[j] ==> sub_reaches(sv, b as int, j),
            forall|p: int, t: int| sub_edge(sv, p, t) && marked@[p] ==> marked@[t],
            marked@[b as int],
        decreases n - count_true(marked@),
    {
        let mut changed = false;
        let ghost c0 = count_true(marked@);
        let mut i: usize = 0;
        while i < n
            invariant
                i <= n,
                n == sv.len(),
                n == full_defs.types@.len(),
                sv == full_defs@,
                marked@.len() == n,
                b < n,
                marked@[b as int],
                changed ==> count_true(marked@) > c0,
                !changed ==> count_true(marked@) == c0,
                forall|j: int| 0 <= j < n && #[trigger] marked@[j] ==> sub_reaches(
                    sv,
                    b as int,
                    j,
                ),
                !changed ==> forall|p: int, t: int|
                    sub_edge(sv, p, t) && 0 <= t < i && marked@[p] ==> marked@[t],
            decreases n - i,
        {
            if !marked[i] {
                let exts = &full_defs.types[i].1.extends;
                let ghost extv = sv[i as int].1.extends;
                proof {
                    assert(extv =~= strs_view(full_defs.types@[i as int].1.extends@));
                }
                let mut e: usize = 0;
                let mut hit = false;
                loop
                    invariant_except_break
                        !hit,
                    invariant
                        e <= exts@.len(),
                        extv == strs_view(exts@),
                        extv == sv[i as int].1.extends,
                        extv.len() == exts@.len(),
                        n == sv.len(),
                        n == full_defs.types@.len(),
                        sv == full_defs@,
                        marked@.len() == n,
                        i < n,
                        forall|t: int|
                            0 <= t < e ==> (vkey_index(sv, #[trigger] extv[t]) is Some
                                ==> !marked@[vkey_index(sv, extv[t])->0]),
                    ensures
                        hit ==> exists|p: int|
                            sub_edge(sv, p, i as int) && 0 <= p < n && #[trigger] marked@[p],
                        !hit ==> forall|t: int|
                            0 <= t < extv.len() ==> (vkey_index(sv, #[trigger] extv[t]) is Some
                                ==> !marked@[vkey_index(sv, extv[t])->0]),
                    decreases exts@.len() - e,
                {
                    if e >= exts.len() {
                        break;
                    }
                    match find_type(full_defs, &exts[e]) {
                        Some(pi) => {
                            if marked[pi] {
                                proof {
                                    lemma_vkey_index(sv, extv[e as int]);
                                    assert(sv[pi as int].0 == extv[e as int]);
                                    assert(str_in(sv[i as int].1.extends, sv[pi as int].0)) by {
                                        assert(extv[e as int] == sv[pi as int].0);
                                    }
                                    assert(sub_edge(sv, pi as int, i as int));
                                }
                                hit = true;
                                break;
                            }
                        },
                        None => {},
                    }
                    e = e + 1;
                }
                if hit {
                    proof {
                        let p = choose|p: int|
                            sub_edge(sv, p, i as int) && 0 <= p < n && #[trigger] marked@[p];
                        let c = choose|c: Seq<int>|
                            sub_chain(sv, c) && c.first() == b as int && c.last() == p;
                        lemma_chain_extend(sv, c, i as int);
                        lemma_count_true_update(marked@, i as int);
                        lemma_count_true_bound(marked@);
                    }
                    marked.set(i, true);
                    changed = true;
                } else {
                    proof {
                        assert forall|p: int|
                            sub_edge(sv, p, i as int) implies !marked@[p] by {
                            assert(str_in(sv[i as int].1.extends, sv[p].0));
                            let t = choose|t: int|
                                0 <= t < extv.len() && extv[t] == sv[p].0;
                            assert(vkey_index(sv, extv[t]) == Some(p));
                        }
                    }
                }
            }
            i = i + 1;
        }
        if !changed {
            break;
        }
        proof {
            lemma_count_true_bound(marked@);
            assert(count_true(marked@) > c0);
        }
    }
    // Every reachable position is marked, so the marks are exactly the
    // subtype set.
    proof {
        assert forall|j: int|
            0 <= j < n implies (marked@[j] == sub_reaches(sv, b as int, j)) by {
            if sub_reaches(sv, b as int, j) {
                let c = choose|c: Seq<int>|
                    sub_chain(sv, c) && c.first() == b as int && c.last() == j;
                lemma_chain_marked(sv, marked@, c);
            }
        }
    }
    let mut out: Vec<String> = Vec::new();
    let mut i: usize = 0;
    proof {
        assert(strs_view(out@) =~= subbase_names_upto(sv, b as int, 0));
    }
    while i < n
        invariant
            i <= n,
            n == sv.len(),
            n == full_defs.types@.len(),
            sv == full_defs@,
            marked@.len() == n,
            forall|j: int| 0 <= j < n ==> marked@[j] == sub_reaches(sv, b as int, j),
            strs_view(out@) == subbase_names_upto(sv, b as int, i as int),
        decreases n - i,
    {
        if marked[i] {
            let ghost before = strs_view(out@);
            out.push(full_defs.types[i].0.clone());
            proof {
                assert(strs_view(out@) =~= before.push(sv[i as int].0));
            }
        }
        i = i + 1;
    }
    proof {
        assert(spec_subtypes(sv, base_name@) == subbase_names_upto(sv, b as int, n as int));
    }
    out
}

} // verus!

verus! {

/// The wire keys one resolved property answers to: its aliases and its
/// canonical tag, and for a language container the container's aliases
/// and tag as well.
pub open spec fn tags_of(name: Seq<char>, pd: PropertyDefView) -> Seq<Seq<char>> {
    match pd {
        PropertyDefView::Simple { tag, aka, .. } => aka.push(default_tag(tag, name)),
        PropertyDefView::LangContainer { tag, container_tag, aka, container_aka, .. } => aka.push(
            default_tag(tag, name),
        ) + container_aka.push(container_tag),
    }
}

/// Every wire key a property table answers to, in table order.
pub open spec fn spec_tags(props: PropsView) -> Seq<Seq<char>>
    decreases props.len(),
{
    if props.len() == 0 {
        Seq::empty()
    } else {
        spec_tags(props.drop_last()) + tags_of(props.last().0, props.last().1)
    }
}

/// Collects every recognized wire key of a resolved property table.
#[verifier::rlimit(100)]
#[verifier::spinoff_prover]
#[verifier::loop_isolation(false)]
pub fn gen_tags(properties: &Vec<(String, PropertyDef)>) -> (r: Vec<String>)
    ensures
        strs_view(r@) == spec_tags(props_view(properties@)),
{
    let ghost pv = props_view(properties@);
    let mut out: Vec<String> = Vec::new();
    let mut i: usize = 0;
    proof {
        assert(strs_view(out@) =~= spec_tags(pv.subrange(0, 0)));
    }
    while i < properties.len()
        invariant
            i <= pv.len(),
            strs_view(out@) == spec_tags(pv.subrange(0, i as int)),
        decreases pv.len() - i,
    {
        proof {
            assert(pv.subrange(0, i as int + 1).drop_last() =~= pv.subrange(0, i as int));
            assert(pv.subrange(0, i as int + 1).last() == pv[i as int]);
            assert(pv[i as int] == (properties@[i as int].0@, properties@[i as int].1@));
        }
        let ghost base = strs_view(out@);
        let name = &properties[i].0;
        match &properties[i].1 {
            PropertyDef::Simple { tag, aka, .. } => {
                let mut a: usize = 0;
                while a < aka.len()
                    invariant
                        a <= aka@.len(),
                        strs_view(out@) == base + strs_view(aka@).subrange(0, a as int),
                    decreases aka@.len() - a,
                {
                    let ghost prev = strs_view(out@);
                    out.push(aka[a].clone());
                    proof {
                        assert(strs_view(out@) =~= prev.push(strs_view(aka@)[a as int]));
                        assert(strs_view(out@) =~= base + strs_view(aka@).subrange(
                            0,
                            a as int + 1,
                        ));
                    }
                    a = a + 1;
                }
                proof {
                    assert(strs_view(aka@).subrange(0, aka@.len() as int) =~= strs_view(aka@));
                }
                let ghost prev = strs_view(out@);
                match tag {
                    Some(t) => {
                        out.push(t.clone());
                        proof {
                            assert(strs_view(out@) =~= prev.push(t@));
                        }
                    },
                    None => {
                        out.push(name.clone());
                        proof {
                            assert(strs_view(out@) =~= prev.push(name@));
                        }
                    },
                }
                proof {
                    assert(strs_view(out@) =~= base + tags_of(pv[i as int].0, pv[i as int].1));
                }
            },
            PropertyDef::LangContainer { tag, container_tag, aka, container_aka, .. } => {
                let mut a: usize = 0;
                while a < aka.len()
                    invariant
                        a <= aka@.len(),
                        strs_view(out@) == base + strs_view(aka@).subrange(0, a as int),
                    decreases aka@.len() - a,
                {
                    let ghost prev = strs_view(out@);
                    out.push(aka[a].clone());
                    proof {
                        assert(strs_view(out@) =~= prev.push(strs_view(aka@)[a as int]));
                        assert(strs_view(out@) =~= base + strs_view(aka@).subrange(
                            0,
                            a as int + 1,
                        ));
                    }
                    a = a + 1;
                }
                proof {
                    assert(strs_view(aka@).subrange(0, aka@.len() as int) =~= strs_view(aka@));
                }
                let ghost prev = strs_view(out@);
                match tag {
                    Some(t) => {
                        out.push(t.clone());
                        proof {
                            assert(strs_view(out@) =~= prev.push(t@));
                        }
                    },
                    None => {
                        out.push(name.clone());
                        proof {
                            assert(strs_view(out@) =~= prev.push(name@));
                        }
                    },
                }
                let ghost half = strs_view(out@);
                proof {
                    assert(half =~= base + strs_view(aka@).push(default_tag(
                        crate::schema::opt_str_view(*tag),
                        pv[i as int].0,
                    )));
                }
                let mut a: usize = 0;
                while a < container_aka.len()
                    invariant
                        a <= container_aka@.len(),
                        strs_view(out@) == half + strs_view(container_aka@).subrange(0, a as int),
                    decreases container_aka@.len() - a,
                {
                    let ghost prev = strs_view(out@);
                    out.push(container_aka[a].clone());
                    proof {
                        assert(strs_view(out@) =~= prev.push(
                            strs_view(container_aka@)[a as int],
                        ));
                        assert(strs_view(out@) =~= half + strs_view(container_aka@).subrange(
                            0,
                            a as int + 1,
                        ));
                    }
                    a = a + 1;
                }
                proof {
                    assert(strs_view(container_aka@).subrange(0, container_aka@.len() as int)
                        =~= strs_view(container_aka@));
                }
                let ghost prev2 = strs_view(out@);
                out.push(container_tag.clone());
                proof {
                    assert(strs_view(out@) =~= prev2.push(container_tag@));
                    assert(strs_view(out@) =~= half + strs_view(container_aka@).push(
                        container_tag@,
                    ));
                    assert(strs_view(out@) =~= base + tags_of(pv[i as int].0, pv[i as int].1));
                }
            },
        }
        i = i + 1;
    }
    proof {
        assert(pv.subrange(0, pv.len() as int) =~= pv);
    }
    out
}

} // verus!
