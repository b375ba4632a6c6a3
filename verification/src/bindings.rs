//! The compiled bindings: one table entry per schema type, holding its
//! resolved properties, the wire keys they answer to, and the type's
//! subtype set.  The table is built once per schema and is read-only
//! afterwards; every decode and encode call interprets it.

use vstd::prelude::*;

use crate::error::strs_view;
use crate::error::SchemaError;
use crate::error::SchemaErrorView;
use crate::resolve::collect_properties;
use crate::resolve::collect_subtypes;
use crate::resolve::default_tag;
use crate::resolve::spec_collect_props;
use crate::resolve::spec_subtypes;
use crate::resolve::PropsView;
use crate::resolve::SchemaView;
use crate::schema::opt_str_view;
use crate::schema::parse_value_type;
use crate::schema::spec_parse_value_type;
use crate::schema::PropertyDef;
use crate::schema::PropertyDefView;
use crate::schema::PropertyKind;
use crate::schema::Schema;
use crate::schema::ValueType;
use crate::schema::ValueTypeView;

verus! {

/// The wire keys of a language container's map half.
#[derive(Debug, PartialEq)]
pub struct ContainerTags {
    pub tag: String,
    pub aliases: Vec<String>,
}

/// One resolved property of one type.
#[derive(Debug, PartialEq)]
pub struct ResolvedProperty {
    /// The property's name, used in error reports.
    pub name: String,
    /// The cardinality.
    pub kind: PropertyKind,
    /// The canonical wire tag, emitted on encode.
    pub tag: String,
    /// Further wire keys accepted on decode.
    pub aliases: Vec<String>,
    /// The map half's keys, for a language container.
    pub container: Option<ContainerTags>,
    /// What the property's values decode into.
    pub value_type: ValueType,
}

/// Model of a resolved property.
#[verifier::ext_equal]
pub struct ResolvedPropertyView {
    pub name: Seq<char>,
    pub kind: PropertyKind,
    pub tag: Seq<char>,
    pub aliases: Seq<Seq<char>>,
    pub container: Option<ContainerTagsView>,
    pub value_type: ValueTypeView,
}

/// Model of a map half's keys.
#[verifier::ext_equal]
pub struct ContainerTagsView {
    pub tag: Seq<char>,
    pub aliases: Seq<Seq<char>>,
}

/// Model of a resolved property.
pub open spec fn resolved_property_view(p: ResolvedProperty) -> ResolvedPropertyView {
    ResolvedPropertyView {
        name: p.name@,
        kind: p.kind,
        tag: p.tag@,
        aliases: strs_view(p.aliases@),
        container: match p.container {
            Some(c) => Some(ContainerTagsView { tag: c.tag@, aliases: strs_view(c.aliases@) }),
            None => None,
        },
        value_type: p.value_type@,
    }
}

impl View for ResolvedProperty {
    type V = ResolvedPropertyView;

    open spec fn view(&self) -> ResolvedPropertyView {
        resolved_property_view(*self)
    }
}

/// The compiled binding of one type.
#[derive(Debug, PartialEq)]
pub struct TypeBinding {
    pub name: String,
    pub props: Vec<ResolvedProperty>,
    pub subtypes: Vec<String>,
}

/// Model of one binding.
#[verifier::ext_equal]
pub struct TypeBindingView {
    pub name: Seq<char>,
    pub props: Seq<ResolvedPropertyView>,
    pub subtypes: Seq<Seq<char>>,
}

/// Models of a property list, elementwise.
pub open spec fn rprops_view(s: Seq<ResolvedProperty>) -> Seq<ResolvedPropertyView> {
    Seq::new(s.len(), |i: int| resolved_property_view(s[i]))
}

/// Model of one binding.
pub open spec fn type_binding_view(b: TypeBinding) -> TypeBindingView {
    TypeBindingView { name: b.name@, props: rprops_view(b.props@), subtypes: strs_view(b.subtypes@) }
}

impl View for TypeBinding {
    type V = TypeBindingView;

    open spec fn view(&self) -> TypeBindingView {
        type_binding_view(*self)
    }
}

/// The whole compiled table, one binding per schema type, in schema order.
#[derive(Debug, PartialEq)]
pub struct BindingTable {
    pub types: Vec<TypeBinding>,
}

/// Model of the table.
pub type TableView = Seq<TypeBindingView>;

/// Model of the table.
pub open spec fn table_view(t: BindingTable) -> TableView {
    Seq::new(t.types@.len(), |i: int| type_binding_view(t.types@[i]))
}

impl View for BindingTable {
    type V = TableView;

    open spec fn view(&self) -> TableView {
        table_view(*self)
    }
}

/// Position of the binding of the named type, if any.
pub open spec fn binding_index(t: TableView, name: Seq<char>) -> Option<int>
    decreases t.len(),
{
    if t.len() == 0 {
        None
    } else if t[0].name == name {
        Some(0int)
    } else {
        match binding_index(t.drop_first(), name) {
            Some(i) => Some(i + 1),
            None => None,
        }
    }
}

/// `binding_index` is within bounds and finds its name.
pub proof fn lemma_binding_index(t: TableView, name: Seq<char>)
    ensures
        match binding_index(t, name) {
            Some(i) => 0 <= i < t.len() && t[i].name == name,
            None => forall|j: int| 0 <= j < t.len() ==> (#[trigger] t[j]).name != name,
        },
    decreases t.len(),
{
    if t.len() > 0 && t[0].name != name {
        lemma_binding_index(t.drop_first(), name);
        match binding_index(t.drop_first(), name) {
            Some(i) => {
                assert(t.drop_first()[i] == t[i + 1]);
            },
            None => {
                assert forall|j: int| 0 <= j < t.len() implies (#[trigger] t[j]).name != name by {
                    if j > 0 {
                        assert(t.drop_first()[j - 1] == t[j]);
                    }
                }
            },
        }
    }
}

/// The first matching binding is the one `binding_index` names.
pub proof fn lemma_binding_index_first(t: TableView, name: Seq<char>, f: int)
    requires
        0 <= f < t.len(),
        t[f].name == name,
        forall|j: int| 0 <= j < f ==> (#[trigger] t[j]).name != name,
    ensures
        binding_index(t, name) == Some(f),
    decreases f,
{
    if f > 0 {
        assert(t.drop_first()[f - 1] == t[f]);
        assert forall|j: int| 0 <= j < f - 1 implies (#[trigger] t.drop_first()[j]).name
            != name by {
            assert(t.drop_first()[j] == t[j + 1]);
        }
        lemma_binding_index_first(t.drop_first(), name, f - 1);
    }
}

/// The binding of the named type, if any.
pub fn find_binding<'a>(table: &'a BindingTable, name: &String) -> (r: Option<&'a TypeBinding>)
    ensures
        match r {
            Some(b) => binding_index(table@, name@) matches Some(i) && table@[i] == b@,
            None => binding_index(table@, name@) is None,
        },
{
    let ghost tv = table@;
    let n = table.types.len();
    let mut i: usize = 0;
    while i < n
        invariant
            i <= n,
            n == table.types@.len(),
            tv == table@,
            forall|j: int| 0 <= j < i ==> (#[trigger] tv[j]).name != name@,
        decreases n - i,
    {
        if table.types[i].name.eq(name) {
            proof {
                assert(tv[i as int].name == table.types@[i as int].name@);
                lemma_binding_index_first(tv, name@, i as int);
            }
            return Some(&table.types[i]);
        }
        proof {
            assert(tv[i as int].name == table.types@[i as int].name@);
        }
        i = i + 1;
    }
    proof {
        lemma_binding_index(tv, name@);
    }
    None
}

/// One declared property, resolved: canonical tag settled, wire keys
/// split out, the type expression read.
pub open spec fn spec_resolve_prop(name: Seq<char>, pd: PropertyDefView) -> Result<
    ResolvedPropertyView,
    SchemaErrorView,
> {
    match pd {
        PropertyDefView::Simple { tag, property_type, aka, uri: _, doc: _, kind } => match
            spec_parse_value_type(property_type) {
            Some(vt) => Ok(
                ResolvedPropertyView {
                    name,
                    kind,
                    tag: default_tag(tag, name),
                    aliases: aka,
                    container: None,
                    value_type: vt,
                },
            ),
            None => Err(SchemaErrorView::MalformedType(property_type)),
        },
        PropertyDefView::LangContainer {
            tag,
            property_type,
            container_tag,
            aka,
            container_aka,
            uri: _,
            doc: _,
            kind,
        } => match spec_parse_value_type(property_type) {
            Some(vt) => Ok(
                ResolvedPropertyView {
                    name,
                    kind,
                    tag: default_tag(tag, name),
                    aliases: aka,
                    container: Some(ContainerTagsView { tag: container_tag, aliases: container_aka }),
                    value_type: vt,
                },
            ),
            None => Err(SchemaErrorView::MalformedType(property_type)),
        },
    }
}

/// A whole property table resolved, first fault wins.
pub open spec fn spec_resolve_props(props: PropsView) -> Result<
    Seq<ResolvedPropertyView>,
    SchemaErrorView,
>
    decreases props.len(),
{
    if props.len() == 0 {
        Ok(Seq::empty())
    } else {
        match spec_resolve_props(props.drop_last()) {
            Err(e) => Err(e),
            Ok(acc) => match spec_resolve_prop(props.last().0, props.last().1) {
                Err(e) => Err(e),
                Ok(rp) => Ok(acc.push(rp)),
            },
        }
    }
}

/// One type compiled: its effective properties resolved and its subtype
/// set computed.  The descent allowance is the number of schema types,
/// which an acyclic schema can never exhaust.
pub open spec fn spec_compile_type(s: SchemaView, name: Seq<char>, td: crate::schema::TypeDefView)
    -> Result<TypeBindingView, SchemaErrorView> {
    match spec_collect_props(s, td, s.len()) {
        Err(e) => Err(e),
        Ok(props) => match spec_resolve_props(props) {
            Err(e) => Err(e),
            Ok(rps) => Ok(
                TypeBindingView { name, props: rps, subtypes: spec_subtypes(s, name) },
            ),
        },
    }
}

/// The table of the first `k` schema types, first fault wins.
pub open spec fn spec_compile_upto(s: SchemaView, k: int) -> Result<TableView, SchemaErrorView>
    decreases k,
{
    if k <= 0 {
        Ok(Seq::empty())
    } else {
        match spec_compile_upto(s, k - 1) {
            Err(e) => Err(e),
            Ok(acc) => match spec_compile_type(s, s[k - 1].0, s[k - 1].1) {
                Err(e) => Err(e),
                Ok(tb) => Ok(acc.push(tb)),
            },
        }
    }
}

/// The compiled table of a whole schema.
pub open spec fn spec_compile(s: SchemaView) -> Result<TableView, SchemaErrorView> {
    spec_compile_upto(s, s.len() as int)
}

/// Resolves one declared property, as `spec_resolve_prop` describes.
fn resolve_prop(name: String, pd: PropertyDef) -> (r: Result<ResolvedProperty, SchemaError>)
    ensures
        match r {
            Ok(rp) => spec_resolve_prop(name@, pd@) == Ok::<
                ResolvedPropertyView,
                SchemaErrorView,
            >(rp@),
            Err(e) => spec_resolve_prop(name@, pd@) == Err::<
                ResolvedPropertyView,
                SchemaErrorView,
            >(e@),
        },
{
    match pd {
        PropertyDef::Simple { tag, property_type, aka, uri: _, doc: _, kind } => {
            let vt = match parse_value_type(property_type.as_str()) {
                Ok(vt) => vt,
                Err(e) => {
                    return Err(e);
                },
            };
            let tag = match tag {
                Some(t) => t,
                None => name.clone(),
            };
            let rp = ResolvedProperty {
                name,
                kind,
                tag,
                aliases: aka,
                container: None,
                value_type: vt,
            };
            proof {
                assert(rp@ =~= spec_resolve_prop(rp.name@, pd@)->Ok_0);
            }
            Ok(rp)
        },
        PropertyDef::LangContainer {
            tag,
            property_type,
            container_tag,
            aka,
            container_aka,
            uri: _,
            doc: _,
            kind,
        } => {
            let vt = match parse_value_type(property_type.as_str()) {
                Ok(vt) => vt,
                Err(e) => {
                    return Err(e);
                },
            };
            let tag = match tag {
                Some(t) => t,
                None => name.clone(),
            };
            let rp = ResolvedProperty {
                name,
                kind,
                tag,
                aliases: aka,
                container: Some(ContainerTags { tag: container_tag, aliases: container_aka }),
                value_type: vt,
            };
            proof {
                assert(rp@ =~= spec_resolve_prop(rp.name@, pd@)->Ok_0);
            }
            Ok(rp)
        },
    }
}

/// Compiles a schema into its binding table, as `spec_compile` describes:
/// per type, the inheritance-resolved property set and the subtype closure.
#[verifier::loop_isolation(false)]
pub fn compile_schema(schema: &Schema) -> (r: Result<BindingTable, SchemaError>)
    ensures
        match r {
            Ok(t) => spec_compile(schema@) == Ok::<TableView, SchemaErrorView>(t@),
            Err(e) => spec_compile(schema@) == Err::<TableView, SchemaErrorView>(e@),
        },
{
    let ghost sv = schema@;
    let n = schema.types.len();
    let fuel = n;
    let mut types: Vec<TypeBinding> = Vec::new();
    let mut k: usize = 0;
    proof {
        assert(Seq::new(types@.len(), |i: int| type_binding_view(types@[i])) =~= Seq::<
            TypeBindingView,
        >::empty());
    }
    while k < n
        invariant
            k <= n,
            n == schema.types@.len(),
            spec_compile_upto(sv, k as int) == Ok::<TableView, SchemaErrorView>(
                Seq::new(types@.len(), |i: int| type_binding_view(types@[i])),
            ),
        decreases n - k,
    {
        let name = &schema.types[k].0;
        let td = &schema.types[k].1;
        proof {
            assert(sv[k as int] == (name@, td@));
        }
        let props = match collect_properties(schema, td, fuel) {
            Ok(p) => p,
            Err(e) => {
                proof {
                    lemma_compile_upto_err(sv, k as int + 1);
                }
                return Err(e);
            },
        };
        let ghost propsv = crate::schema::props_view(props@);
        // Resolve each property in table order.
        let mut rps: Vec<ResolvedProperty> = Vec::new();
        let mut rest = props;
        let ghost mut done: int = 0;
        proof {
            assert(propsv.subrange(0, 0) =~= Seq::<
                (Seq<char>, PropertyDefView),
            >::empty());
            assert(spec_resolve_props(propsv.subrange(0, 0)) == Ok::<
                Seq<ResolvedPropertyView>,
                SchemaErrorView,
            >(rprops_view(rps@))) by {
                assert(rprops_view(rps@) =~= Seq::<ResolvedPropertyView>::empty());
            }
        }
        while rest.len() > 0
            invariant
                0 <= done,
                done + rest@.len() == propsv.len(),
                crate::schema::props_view(rest@) =~= propsv.skip(done),
                spec_resolve_props(propsv.subrange(0, done)) == Ok::<
                    Seq<ResolvedPropertyView>,
                    SchemaErrorView,
                >(rprops_view(rps@)),
            decreases rest@.len(),
        {
            let ghost rest_full = crate::schema::props_view(rest@);
            let kv = rest.remove(0);
            proof {
                assert(crate::schema::props_view(rest@) =~= rest_full.drop_first());
                assert(rest_full[0] == (kv.0@, kv.1@));
                assert(rest_full[0] == propsv[done]);
                assert(crate::schema::props_view(rest@) =~= propsv.skip(done + 1));
                assert(propsv.subrange(0, done + 1).drop_last() =~= propsv.subrange(0, done));
                assert(propsv.subrange(0, done + 1).last() == propsv[done]);
            }
            match resolve_prop(kv.0, kv.1) {
                Ok(rp) => {
                    let ghost before = rprops_view(rps@);
                    rps.push(rp);
                    proof {
                        assert(rprops_view(rps@) =~= before.push(rp@));
                        done = done + 1;
                    }
                },
                Err(e) => {
                    proof {
                        lemma_resolve_props_err(propsv, done + 1);
                        lemma_compile_upto_err(sv, k as int + 1);
                    }
                    return Err(e);
                },
            }
        }
        proof {
            assert(propsv.subrange(0, propsv.len() as int) =~= propsv);
        }
        let subtypes = collect_subtypes(schema, name);
        let tb = TypeBinding { name: name.clone(), props: rps, subtypes };
        let ghost before = Seq::new(types@.len(), |i: int| type_binding_view(types@[i]));
        types.push(tb);
        proof {
            assert(Seq::new(types@.len(), |i: int| type_binding_view(types@[i])) =~= before.push(
                spec_compile_type(sv, sv[k as int].0, sv[k as int].1)->Ok_0,
            ));
        }
        k = k + 1;
    }
    let t = BindingTable { types };
    proof {
        assert(t@ =~= Seq::new(t.types@.len(), |i: int| type_binding_view(t.types@[i])));
    }
    Ok(t)
}

/// A fault on an earlier property decides the whole resolution.
proof fn lemma_resolve_props_err(s: PropsView, k: int)
    requires
        0 <= k <= s.len(),
        spec_resolve_props(s.subrange(0, k)) is Err,
    ensures
        spec_resolve_props(s) == spec_resolve_props(s.subrange(0, k)),
    decreases s.len() - k,
{
    if k < s.len() {
        assert(s.subrange(0, k + 1).drop_last() =~= s.subrange(0, k));
        lemma_resolve_props_err(s, k + 1);
    } else {
        assert(s.subrange(0, k) =~= s);
    }
}

/// A fault on an earlier type decides the whole compilation.
proof fn lemma_compile_upto_err(s: SchemaView, k: int)
    requires
        0 <= k <= s.len(),
        spec_compile_upto(s, k) is Err,
    ensures
        spec_compile(s) == spec_compile_upto(s, k),
    decreases s.len() - k,
{
    if k < s.len() {
        lemma_compile_upto_err(s, k + 1);
    }
}

} // verus!
