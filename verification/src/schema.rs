//! The schema model: the declarative description of types, inheritance
//! relations and property cardinality rules that the binding compiler
//! consumes.  A schema is loaded once and never changed afterwards.

use vstd::prelude::*;

use crate::error::strs_view;

verus! {

/// The cardinality of a property: a required scalar, an optional scalar,
/// or a `0..N` sequence with merge-on-duplicate-key semantics.
#[derive(Debug, Clone, Copy, PartialEq, Eq, Structural)]
pub enum PropertyKind {
    Required,
    Functional,
    Normal,
}

/// The type a property's values decode into.
#[derive(Debug, PartialEq)]
pub enum ValueType {
    /// A raw document tree, carried through unread.
    Any,
    /// A JSON string.
    Str,
    /// A JSON boolean.
    Bool,
    /// A JSON integer.
    Int,
    /// An identifier: a string holding an absolute URL.
    Url,
    /// An XSD date-time.
    DateTime,
    /// An XSD duration.
    Duration,
    /// An object of the named schema type, decoded with subtype dispatch.
    Object(String),
    /// A reference-or-inline value.
    Remote(Box<ValueType>),
    /// An ordered either-of value.
    Either(Box<ValueType>, Box<ValueType>),
}

/// Model of a value type.
#[verifier::ext_equal]
pub enum ValueTypeView {
    Any,
    Str,
    Bool,
    Int,
    Url,
    DateTime,
    Duration,
    Object(Seq<char>),
    Remote(Box<ValueTypeView>),
    Either(Box<ValueTypeView>, Box<ValueTypeView>),
}

/// Model of a value type.
pub open spec fn value_type_view(t: ValueType) -> ValueTypeView
    decreases t,
{
    match t {
        ValueType::Any => ValueTypeView::Any,
        ValueType::Str => ValueTypeView::Str,
        ValueType::Bool => ValueTypeView::Bool,
        ValueType::Int => ValueTypeView::Int,
        ValueType::Url => ValueTypeView::Url,
        ValueType::DateTime => ValueTypeView::DateTime,
        ValueType::Duration => ValueTypeView::Duration,
        ValueType::Object(n) => ValueTypeView::Object(n@),
        ValueType::Remote(t) => ValueTypeView::Remote(Box::new(value_type_view(*t))),
        ValueType::Either(l, r) => ValueTypeView::Either(
            Box::new(value_type_view(*l)),
            Box::new(value_type_view(*r)),
        ),
    }
}

impl View for ValueType {
    type V = ValueTypeView;

    open spec fn view(&self) -> ValueTypeView {
        value_type_view(*self)
    }
}

/// A property as the schema declares it: either a simple wire key, or a
/// language container carrying a second wire key with a language-keyed map.
#[derive(Debug, PartialEq)]
pub enum PropertyDef {
    Simple {
        /// The canonical wire tag; the property's name when absent.
        tag: Option<String>,
        /// The value-type expression.
        property_type: String,
        /// Additional wire keys accepted on decode.
        aka: Vec<String>,
        /// The property's vocabulary identifier.
        uri: String,
        /// Prose documentation.
        doc: String,
        /// The cardinality.
        kind: PropertyKind,
    },
    LangContainer {
        tag: Option<String>,
        property_type: String,
        /// The wire key of the language-keyed map.
        container_tag: String,
        aka: Vec<String>,
        /// Additional wire keys accepted for the language-keyed map.
        container_aka: Vec<String>,
        uri: String,
        doc: String,
        kind: PropertyKind,
    },
}

/// Model of a property declaration.
#[verifier::ext_equal]
pub enum PropertyDefView {
    Simple {
        tag: Option<Seq<char>>,
        property_type: Seq<char>,
        aka: Seq<Seq<char>>,
        uri: Seq<char>,
        doc: Seq<char>,
        kind: PropertyKind,
    },
    LangContainer {
        tag: Option<Seq<char>>,
        property_type: Seq<char>,
        container_tag: Seq<char>,
        aka: Seq<Seq<char>>,
        container_aka: Seq<Seq<char>>,
        uri: Seq<char>,
        doc: Seq<char>,
        kind: PropertyKind,
    },
}

/// Model of an optional text.
pub open spec fn opt_str_view(t: Option<String>) -> Option<Seq<char>> {
    match t {
        Some(s) => Some(s@),
        None => None,
    }
}

/// Model of a property declaration.
pub open spec fn property_def_view(p: PropertyDef) -> PropertyDefView {
    match p {
        PropertyDef::Simple { tag, property_type, aka, uri, doc, kind } => PropertyDefView::Simple {
            tag: opt_str_view(tag),
            property_type: property_type@,
            aka: strs_view(aka@),
            uri: uri@,
            doc: doc@,
            kind,
        },
        PropertyDef::LangContainer {
            tag,
            property_type,
            container_tag,
            aka,
            container_aka,
            uri,
            doc,
            kind,
        } => PropertyDefView::LangContainer {
            tag: opt_str_view(tag),
            property_type: property_type@,
            container_tag: container_tag@,
            aka: strs_view(aka@),
            container_aka: strs_view(container_aka@),
            uri: uri@,
            doc: doc@,
            kind,
        },
    }
}

impl View for PropertyDef {
    type V = PropertyDefView;

    open spec fn view(&self) -> PropertyDefView {
        property_def_view(*self)
    }
}

/// A per-type override of a property's canonical wire tag; the previous
/// tag becomes one more alias, so old documents stay decodable.
#[derive(Debug, PartialEq)]
pub enum PreferredPropertyName {
    Simple(String),
    LangContainer { default: String, container: String },
}

/// Model of a preferred-name override.
#[verifier::ext_equal]
pub enum PreferredPropertyNameView {
    Simple(Seq<char>),
    LangContainer { default: Seq<char>, container: Seq<char> },
}

/// Model of a preferred-name override.
pub open spec fn preferred_name_view(p: PreferredPropertyName) -> PreferredPropertyNameView {
    match p {
        PreferredPropertyName::Simple(s) => PreferredPropertyNameView::Simple(s@),
        PreferredPropertyName::LangContainer { default, container } =>
            PreferredPropertyNameView::LangContainer { default: default@, container: container@ },
    }
}

impl View for PreferredPropertyName {
    type V = PreferredPropertyNameView;

    open spec fn view(&self) -> PreferredPropertyNameView {
        preferred_name_view(*self)
    }
}

/// One type of the schema.
#[derive(Debug, PartialEq)]
pub struct TypeDef {
    /// The type's vocabulary identifier.
    pub uri: String,
    /// The supertypes; inheritance must form a DAG.
    pub extends: Vec<String>,
    /// The properties the type declares itself, keyed by name.
    pub properties: Vec<(String, PropertyDef)>,
    /// Canonical-tag overrides, keyed by property name.
    pub preferred_property_name: Vec<(String, PreferredPropertyName)>,
    /// Names suppressed even when inherited.
    pub except_properties: Vec<String>,
    /// Prose documentation.
    pub doc: String,
}

/// Model of a type.
#[verifier::ext_equal]
pub struct TypeDefView {
    pub uri: Seq<char>,
    pub extends: Seq<Seq<char>>,
    pub properties: Seq<(Seq<char>, PropertyDefView)>,
    pub preferred_property_name: Seq<(Seq<char>, PreferredPropertyNameView)>,
    pub except_properties: Seq<Seq<char>>,
    pub doc: Seq<char>,
}

/// Models of a name-keyed table, elementwise.
pub open spec fn props_view(s: Seq<(String, PropertyDef)>) -> Seq<(Seq<char>, PropertyDefView)> {
    Seq::new(s.len(), |i: int| (s[i].0@, property_def_view(s[i].1)))
}

/// Models of a name-keyed override table, elementwise.
pub open spec fn prefs_view(s: Seq<(String, PreferredPropertyName)>) -> Seq<
    (Seq<char>, PreferredPropertyNameView),
> {
    Seq::new(s.len(), |i: int| (s[i].0@, preferred_name_view(s[i].1)))
}

/// Model of a type.
pub open spec fn type_def_view(t: TypeDef) -> TypeDefView {
    TypeDefView {
        uri: t.uri@,
        extends: strs_view(t.extends@),
        properties: props_view(t.properties@),
        preferred_property_name: prefs_view(t.preferred_property_name@),
        except_properties: strs_view(t.except_properties@),
        doc: t.doc@,
    }
}

impl View for TypeDef {
    type V = TypeDefView;

    open spec fn view(&self) -> TypeDefView {
        type_def_view(*self)
    }
}

/// A whole schema: the types in declaration order, keyed by name.
#[derive(Debug, PartialEq)]
pub struct Schema {
    pub types: Vec<(String, TypeDef)>,
}

/// Model of a schema.
pub open spec fn schema_view(s: Schema) -> Seq<(Seq<char>, TypeDefView)> {
    Seq::new(s.types@.len(), |i: int| (s.types@[i].0@, type_def_view(s.types@[i].1)))
}

impl View for Schema {
    type V = Seq<(Seq<char>, TypeDefView)>;

    open spec fn view(&self) -> Seq<(Seq<char>, TypeDefView)> {
        schema_view(*self)
    }
}

} // verus!

verus! {

/// Whether `c` may appear in a type-expression identifier.
pub open spec fn is_ident_char(c: char) -> bool {
    let u = c as u32;
    (97 <= u && u <= 122) || (65 <= u && u <= 90) || (48 <= u && u <= 57) || c == '_'
}

/// First position at or after `i` that does not hold an identifier
/// character.
pub open spec fn ident_end(s: Seq<char>, i: int) -> int
    decreases s.len() - i,
{
    if i < 0 || i >= s.len() || !is_ident_char(s[i]) {
        i
    } else {
        ident_end(s, i + 1)
    }
}

/// The leaf type an identifier names; an unknown identifier names a
/// schema type, decoded with subtype dispatch.
pub open spec fn leaf_type(id: Seq<char>) -> ValueTypeView {
    if id == "Any"@ {
        ValueTypeView::Any
    } else if id == "String"@ {
        ValueTypeView::Str
    } else if id == "Bool"@ {
        ValueTypeView::Bool
    } else if id == "Int"@ {
        ValueTypeView::Int
    } else if id == "Url"@ {
        ValueTypeView::Url
    } else if id == "DateTime"@ {
        ValueTypeView::DateTime
    } else if id == "Duration"@ {
        ValueTypeView::Duration
    } else {
        ValueTypeView::Object(id)
    }
}

/// One type expression at cursor `i`: an identifier, `Remotable<T>`, or
/// `Or<L, R>`; yields the type and the cursor after it.  `fuel` bounds the
/// descent and the text's length always suffices.
pub open spec fn spec_parse_ty(s: Seq<char>, i: int, fuel: nat) -> Option<(ValueTypeView, int)>
    decreases fuel,
{
    if fuel == 0 {
        None
    } else {
        let e = ident_end(s, i);
        if e <= i {
            None
        } else if e < s.len() && s[e] == '<' {
            let id = s.subrange(i, e);
            if id == "Remotable"@ {
                match spec_parse_ty(s, e + 1, (fuel - 1) as nat) {
                    Some(tj) => if tj.1 < s.len() && s[tj.1] == '>' {
                        Some((ValueTypeView::Remote(Box::new(tj.0)), tj.1 + 1))
                    } else {
                        None
                    },
                    None => None,
                }
            } else if id == "Or"@ {
                match spec_parse_ty(s, e + 1, (fuel - 1) as nat) {
                    Some(lj) => if lj.1 < s.len() && s[lj.1] == ',' {
                        match spec_parse_ty(s, lj.1 + 1, (fuel - 1) as nat) {
                            Some(rk) => if rk.1 < s.len() && s[rk.1] == '>' {
                                Some(
                                    (
                                        ValueTypeView::Either(Box::new(lj.0), Box::new(rk.0)),
                                        rk.1 + 1,
                                    ),
                                )
                            } else {
                                None
                            },
                            None => None,
                        }
                    } else {
                        None
                    },
                    None => None,
                }
            } else {
                None
            }
        } else {
            Some((leaf_type(s.subrange(i, e)), e))
        }
    }
}

/// A whole text read as one type expression.
pub open spec fn spec_parse_value_type(s: Seq<char>) -> Option<ValueTypeView> {
    match spec_parse_ty(s, 0, s.len()) {
        Some(tj) => if tj.1 == s.len() {
            Some(tj.0)
        } else {
            None
        },
        None => None,
    }
}

/// Scans the identifier run starting at `i`.
fn ident_scan(s: &str, n: usize, i: usize) -> (e: usize)
    requires
        n == s@.len(),
        i <= n,
    ensures
        e == ident_end(s@, i as int),
        i <= e <= n,
{
    let mut j: usize = i;
    loop
        invariant
            i <= j <= n,
            n == s@.len(),
            ident_end(s@, i as int) == ident_end(s@, j as int),
        ensures
            i <= j <= n,
            ident_end(s@, i as int) == j,
        decreases n - j,
    {
        if j >= n {
            break;
        }
        let c = s.get_char(j);
        let u = c as u32;
        if !((97 <= u && u <= 122) || (65 <= u && u <= 90) || (48 <= u && u <= 57) || c == '_') {
            break;
        }
        j = j + 1;
    }
    j
}

/// Whether `s[i .. e)` is exactly the text `lit`.
fn range_matches(s: &str, n: usize, i: usize, e: usize, lit: &str) -> (r: bool)
    requires
        n == s@.len(),
        i <= e <= n,
    ensures
        r == (s@.subrange(i as int, e as int) == lit@),
{
    let m = lit.unicode_len();
    if e - i != m {
        proof {
            assert(s@.subrange(i as int, e as int).len() != lit@.len());
        }
        return false;
    }
    let mut k: usize = 0;
    while k < m
        invariant
            k <= m,
            m == lit@.len(),
            n == s@.len(),
            i + m == e <= n,
            forall|t: int| 0 <= t < k ==> s@.subrange(i as int, e as int)[t] == lit@[t],
        decreases m - k,
    {
        let a = s.get_char(i + k);
        let b = lit.get_char(k);
        if a != b {
            proof {
                assert(s@.subrange(i as int, e as int)[k as int] != lit@[k as int]);
            }
            return false;
        }
        proof {
            assert(s@.subrange(i as int, e as int)[k as int] == lit@[k as int]);
        }
        k = k + 1;
    }
    proof {
        assert(s@.subrange(i as int, e as int) =~= lit@);
    }
    true
}

/// Reads one type expression at cursor `i`, as `spec_parse_ty` describes.
fn parse_ty_at(s: &str, n: usize, i: usize, fuel: usize) -> (r: Option<(ValueType, usize)>)
    requires
        n == s@.len(),
        i <= n,
    ensures
        match r {
            Some(tj) => tj.1 <= n && spec_parse_ty(s@, i as int, fuel as nat) == Some(
                (tj.0@, tj.1 as int),
            ),
            None => spec_parse_ty(s@, i as int, fuel as nat) is None,
        },
    decreases fuel,
{
    if fuel == 0 {
        return None;
    }
    let e = ident_scan(s, n, i);
    if e <= i {
        return None;
    }
    if e < n && s.get_char(e) == '<' {
        if range_matches(s, n, i, e, "Remotable") {
            match parse_ty_at(s, n, e + 1, fuel - 1) {
                Some((t, j)) => {
                    if j < n && s.get_char(j) == '>' {
                        Some((ValueType::Remote(Box::new(t)), j + 1))
                    } else {
                        None
                    }
                },
                None => None,
            }
        } else if range_matches(s, n, i, e, "Or") {
            match parse_ty_at(s, n, e + 1, fuel - 1) {
                Some((l, j)) => {
                    if j < n && s.get_char(j) == ',' {
                        match parse_ty_at(s, n, j + 1, fuel - 1) {
                            Some((rv, k)) => {
                                if k < n && s.get_char(k) == '>' {
                                    Some((ValueType::Either(Box::new(l), Box::new(rv)), k + 1))
                                } else {
                                    None
                                }
                            },
                            None => None,
                        }
                    } else {
                        None
                    }
                },
                None => None,
            }
        } else {
            None
        }
    } else {
        let t = if range_matches(s, n, i, e, "Any") {
            ValueType::Any
        } else if range_matches(s, n, i, e, "String") {
            ValueType::Str
        } else if range_matches(s, n, i, e, "Bool") {
            ValueType::Bool
        } else if range_matches(s, n, i, e, "Int") {
            ValueType::Int
        } else if range_matches(s, n, i, e, "Url") {
            ValueType::Url
        } else if range_matches(s, n, i, e, "DateTime") {
            ValueType::DateTime
        } else if range_matches(s, n, i, e, "Duration") {
            ValueType::Duration
        } else {
            let mut id = String::new();
            let mut k: usize = i;
            while k < e
                invariant
                    i <= k <= e <= n,
                    n == s@.len(),
                    id@ == s@.subrange(i as int, k as int),
                decreases e - k,
            {
                crate::xsd::push_text_char(&mut id, s.get_char(k));
                proof {
                    assert(id@ =~= s@.subrange(i as int, k as int + 1));
                }
                k = k + 1;
            }
            ValueType::Object(id)
        };
        proof {
            assert(t@ == leaf_type(s@.subrange(i as int, e as int)));
        }
        Some((t, e))
    }
}

/// Reads a whole property-type expression.
pub fn parse_value_type(s: &str) -> (r: Result<ValueType, crate::error::SchemaError>)
    ensures
        match r {
            Ok(t) => spec_parse_value_type(s@) == Some(t@),
            Err(e) => spec_parse_value_type(s@) is None && e@
                == crate::error::SchemaErrorView::MalformedType(s@),
        },
{
    let n = s.unicode_len();
    match parse_ty_at(s, n, 0, n) {
        Some((t, j)) => {
            if j == n {
                Ok(t)
            } else {
                Err(crate::error::SchemaError::MalformedType(s.to_owned()))
            }
        },
        None => Err(crate::error::SchemaError::MalformedType(s.to_owned())),
    }
}

} // verus!
