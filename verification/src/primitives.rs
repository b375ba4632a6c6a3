//! The runtime primitives the bindings are built from: the cardinality
//! container, the ordered either-of sum, the reference-or-inline sum, the
//! language container, and the merge capability used on duplicate keys.

use vstd::prelude::*;

verus! {

/// A `0..N`-valued property: a sequence with list semantics on merge.
#[derive(Debug, Clone, PartialEq)]
pub struct Property<T>(pub Vec<T>);

/// An ordered either-of sum.  Decoding tries the first side completely
/// before it ever looks at the second: a value that fits both sides is
/// always the first.
#[derive(Debug, Clone, PartialEq)]
pub enum Or<T, U> {
    Prim(T),
    Snd(U),
}

impl<L, R> Or<L, R> {
    /// The first side, when this is it.
    pub fn prim(&self) -> (r: Option<&L>)
        ensures
            match *self {
                Or::Prim(_) => r matches Some(l) && *l == self->Prim_0,
                Or::Snd(_) => r is None,
            },
    {
        match self {
            Or::Prim(l) => Some(l),
            Or::Snd(_) => None,
        }
    }

    /// The second side, when this is it.
    pub fn snd(&self) -> (r: Option<&R>)
        ensures
            match *self {
                Or::Prim(_) => r is None,
                Or::Snd(_) => r matches Some(x) && *x == self->Snd_0,
            },
    {
        match self {
            Or::Prim(_) => None,
            Or::Snd(r) => Some(r),
        }
    }
}

/// A value that may be a bare reference to a remote object, or the object
/// inlined.
#[derive(Debug, Clone, PartialEq)]
pub enum Remotable<T> {
    Remote(String),
    Inline(T),
}

/// Access to a value's own identifier.
pub trait ObjectId {
    /// The identifier the value exposes, as a model.
    spec fn id_spec(&self) -> Option<Seq<char>>;

    /// The identifier the value exposes.
    fn object_id(&self) -> (r: Option<&String>)
        ensures
            match r {
                Some(s) => self.id_spec() == Some(s@),
                None => self.id_spec() is None,
            },
    ;
}

impl<T: ObjectId> ObjectId for Remotable<T> {
    open spec fn id_spec(&self) -> Option<Seq<char>> {
        match self {
            Remotable::Remote(u) => Some(u@),
            Remotable::Inline(t) => t.id_spec(),
        }
    }

    /// A reference names its object directly; an inlined object is asked.
    fn object_id(&self) -> (r: Option<&String>)
        ensures
            match r {
                Some(s) => self.id_spec() == Some(s@),
                None => self.id_spec() is None,
            },
    {
        match self {
            Remotable::Remote(u) => Some(u),
            Remotable::Inline(t) => t.object_id(),
        }
    }
}

/// Whether an encoder would omit this value's key entirely.
pub trait SkipSerialization {
    /// The omission rule, as a model.
    spec fn skip_spec(&self) -> bool;

    /// Whether the key is omitted.
    fn should_skip(&self) -> (r: bool)
        ensures
            r == self.skip_spec(),
    ;
}

impl<T> SkipSerialization for Option<T> {
    open spec fn skip_spec(&self) -> bool {
        *self is None
    }

    /// An absent optional is omitted.
    fn should_skip(&self) -> (r: bool)
        ensures
            r == self.skip_spec(),
    {
        self.is_none()
    }
}

impl<T> SkipSerialization for Property<T> {
    open spec fn skip_spec(&self) -> bool {
        self.0@.len() == 0
    }

    /// An empty sequence is omitted.
    fn should_skip(&self) -> (r: bool)
        ensures
            r == self.skip_spec(),
    {
        self.0.len() == 0
    }
}

impl<K, V> SkipSerialization for Vec<(K, V)> {
    open spec fn skip_spec(&self) -> bool {
        self@.len() == 0
    }

    /// An empty map is omitted.
    fn should_skip(&self) -> (r: bool)
        ensures
            r == self.skip_spec(),
    {
        self.len() == 0
    }
}

/// How two occurrences of one logical property combine.
pub trait MergeableProperty: Sized {
    /// The merge's effect: relates the value before, the value merged in,
    /// and the value after.
    spec fn merge_rel(pre: Self, other: Self, post: Self) -> bool;

    /// Merges `other` into `self`.
    fn merge(&mut self, other: Self)
        ensures
            Self::merge_rel(*old(self), other, *final(self)),
    ;
}

impl<T> MergeableProperty for Property<T> {
    /// Lists concatenate.
    open spec fn merge_rel(pre: Self, other: Self, post: Self) -> bool {
        post.0@ == pre.0@ + other.0@
    }

    fn merge(&mut self, other: Self)
        ensures
            Self::merge_rel(*old(self), other, *final(self)),
    {
        let mut rest = other;
        self.0.append(&mut rest.0);
    }
}

impl<T: MergeableProperty> MergeableProperty for Option<T> {
    /// Two present values merge; one present value stands.
    open spec fn merge_rel(pre: Self, other: Self, post: Self) -> bool {
        match (pre, other) {
            (Some(x), Some(y)) => post matches Some(z) && T::merge_rel(x, y, z),
            (None, Some(y)) => post == Some(y),
            (x, None) => post == x,
        }
    }

    fn merge(&mut self, other: Self)
        ensures
            Self::merge_rel(*old(self), other, *final(self)),
    {
        match other {
            None => {},
            Some(y) => {
                let pre = self.take();
                match pre {
                    None => {
                        *self = Some(y);
                    },
                    Some(mut x) => {
                        x.merge(y);
                        *self = Some(x);
                    },
                }
            },
        }
    }
}

} // verus!

verus! {

// ---------------------------------------------------------------------------
// Association maps
// ---------------------------------------------------------------------------

/// Position of the first entry with key `k`, if any.
pub open spec fn key_index<V>(s: Seq<(String, V)>, k: Seq<char>) -> Option<int>
    decreases s.len(),
{
    if s.len() == 0 {
        None
    } else if s[0].0@ == k {
        Some(0int)
    } else {
        match key_index(s.drop_first(), k) {
            Some(i) => Some(i + 1),
            None => None,
        }
    }
}

/// The map with `v` written under `key`: the first entry with that key is
/// replaced in place, or a new entry is appended.
pub open spec fn assoc_upserted<V>(s: Seq<(String, V)>, key: String, v: V) -> Seq<(String, V)> {
    match key_index(s, key@) {
        Some(i) => s.update(i, (s[i].0, v)),
        None => s.push((key, v)),
    }
}

/// The map extended entry by entry, later writes winning.
pub open spec fn assoc_extended<V>(a: Seq<(String, V)>, b: Seq<(String, V)>) -> Seq<(String, V)>
    decreases b.len(),
{
    if b.len() == 0 {
        a
    } else {
        assoc_extended(assoc_upserted(a, b[0].0, b[0].1), b.drop_first())
    }
}

/// `key_index` is within bounds and finds its key.
pub proof fn lemma_key_index<V>(s: Seq<(String, V)>, k: Seq<char>)
    ensures
        match key_index(s, k) {
            Some(i) => 0 <= i < s.len() && s[i].0@ == k,
            None => forall|j: int| 0 <= j < s.len() ==> (#[trigger] s[j]).0@ != k,
        },
    decreases s.len(),
{
    if s.len() > 0 && s[0].0@ != k {
        lemma_key_index(s.drop_first(), k);
        match key_index(s.drop_first(), k) {
            Some(i) => {
                assert(s.drop_first()[i] == s[i + 1]);
            },
            None => {
                assert forall|j: int| 0 <= j < s.len() implies (#[trigger] s[j]).0@ != k by {
                    if j > 0 {
                        assert(s.drop_first()[j - 1] == s[j]);
                    }
                }
            },
        }
    }
}

/// The first matching entry is the one `key_index` names.
pub proof fn lemma_key_index_first<V>(s: Seq<(String, V)>, k: Seq<char>, f: int)
    requires
        0 <= f < s.len(),
        s[f].0@ == k,
        forall|j: int| 0 <= j < f ==> (#[trigger] s[j]).0@ != k,
    ensures
        key_index(s, k) == Some(f),
    decreases f,
{
    if f > 0 {
        assert(s[0].0@ != k);
        assert(s.drop_first()[f - 1] == s[f]);
        assert forall|j: int| 0 <= j < f - 1 implies (#[trigger] s.drop_first()[j]).0@ != k by {
            assert(s.drop_first()[j] == s[j + 1]);
        }
        lemma_key_index_first(s.drop_first(), k, f - 1);
    }
}

/// Writes `v` under `key`, as `assoc_upserted` describes.
pub fn assoc_upsert<T>(m: &mut Vec<(String, T)>, key: String, v: T)
    ensures
        final(m)@ == assoc_upserted(old(m)@, key, v),
{
    proof {
        lemma_key_index(m@, key@);
    }
    let n = m.len();
    let mut i: usize = 0;
    while i < n
        invariant
            i <= n,
            n == m@.len(),
            m@ == old(m)@,
            forall|j: int| 0 <= j < i ==> (#[trigger] m@[j]).0@ != key@,
        decreases n - i,
    {
        if m[i].0 == key {
            proof {
                lemma_key_index_first(m@, key@, i as int);
            }
            let pair = m.remove(i);
            m.insert(i, (pair.0, v));
            proof {
                assert(m@ =~= old(m)@.update(i as int, (old(m)@[i as int].0, v)));
            }
            return;
        }
        i = i + 1;
    }
    m.push((key, v));
    proof {
        assert(key_index(old(m)@, key@) is None) by {
            lemma_key_index(old(m)@, key@);
        }
    }
}

impl<V> MergeableProperty for Vec<(String, V)> {
    /// Map union: later writes win, key by key.
    open spec fn merge_rel(pre: Self, other: Self, post: Self) -> bool {
        post@ == assoc_extended(pre@, other@)
    }

    fn merge(&mut self, other: Self)
        ensures
            Self::merge_rel(*old(self), other, *final(self)),
    {
        let mut rest = other;
        while rest.len() > 0
            invariant
                assoc_extended(old(self)@, other@) == assoc_extended(self@, rest@),
            decreases rest.len(),
        {
            let ghost rest_full = rest@;
            let kv = rest.remove(0);
            proof {
                assert(rest@ =~= rest_full.drop_first());
            }
            let ghost before = self@;
            let ghost rest_before = rest@;
            assoc_upsert(self, kv.0, kv.1);
            proof {
                assert(assoc_extended(before, rest_full) == assoc_extended(self@, rest_before))
                    by {
                    assert(rest_full[0] == kv);
                    assert(rest_full.drop_first() =~= rest_before);
                }
            }
        }
        proof {
            assert(assoc_extended(self@, rest@) == self@);
        }
    }
}

// ---------------------------------------------------------------------------
// The language container
// ---------------------------------------------------------------------------

/// A property split into a language-neutral default value and a map from
/// language code to value.  The map is an association list whose keys are
/// unique and keep their first-insertion order.
#[derive(Debug, Clone, PartialEq)]
pub struct LangContainer<T> {
    pub default: Option<T>,
    pub per_lang: Vec<(String, T)>,
}

impl<T> Default for LangContainer<T> {
    /// The empty container: no default value, no languages.
    fn default() -> (r: Self)
        ensures
            r.default is None,
            r.per_lang@.len() == 0,
    {
        LangContainer { default: None, per_lang: Vec::new() }
    }
}

impl<T> LangContainer<T> {
    /// Merges shallowly: an incoming default value replaces the present
    /// one, and the language map is united with later writes winning.
    pub fn merge(&mut self, other: Self)
        ensures
            final(self).default == (if other.default is Some {
                other.default
            } else {
                old(self).default
            }),
            final(self).per_lang@ == assoc_extended(old(self).per_lang@, other.per_lang@),
    {
        let LangContainer { default, per_lang } = other;
        if default.is_some() {
            self.default = default;
        }
        MergeableProperty::merge(&mut self.per_lang, per_lang);
    }
}

/// One deep write into a language map, with the merged value `z` in hand:
/// a value under a fresh language is appended, one under a present
/// language is merged into what is there.
pub open spec fn deep_step_with<T: MergeableProperty>(
    pre: Seq<(String, T)>,
    kv: (String, T),
    z: T,
    post: Seq<(String, T)>,
) -> bool {
    match key_index(pre, kv.0@) {
        Some(i) => T::merge_rel(pre[i].1, kv.1, z) && post == pre.update(i, (pre[i].0, z)),
        None => post == pre.push(kv),
    }
}

/// One deep write into a language map: a value under a fresh language is
/// appended, one under a present language is merged into what is there.
pub open spec fn deep_step_rel<T: MergeableProperty>(
    pre: Seq<(String, T)>,
    kv: (String, T),
    post: Seq<(String, T)>,
) -> bool {
    exists|z: T| #[trigger] deep_step_with(pre, kv, z, post)
}

/// A chain of deep writes, entry by entry.
pub open spec fn deep_extended_rel<T: MergeableProperty>(
    pre: Seq<(String, T)>,
    add: Seq<(String, T)>,
    post: Seq<(String, T)>,
) -> bool
    decreases add.len(),
{
    if add.len() == 0 {
        post == pre
    } else {
        exists|mid: Seq<(String, T)>|
            #[trigger] deep_step_rel(pre, add[0], mid) && deep_extended_rel(
                mid,
                add.drop_first(),
                post,
            )
    }
}

/// A deep write with its merged value in hand.
proof fn lemma_deep_step_witness<T: MergeableProperty>(
    pre: Seq<(String, T)>,
    kv: (String, T),
    i: int,
    z: T,
    post: Seq<(String, T)>,
)
    requires
        key_index(pre, kv.0@) == Some(i),
        0 <= i < pre.len(),
        T::merge_rel(pre[i].1, kv.1, z),
        post == pre.update(i, (pre[i].0, z)),
    ensures
        deep_step_rel(pre, kv, post),
{
    assert(deep_step_with(pre, kv, z, post));
}

/// A chain of deep writes grows at its end.
proof fn lemma_deep_extended_push<T: MergeableProperty>(
    pre: Seq<(String, T)>,
    add: Seq<(String, T)>,
    mid: Seq<(String, T)>,
    kv: (String, T),
    post: Seq<(String, T)>,
)
    requires
        deep_extended_rel(pre, add, mid),
        deep_step_rel(mid, kv, post),
    ensures
        deep_extended_rel(pre, add.push(kv), post),
    decreases add.len(),
{
    if add.len() == 0 {
        assert(mid == pre);
        assert(add.push(kv)[0] == kv);
        assert(add.push(kv).drop_first() =~= Seq::<(String, T)>::empty());
        assert(deep_extended_rel(post, add.push(kv).drop_first(), post));
        assert(deep_step_rel(pre, add.push(kv)[0], post));
    } else {
        let m1 = choose|m1: Seq<(String, T)>|
            #[trigger] deep_step_rel(pre, add[0], m1) && deep_extended_rel(
                m1,
                add.drop_first(),
                mid,
            );
        lemma_deep_extended_push(m1, add.drop_first(), mid, kv, post);
        assert(add.push(kv)[0] == add[0]);
        assert(add.push(kv).drop_first() =~= add.drop_first().push(kv));
        assert(deep_step_rel(pre, add.push(kv)[0], m1));
    }
}

impl<T: MergeableProperty> LangContainer<T> {
    /// Merges deeply: present default values are merged, and a value under
    /// a language already present is merged into the value already there.
    pub fn deep_merge(&mut self, other: Self)
        ensures
            <Option<T> as MergeableProperty>::merge_rel(
                old(self).default,
                other.default,
                final(self).default,
            ),
            deep_extended_rel(old(self).per_lang@, other.per_lang@, final(self).per_lang@),
    {
        let LangContainer { default, per_lang } = other;
        MergeableProperty::merge(&mut self.default, default);
        let ghost dflt = self.default;
        let mut rest = per_lang;
        let ghost added: Seq<(String, T)> = Seq::empty();
        let ghost start = self.per_lang@;
        let ghost all = rest@;
        proof {
            assert(added + rest@ =~= all);
            assert(deep_extended_rel(start, added, self.per_lang@));
        }
        while rest.len() > 0
            invariant
                added + rest@ =~= all,
                deep_extended_rel(start, added, self.per_lang@),
                self.default == dflt,
            decreases rest.len(),
        {
            let ghost rest_full = rest@;
            let kv = rest.remove(0);
            let ghost kv0 = kv;
            proof {
                assert(rest@ =~= rest_full.drop_first());
                assert(rest_full[0] == kv0);
            }
            let ghost mid = self.per_lang@;
            let n = self.per_lang.len();
            let mut i: usize = 0;
            let mut found: Option<usize> = None;
            loop
                invariant_except_break
                    found is None,
                invariant
                    i <= n,
                    n == self.per_lang@.len(),
                    self.per_lang@ == mid,
                    self.default == dflt,
                    kv == kv0,
                    forall|j: int| 0 <= j < i ==> (#[trigger] mid[j]).0@ != kv0.0@,
                ensures
                    self.per_lang@ == mid,
                    self.default == dflt,
                    kv == kv0,
                    match found {
                        Some(f) => f < n && mid[f as int].0@ == kv0.0@ && forall|j: int|
                            0 <= j < f ==> (#[trigger] mid[j]).0@ != kv0.0@,
                        None => forall|j: int| 0 <= j < n ==> (#[trigger] mid[j]).0@ != kv0.0@,
                    },
                decreases n - i,
            {
                if i >= n {
                    break;
                }
                if self.per_lang[i].0 == kv.0 {
                    found = Some(i);
                    break;
                }
                i = i + 1;
            }
            match found {
                Some(f) => {
                    proof {
                        lemma_key_index_first(mid, kv0.0@, f as int);
                    }
                    let pair = self.per_lang.remove(f);
                    proof {
                        assert(pair == mid[f as int]);
                    }
                    let mut x = pair.1;
                    x.merge(kv.1);
                    self.per_lang.insert(f, (pair.0, x));
                    proof {
                        assert(self.per_lang@ =~= mid.update(f as int, (mid[f as int].0, x)));
                        lemma_deep_step_witness(
                            mid,
                            kv0,
                            f as int,
                            x,
                            self.per_lang@,
                        );
                    }
                },
                None => {
                    proof {
                        assert(key_index(mid, kv0.0@) is None) by {
                            lemma_key_index(mid, kv0.0@);
                        }
                    }
                    self.per_lang.push(kv);
                    proof {
                        assert(deep_step_with(mid, kv0, kv0.1, self.per_lang@));
                        assert(deep_step_rel(mid, kv0, self.per_lang@));
                    }
                },
            }
            proof {
                lemma_deep_extended_push(start, added, mid, kv0, self.per_lang@);
            }
            proof {
                added = added.push(kv0);
                assert(added + rest@ =~= all);
            }
        }
        proof {
            assert(added =~= all);
        }
    }
}

} // verus!

verus! {

impl<T> Default for Property<T> {
    /// The empty sequence.
    fn default() -> (r: Self)
        ensures
            r.0@.len() == 0,
    {
        Property(Vec::new())
    }
}

impl<L: Default, R> Default for Or<L, R> {
    /// The first side's default.
    fn default() -> (r: Self)
        ensures
            r is Prim,
    {
        Or::Prim(L::default())
    }
}

impl<P, S> From<P> for Or<P, S> {
    fn from(value: P) -> Self {
        Or::Prim(value)
    }
}

impl<P, S> vstd::std_specs::convert::FromSpecImpl<P> for Or<P, S> {
    open spec fn obeys_from_spec() -> bool {
        true
    }

    open spec fn from_spec(v: P) -> Self {
        Or::Prim(v)
    }
}

/// A value of a type a document may leave untyped: either the typed side,
/// or the raw document tree.
pub type Untypable<T> = Or<T, crate::json::Json>;

} // verus!
