//! The generic JSON value tree that decode consumes and encode produces.
//!
//! Documents are handed to the library fully materialized.  Objects keep
//! their entries as an ordered association list so that the order of keys in
//! a document — which the duplicate-key merge rules depend on — is preserved,
//! and so that a key may occur more than once, as it can in a wire document.
//!
//! Contracts speak of [`JsonView`], the mathematical model of a document:
//! the same tree with strings as `Seq<char>` and lists as `Seq`.

use vstd::prelude::*;

verus! {

/// A JSON document, fully materialized.
#[derive(Debug, PartialEq)]
pub enum Json {
    Null,
    Bool(bool),
    Int(i64),
    Str(String),
    Arr(Vec<Json>),
    Obj(Vec<(String, Json)>),
}

/// The mathematical model of a JSON document.
#[verifier::ext_equal]
pub enum JsonView {
    Null,
    Bool(bool),
    Int(i64),
    Str(Seq<char>),
    Arr(Seq<JsonView>),
    Obj(Seq<(Seq<char>, JsonView)>),
}

/// Model of a sequence of documents, elementwise.
pub open spec fn arr_view(s: Seq<Json>) -> Seq<JsonView>
    decreases s,
{
    if s.len() == 0 {
        Seq::empty()
    } else {
        arr_view(s.drop_last()).push(json_view(s.last()))
    }
}

/// Model of an object's entry list, elementwise.
pub open spec fn obj_view(s: Seq<(String, Json)>) -> Seq<(Seq<char>, JsonView)>
    decreases s,
{
    if s.len() == 0 {
        Seq::empty()
    } else {
        obj_view(s.drop_last()).push((s.last().0@, json_view(s.last().1)))
    }
}

/// Model of a document.
pub open spec fn json_view(j: Json) -> JsonView
    decreases j,
{
    match j {
        Json::Null => JsonView::Null,
        Json::Bool(b) => JsonView::Bool(b),
        Json::Int(n) => JsonView::Int(n),
        Json::Str(s) => JsonView::Str(s@),
        Json::Arr(items) => JsonView::Arr(arr_view(items@)),
        Json::Obj(entries) => JsonView::Obj(obj_view(entries@)),
    }
}

impl View for Json {
    type V = JsonView;

    open spec fn view(&self) -> JsonView {
        json_view(*self)
    }
}

/// `arr_view` is the elementwise model.
pub broadcast proof fn lemma_arr_view(s: Seq<Json>)
    ensures
        (#[trigger] arr_view(s)).len() == s.len(),
        forall|i: int| 0 <= i < s.len() ==> arr_view(s)[i] == json_view(s[i]),
    decreases s,
{
    if s.len() > 0 {
        lemma_arr_view(s.drop_last());
    }
}

/// `obj_view` is the elementwise model.
pub broadcast proof fn lemma_obj_view(s: Seq<(String, Json)>)
    ensures
        (#[trigger] obj_view(s)).len() == s.len(),
        forall|i: int| 0 <= i < s.len() ==> obj_view(s)[i] == (s[i].0@, json_view(s[i].1)),
    decreases s,
{
    if s.len() > 0 {
        lemma_obj_view(s.drop_last());
    }
}

/// Structural height of a document model; the termination measure for every
/// recursive descent over documents.
pub open spec fn height(j: JsonView) -> nat
    decreases j,
{
    match j {
        JsonView::Arr(items) => 1 + arr_height(items),
        JsonView::Obj(entries) => 1 + obj_height(entries),
        _ => 0,
    }
}

/// Height of the tallest element of an array.
pub open spec fn arr_height(s: Seq<JsonView>) -> nat
    decreases s,
{
    if s.len() == 0 {
        0
    } else if height(s[0]) >= arr_height(s.drop_first()) {
        height(s[0])
    } else {
        arr_height(s.drop_first())
    }
}

/// Height of the tallest value of an object's entry list.
pub open spec fn obj_height(s: Seq<(Seq<char>, JsonView)>) -> nat
    decreases s,
{
    if s.len() == 0 {
        0
    } else if height(s[0].1) >= obj_height(s.drop_first()) {
        height(s[0].1)
    } else {
        obj_height(s.drop_first())
    }
}

/// Every element of an array is at most as tall as the array's bound.
pub proof fn lemma_arr_height(s: Seq<JsonView>, i: int)
    requires
        0 <= i < s.len(),
    ensures
        height(s[i]) <= arr_height(s),
    decreases s.len(),
{
    if i > 0 {
        lemma_arr_height(s.drop_first(), i - 1);
    }
}

/// Every entry value of an object is at most as tall as the object's bound.
pub proof fn lemma_obj_height(s: Seq<(Seq<char>, JsonView)>, i: int)
    requires
        0 <= i < s.len(),
    ensures
        height(s[i].1) <= obj_height(s),
    decreases s.len(),
{
    if i > 0 {
        lemma_obj_height(s.drop_first(), i - 1);
    }
}

impl Json {
    /// A deep copy whose model equals the original's.
    pub fn duplicate(&self) -> (r: Json)
        ensures
            r@ == self@,
        decreases height(self@),
    {
        broadcast use lemma_arr_view, lemma_obj_view;

        match self {
            Json::Null => Json::Null,
            Json::Bool(b) => Json::Bool(*b),
            Json::Int(n) => Json::Int(*n),
            Json::Str(s) => Json::Str(s.clone()),
            Json::Arr(items) => {
                let mut out: Vec<Json> = Vec::new();
                let mut k: usize = 0;
                while k < items.len()
                    invariant
                        k <= items.len(),
                        arr_view(out@) == arr_view(items@).subrange(0, k as int),
                        self@ == JsonView::Arr(arr_view(items@)),
                    decreases items.len() - k,
                {
                    proof {
                        lemma_arr_view(out@);
                        lemma_arr_view(items@);
                        lemma_arr_height(arr_view(items@), k as int);
                    }
                    let dup = items[k].duplicate();
                    out.push(dup);
                    proof {
                        lemma_arr_view(out@);
                        assert(arr_view(out@) =~= arr_view(items@).subrange(0, k as int + 1));
                    }
                    k = k + 1;
                }
                proof {
                    lemma_arr_view(out@);
                    lemma_arr_view(items@);
                    assert(arr_view(out@) =~= arr_view(items@));
                }
                Json::Arr(out)
            }
            Json::Obj(entries) => {
                let mut out: Vec<(String, Json)> = Vec::new();
                let mut k: usize = 0;
                while k < entries.len()
                    invariant
                        k <= entries.len(),
                        obj_view(out@) == obj_view(entries@).subrange(0, k as int),
                        self@ == JsonView::Obj(obj_view(entries@)),
                    decreases entries.len() - k,
                {
                    proof {
                        lemma_obj_view(out@);
                        lemma_obj_view(entries@);
                        lemma_obj_height(obj_view(entries@), k as int);
                    }
                    let key = entries[k].0.clone();
                    let val = entries[k].1.duplicate();
                    out.push((key, val));
                    proof {
                        lemma_obj_view(out@);
                        assert(obj_view(out@) =~= obj_view(entries@).subrange(0, k as int + 1));
                    }
                    k = k + 1;
                }
                proof {
                    lemma_obj_view(out@);
                    lemma_obj_view(entries@);
                    assert(obj_view(out@) =~= obj_view(entries@));
                }
                Json::Obj(out)
            }
        }
    }
}

} // verus!
