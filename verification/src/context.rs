//! The `@context` container and its wire shapes.
//!
//! On the wire a context is a single identifier string, an array mixing
//! identifier strings and inline term-definition objects, or a single
//! inline object.  Internally it is an ordered list of identifiers beside
//! one merged inline term map: later inline objects overwrite earlier keys,
//! and the original grouping of inline objects is not kept.

use vstd::prelude::*;

use crate::error::DecodeError;
use crate::error::DecodeErrorView;
use crate::json::arr_view;
use crate::json::json_view;
use crate::json::lemma_arr_view;
use crate::json::lemma_obj_view;
use crate::json::obj_view;
use crate::json::Json;
use crate::json::JsonView;
use crate::iri::parse_url;
use crate::keymap::lemma_vextended_fresh;
use crate::keymap::lemma_vkey_index;
use crate::keymap::lemma_vkey_index_first;
use crate::keymap::vextended;
use crate::keymap::vkey_index;
use crate::keymap::vkeys_unique;
use crate::keymap::vupserted;
use crate::iri::url_normalized;
use crate::iri::normalized_iri;

verus! {

/// A decoded `@context`: the identifiers in order of appearance, and the
/// merged inline term map, keys unique and in first-appearance order.
#[derive(Debug, PartialEq)]
pub struct Context {
    pub urls: Vec<String>,
    pub inline: Vec<(String, Json)>,
}

/// Model of a decoded `@context`.
#[verifier::ext_equal]
pub struct ContextView {
    pub urls: Seq<Seq<char>>,
    pub inline: Seq<(Seq<char>, JsonView)>,
}

/// Model of a decoded `@context`.
pub open spec fn context_view(c: Context) -> ContextView {
    ContextView { urls: crate::error::strs_view(c.urls@), inline: obj_view(c.inline@) }
}

impl View for Context {
    type V = ContextView;

    open spec fn view(&self) -> ContextView {
        context_view(*self)
    }
}

/// A document envelope: an optional `@context` beside the typed body,
/// whose wire keys sit flattened at the same object level.
#[derive(Debug, PartialEq)]
pub struct WithContext<T> {
    pub context: Option<Context>,
    pub body: T,
}

// ---------------------------------------------------------------------------
// Model-level term maps
// ---------------------------------------------------------------------------





// ---------------------------------------------------------------------------
// The decode model
// ---------------------------------------------------------------------------

/// What one array of `@context` elements decodes to: identifier strings
/// collect in order, inline objects merge into one map, anything else is
/// rejected; the first fault wins.
pub open spec fn spec_decode_context_items(items: Seq<JsonView>) -> Result<
    ContextView,
    DecodeErrorView,
>
    decreases items.len(),
{
    if items.len() == 0 {
        Ok(ContextView { urls: Seq::empty(), inline: Seq::empty() })
    } else {
        match spec_decode_context_items(items.drop_last()) {
            Err(e) => Err(e),
            Ok(acc) => match items.last() {
                JsonView::Str(s) => match url_normalized(s) {
                    Some(t) => Ok(ContextView { urls: acc.urls.push(t), inline: acc.inline }),
                    None => Err(DecodeErrorView::MalformedScalar(s)),
                },
                JsonView::Obj(es) => Ok(
                    ContextView { urls: acc.urls, inline: vextended(acc.inline, es) },
                ),
                _ => Err(DecodeErrorView::UnexpectedShape("@context"@)),
            },
        }
    }
}

/// What a `@context` value decodes to, by its wire shape.
pub open spec fn spec_decode_context(j: JsonView) -> Result<ContextView, DecodeErrorView> {
    match j {
        JsonView::Str(s) => match url_normalized(s) {
            Some(t) => Ok(ContextView { urls: seq![t], inline: Seq::empty() }),
            None => Err(DecodeErrorView::MalformedScalar(s)),
        },
        JsonView::Obj(es) => Ok(
            ContextView { urls: Seq::empty(), inline: vextended(Seq::empty(), es) },
        ),
        JsonView::Arr(items) => spec_decode_context_items(items),
        _ => Err(DecodeErrorView::UnexpectedShape("@context"@)),
    }
}

// ---------------------------------------------------------------------------
// The encode model
// ---------------------------------------------------------------------------

/// Identifier strings, as documents.
pub open spec fn urls_json(urls: Seq<Seq<char>>) -> Seq<JsonView> {
    Seq::new(urls.len(), |i: int| JsonView::Str(urls[i]))
}

/// What a context re-encodes to, by non-emptiness: inline terms alone give
/// a bare object; one lone identifier gives a bare string; identifiers
/// alone give an array of strings; both parts give the identifiers
/// followed by exactly one trailing merged object.
pub open spec fn spec_encode_context(c: ContextView) -> JsonView {
    if c.inline.len() == 0 {
        if c.urls.len() == 1 {
            JsonView::Str(c.urls[0])
        } else {
            JsonView::Arr(urls_json(c.urls))
        }
    } else if c.urls.len() == 0 {
        JsonView::Obj(c.inline)
    } else {
        JsonView::Arr(urls_json(c.urls).push(JsonView::Obj(c.inline)))
    }
}

/// The values a decode can produce: every identifier is normalized, and
/// the merged term map has unique keys.
pub open spec fn context_wf(c: ContextView) -> bool {
    &&& forall|i: int| 0 <= i < c.urls.len() ==> normalized_iri(#[trigger] c.urls[i])
    &&& vkeys_unique(c.inline)
}

// ---------------------------------------------------------------------------
// The executable codec
// ---------------------------------------------------------------------------

/// Writes `v` under `k` into a term map, as `vupserted` describes.
fn upsert_term(m: &mut Vec<(String, Json)>, k: String, v: Json)
    ensures
        obj_view(final(m)@) == vupserted(obj_view(old(m)@), k@, json_view(v)),
{
    proof {
        lemma_obj_view(m@);
        lemma_vkey_index(obj_view(m@), k@);
    }
    let n = m.len();
    let mut i: usize = 0;
    while i < n
        invariant
            i <= n,
            n == m@.len(),
            m@ == old(m)@,
            forall|j: int| 0 <= j < i ==> (#[trigger] m@[j]).0@ != k@,
        decreases n - i,
    {
        if m[i].0 == k {
            proof {
                lemma_obj_view(m@);
                lemma_vkey_index_first(obj_view(m@), k@, i as int);
            }
            let _ = m.remove(i);
            m.insert(i, (k, v));
            proof {
                lemma_obj_view(m@);
                lemma_obj_view(old(m)@);
                assert(obj_view(m@) =~= obj_view(old(m)@).update(
                    i as int,
                    (k@, json_view(v)),
                ));
            }
            return;
        }
        i = i + 1;
    }
    m.push((k, v));
    proof {
        lemma_obj_view(m@);
        lemma_obj_view(old(m)@);
        assert(vkey_index(obj_view(old(m)@), k@) is None) by {
            lemma_vkey_index(obj_view(old(m)@), k@);
            lemma_obj_view(old(m)@);
        }
        assert(obj_view(m@) =~= obj_view(old(m)@).push((k@, json_view(v))));
    }
}



/// A fault among earlier elements of a `@context` array decides the whole
/// array.
proof fn lemma_context_items_err(items: Seq<JsonView>, k: int)
    requires
        0 <= k <= items.len(),
        spec_decode_context_items(items.subrange(0, k)) is Err,
    ensures
        spec_decode_context_items(items) == spec_decode_context_items(items.subrange(0, k)),
    decreases items.len() - k,
{
    if k < items.len() {
        assert(items.subrange(0, k + 1).drop_last() =~= items.subrange(0, k));
        assert(spec_decode_context_items(items.subrange(0, k + 1))
            == spec_decode_context_items(items.subrange(0, k)));
        lemma_context_items_err(items, k + 1);
    } else {
        assert(items.subrange(0, k) =~= items);
    }
}

/// Decodes a `@context` value, as `spec_decode_context` describes.
#[verifier::loop_isolation(false)]
pub fn decode_context(j: &Json) -> (r: Result<Context, DecodeError>)
    ensures
        match r {
            Ok(c) => spec_decode_context(j@) == Ok::<ContextView, DecodeErrorView>(c@)
                && context_wf(c@),
            Err(e) => spec_decode_context(j@) == Err::<ContextView, DecodeErrorView>(e@),
        },
{
    broadcast use lemma_arr_view, lemma_obj_view;

    match j {
        Json::Str(s) => match parse_url(s.as_str()) {
            Some(t) => {
                let ghost tv = t@;
                let mut urls: Vec<String> = Vec::new();
                urls.push(t);
                let c = Context { urls, inline: Vec::new() };
                proof {
                    assert(c@.urls =~= seq![url_normalized(s@)->0]);
                    assert(c@.inline =~= Seq::<(Seq<char>, JsonView)>::empty());
                    assert(forall|i: int| 0 <= i < c@.urls.len() ==> #[trigger] c@.urls[i] == tv);
                }
                Ok(c)
            },
            None => Err(DecodeError::MalformedScalar(s.clone())),
        },
        Json::Obj(es) => {
            let mut inline: Vec<(String, Json)> = Vec::new();
            let mut k: usize = 0;
            while k < es.len()
                invariant
                    k <= es@.len(),
                    vkeys_unique(obj_view(inline@)),
                    obj_view(inline@) == vextended(
                        Seq::<(Seq<char>, JsonView)>::empty(),
                        obj_view(es@).subrange(0, k as int),
                    ),
                decreases es@.len() - k,
            {
                let key = es[k].0.clone();
                let val = es[k].1.duplicate();
                let ghost before = obj_view(inline@);
                proof {
                    crate::keymap::lemma_vupserted_unique(before, key@, json_view(val));
                }
                upsert_term(&mut inline, key, val);
                proof {
                    let ghost pref = obj_view(es@).subrange(0, k as int);
                    let ghost pref1 = obj_view(es@).subrange(0, k as int + 1);
                    assert(pref1.drop_last() =~= pref);
                    assert(pref1.last() == obj_view(es@)[k as int]);
                }
                k = k + 1;
            }
            proof {
                assert(obj_view(es@).subrange(0, es@.len() as int) =~= obj_view(es@));
            }
            let c = Context { urls: Vec::new(), inline };
            proof {
                assert(crate::error::strs_view(c.urls@) =~= Seq::<Seq<char>>::empty());
                assert(c@ =~= ContextView {
                    urls: Seq::<Seq<char>>::empty(),
                    inline: vextended(Seq::<(Seq<char>, JsonView)>::empty(), obj_view(es@)),
                });
            }
            Ok(c)
        },
        Json::Arr(items) => {
            let mut urls: Vec<String> = Vec::new();
            let mut inline: Vec<(String, Json)> = Vec::new();
            proof {
                assert(arr_view(items@).subrange(0, 0) =~= Seq::<JsonView>::empty());
                assert(crate::error::strs_view(urls@) =~= Seq::<Seq<char>>::empty());
                assert(obj_view(inline@) =~= Seq::<(Seq<char>, JsonView)>::empty());
                assert(ContextView {
                    urls: crate::error::strs_view(urls@),
                    inline: obj_view(inline@),
                } =~= ContextView { urls: Seq::empty(), inline: Seq::empty() });
            }
            let mut k: usize = 0;
            while k < items.len()
                invariant
                    k <= items@.len(),
                    vkeys_unique(obj_view(inline@)),
                    forall|t: int| 0 <= t < urls@.len() ==> normalized_iri(
                        #[trigger] crate::error::strs_view(urls@)[t],
                    ),
                    spec_decode_context_items(arr_view(items@).subrange(0, k as int)) == Ok::<
                        ContextView,
                        DecodeErrorView,
                    >(
                        ContextView {
                            urls: crate::error::strs_view(urls@),
                            inline: obj_view(inline@),
                        },
                    ),
                decreases items@.len() - k,
            {
                let ghost pref = arr_view(items@).subrange(0, k as int);
                let ghost pref1 = arr_view(items@).subrange(0, k as int + 1);
                proof {
                    assert(pref1.drop_last() =~= pref);
                    assert(pref1.last() == arr_view(items@)[k as int]);
                }
                match &items[k] {
                    Json::Str(s) => match parse_url(s.as_str()) {
                        Some(t) => {
                            let ghost urls0 = crate::error::strs_view(urls@);
                            let ghost tv = t@;
                            urls.push(t);
                            proof {
                                assert(crate::error::strs_view(urls@) =~= urls0.push(
                                    url_normalized(s@)->0,
                                ));
                                assert forall|q: int|
                                    0 <= q < urls@.len() implies normalized_iri(
                                    #[trigger] crate::error::strs_view(urls@)[q],
                                ) by {
                                    if q < urls0.len() {
                                        assert(crate::error::strs_view(urls@)[q] == urls0[q]);
                                    } else {
                                        assert(crate::error::strs_view(urls@)[q] == tv);
                                    }
                                }
                            }
                        },
                        None => {
                            proof {
                                assert(spec_decode_context_items(pref1)
                                    == Err::<ContextView, DecodeErrorView>(
                                    DecodeErrorView::MalformedScalar(s@),
                                ));
                                lemma_context_items_err(arr_view(items@), k as int + 1);
                            }
                            return Err(DecodeError::MalformedScalar(s.clone()));
                        },
                    },
                    Json::Obj(es) => {
                        let ghost inline0 = obj_view(inline@);
                        let mut t: usize = 0;
                        while t < es.len()
                            invariant
                                t <= es@.len(),
                                vkeys_unique(obj_view(inline@)),
                                obj_view(inline@) == vextended(
                                    inline0,
                                    obj_view(es@).subrange(0, t as int),
                                ),
                            decreases es@.len() - t,
                        {
                            let key = es[t].0.clone();
                            let val = es[t].1.duplicate();
                            proof {
                                crate::keymap::lemma_vupserted_unique(
                                    obj_view(inline@),
                                    key@,
                                    json_view(val),
                                );
                            }
                            upsert_term(&mut inline, key, val);
                            proof {
                                let ghost p0 = obj_view(es@).subrange(0, t as int);
                                let ghost p1 = obj_view(es@).subrange(0, t as int + 1);
                                assert(p1.drop_last() =~= p0);
                                assert(p1.last() == obj_view(es@)[t as int]);
                            }
                            t = t + 1;
                        }
                        proof {
                            assert(obj_view(es@).subrange(0, es@.len() as int) =~= obj_view(es@));
                        }
                    },
                    _ => {
                        proof {
                            assert(spec_decode_context_items(pref1)
                                == Err::<ContextView, DecodeErrorView>(
                                DecodeErrorView::UnexpectedShape("@context"@),
                            ));
                            lemma_context_items_err(arr_view(items@), k as int + 1);
                        }
                        return Err(DecodeError::UnexpectedShape(String::from_str("@context")));
                    },
                }
                k = k + 1;
            }
            proof {
                assert(arr_view(items@).subrange(0, items@.len() as int) =~= arr_view(items@));
            }
            Ok(Context { urls, inline })
        },
        _ => Err(DecodeError::UnexpectedShape(String::from_str("@context"))),
    }
}

/// Encodes a context back to its wire shape, as `spec_encode_context`
/// describes.
#[verifier::loop_isolation(false)]
pub fn encode_context(c: &Context) -> (r: Json)
    ensures
        r@ == spec_encode_context(c@),
{
    broadcast use lemma_arr_view, lemma_obj_view;

    if c.inline.len() == 0 && c.urls.len() == 1 {
        return Json::Str(c.urls[0].clone());
    }
    let mut inline: Vec<(String, Json)> = Vec::new();
    let mut t: usize = 0;
    while t < c.inline.len()
        invariant
            t <= c.inline@.len(),
            obj_view(inline@) == obj_view(c.inline@).subrange(0, t as int),
        decreases c.inline@.len() - t,
    {
        let key = c.inline[t].0.clone();
        let val = c.inline[t].1.duplicate();
        inline.push((key, val));
        proof {
            assert(obj_view(inline@) =~= obj_view(c.inline@).subrange(0, t as int + 1));
        }
        t = t + 1;
    }
    proof {
        assert(obj_view(inline@) =~= obj_view(c.inline@));
    }
    if c.inline.len() > 0 && c.urls.len() == 0 {
        return Json::Obj(inline);
    }
    let mut items: Vec<Json> = Vec::new();
    let mut k: usize = 0;
    while k < c.urls.len()
        invariant
            k <= c.urls@.len(),
            arr_view(items@) == urls_json(crate::error::strs_view(c.urls@)).subrange(0, k as int),
        decreases c.urls@.len() - k,
    {
        items.push(Json::Str(c.urls[k].clone()));
        proof {
            assert(arr_view(items@) =~= urls_json(crate::error::strs_view(c.urls@)).subrange(
                0,
                k as int + 1,
            ));
        }
        k = k + 1;
    }
    proof {
        assert(arr_view(items@) =~= urls_json(crate::error::strs_view(c.urls@)));
    }
    if c.inline.len() == 0 {
        proof {
            assert(c@.urls.len() != 1);
        }
        return Json::Arr(items);
    }
    items.push(Json::Obj(inline));
    proof {
        assert(arr_view(items@) =~= urls_json(crate::error::strs_view(c.urls@)).push(
            JsonView::Obj(obj_view(c.inline@)),
        ));
    }
    Json::Arr(items)
}

} // verus!

verus! {



/// An array of normalized identifier strings decodes to those identifiers.
proof fn lemma_decode_urls(urls: Seq<Seq<char>>)
    requires
        forall|i: int| 0 <= i < urls.len() ==> normalized_iri(#[trigger] urls[i]),
    ensures
        spec_decode_context_items(urls_json(urls)) == Ok::<ContextView, DecodeErrorView>(
            ContextView { urls: urls, inline: Seq::empty() },
        ),
    decreases urls.len(),
{
    if urls.len() == 0 {
        assert(urls_json(urls) =~= Seq::<JsonView>::empty());
        assert(ContextView { urls: Seq::<Seq<char>>::empty(), inline: Seq::empty() } =~=
            ContextView { urls: urls, inline: Seq::empty() });
    } else {
        let u0 = urls.drop_last();
        lemma_decode_urls(u0);
        let items = urls_json(urls);
        assert(items.drop_last() =~= urls_json(u0));
        assert(items.last() == JsonView::Str(urls.last()));
        assert(normalized_iri(urls.last()));
        assert(u0.push(urls.last()) =~= urls);
        assert(ContextView { urls: u0.push(urls.last()), inline: Seq::empty() } =~= ContextView {
            urls: urls,
            inline: Seq::empty(),
        });
    }
}

/// Round trip: every well-formed context decodes back from its own
/// re-encoding — a lone identifier from a bare string, identifiers from an
/// array of strings, inline terms from a bare object, and a mixed context
/// from the identifiers followed by the one trailing merged object.
pub proof fn lemma_context_round_trip(c: ContextView)
    requires
        context_wf(c),
    ensures
        spec_decode_context(spec_encode_context(c)) == Ok::<ContextView, DecodeErrorView>(c),
{
    if c.inline.len() == 0 {
        if c.urls.len() == 1 {
            assert(normalized_iri(c.urls[0]));
            assert(ContextView { urls: seq![c.urls[0]], inline: Seq::empty() } =~= c);
        } else {
            lemma_decode_urls(c.urls);
            assert(ContextView { urls: c.urls, inline: Seq::empty() } =~= c);
        }
    } else if c.urls.len() == 0 {
        assert(forall|i: int|
            0 <= i < c.inline.len() ==> vkey_index(
                Seq::<(Seq<char>, JsonView)>::empty(),
                (#[trigger] c.inline[i]).0,
            ) is None);
        lemma_vextended_fresh(Seq::<(Seq<char>, JsonView)>::empty(), c.inline);
        assert(Seq::<(Seq<char>, JsonView)>::empty() + c.inline =~= c.inline);
        assert(ContextView { urls: Seq::empty(), inline: vextended(
            Seq::<(Seq<char>, JsonView)>::empty(),
            c.inline,
        ) } =~= c);
    } else {
        let items = urls_json(c.urls).push(JsonView::Obj(c.inline));
        assert(items.drop_last() =~= urls_json(c.urls));
        lemma_decode_urls(c.urls);
        assert(items.last() == JsonView::Obj(c.inline));
        assert(forall|i: int|
            0 <= i < c.inline.len() ==> vkey_index(
                Seq::<(Seq<char>, JsonView)>::empty(),
                (#[trigger] c.inline[i]).0,
            ) is None);
        lemma_vextended_fresh(Seq::<(Seq<char>, JsonView)>::empty(), c.inline);
        assert(Seq::<(Seq<char>, JsonView)>::empty() + c.inline =~= c.inline);
        assert(ContextView { urls: c.urls, inline: vextended(
            Seq::<(Seq<char>, JsonView)>::empty(),
            c.inline,
        ) } =~= c);
    }
}

} // verus!
