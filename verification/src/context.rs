//! The context a template is rendered against: a mapping from names to
//! structured values, with overwrite and accumulate update operations.

use vstd::prelude::*;

use crate::value::JsonValue;
use crate::value::SpecValue;
use crate::value::entries_put;
use crate::value::entries_view;
use crate::value::find_pos;
use crate::value::lemma_obj_get_position;
use crate::value::lemma_obj_get_set_other;
use crate::value::lemma_obj_get_set_same;
use crate::value::lemma_obj_set_splice;
use crate::value::spec_obj_get;
use crate::value::spec_obj_set;
use crate::value::spec_value_wf;
use crate::value::str_cmp;
use crate::value::view_of;

verus! {

/// What appending to an optional slot yields: an absent key begins a
/// one-item sequence, a present sequence grows at its end, and any other
/// present value is promoted to a two-item sequence.
pub open spec fn spec_appended(slot: Option<SpecValue>, v: SpecValue) -> SpecValue {
    match slot {
        Option::None => SpecValue::Arr(seq![v]),
        Option::Some(SpecValue::Arr(items)) => SpecValue::Arr(items.push(v)),
        Option::Some(prev) => SpecValue::Arr(seq![prev, v]),
    }
}

/// The root entries a context built from a whole value holds: an object's
/// own entries, any other value bound under the key `value`.
pub open spec fn spec_root_entries(v: SpecValue) -> Seq<(Seq<char>, SpecValue)> {
    if v is Obj {
        v->Obj_0
    } else {
        seq![("value"@, v)]
    }
}

/// A collection of named structured values; a render resolves placeholder
/// path expressions against its root mapping.
#[derive(Clone, Debug, PartialEq)]
pub struct TemplateContext {
    root: Vec<(String, JsonValue)>,
}

impl View for TemplateContext {
    type V = Seq<(Seq<char>, SpecValue)>;

    closed spec fn view(&self) -> Seq<(Seq<char>, SpecValue)> {
        entries_view(self.root@)
    }
}

/// A handle for one key of a context, consumed by a single update.  The
/// handle carries only the key, not a borrow of the context it came from:
/// `set` and `append` update whichever context they are handed.
pub struct ContextEntry {
    key: String,
}

impl View for ContextEntry {
    type V = Seq<char>;

    closed spec fn view(&self) -> Seq<char> {
        self.key@
    }
}

impl TemplateContext {
    /// Well-formedness: the root mapping is a well-formed object model.
    pub open spec fn wf(&self) -> bool {
        spec_value_wf(SpecValue::Obj(self@))
    }

    /// An empty context.
    pub fn new() -> (r: Self)
        ensures
            r@ == Seq::<(Seq<char>, SpecValue)>::empty(),
            r.wf(),
    {
        let r = TemplateContext { root: Vec::new() };
        proof {
            assert(r@ =~= Seq::<(Seq<char>, SpecValue)>::empty());
        }
        r
    }

    /// A context whose root is the given value: an object becomes the root
    /// directly, any other value is bound under the key `value`, so path
    /// queries always start from a mapping.
    pub fn new_with_root(root_value: JsonValue) -> (r: Self)
        requires
            root_value.wf(),
        ensures
            r@ == spec_root_entries(root_value@),
            r.wf(),
    {
        match root_value {
            JsonValue::Obj(entries) => {
                let r = TemplateContext { root: entries };
                proof {
                    assert(r@ =~= view_of(JsonValue::Obj(r.root))->Obj_0);
                }
                r
            },
            other => {
                let ghost v = other@;
                let mut root: Vec<(String, JsonValue)> = Vec::new();
                root.push(("value".to_owned(), other));
                let r = TemplateContext { root };
                proof {
                    assert(r@ =~= seq![("value"@, v)]);
                    assert(spec_value_wf(SpecValue::Obj(r@)));
                }
                r
            },
        }
    }

    /// A handle for updating the given key.
    pub fn entry(&self, key: &str) -> (e: ContextEntry)
        ensures
            e@ == key@,
    {
        ContextEntry { key: key.to_owned() }
    }

    /// The root mapping as a single structured value, leaving the context
    /// unchanged.
    pub fn as_value(&self) -> (r: JsonValue)
        ensures
            r@ == SpecValue::Obj(self@),
            self.wf() ==> r.wf(),
    {
        let mut out: Vec<(String, JsonValue)> = Vec::new();
        let mut i: usize = 0;
        while i < self.root.len()
            invariant
                i <= self.root@.len(),
                out@.len() == i,
                forall|j: int| 0 <= j < i ==> (#[trigger] out@[j]).0@ == self.root@[j].0@
                    && view_of(out@[j].1) == view_of(self.root@[j].1),
            decreases self.root@.len() - i,
        {
            let k = self.root[i].0.clone();
            let v = self.root[i].1.clone();
            out.push((k, v));
            i += 1;
        }
        let r = JsonValue::Obj(out);
        proof {
            assert(r@->Obj_0 =~= entries_view(self.root@));
        }
        r
    }
}

impl Default for TemplateContext {
    /// The empty context.
    fn default() -> (r: Self)
        ensures
            r@ == Seq::<(Seq<char>, SpecValue)>::empty(),
            r.wf(),
    {
        Self::new()
    }
}

impl ContextEntry {
    /// Overwrite semantics: binds the key to `value`, replacing whatever
    /// was there.
    pub fn set(self, ctx: &mut TemplateContext, value: JsonValue)
        requires
            old(ctx).wf(),
            value.wf(),
        ensures
            final(ctx)@ == spec_obj_set(old(ctx)@, self@, value@),
            final(ctx).wf(),
    {
        entries_put(&mut ctx.root, self.key, value);
    }

    /// Accumulate semantics: an absent key begins a one-item sequence, a
    /// present sequence grows at its end, and any other present value is
    /// promoted to a two-item sequence ending in `value`.
    pub fn append(self, ctx: &mut TemplateContext, value: JsonValue)
        requires
            old(ctx).wf(),
            value.wf(),
        ensures
            final(ctx)@ == spec_obj_set(
                old(ctx)@,
                self@,
                spec_appended(spec_obj_get(old(ctx)@, self@), value@),
            ),
            final(ctx).wf(),
    {
        let ghost m = ctx@;
        let idx = find_pos(&ctx.root, self.key.as_str());
        let mut found = false;
        if idx < ctx.root.len() {
            if str_cmp(ctx.root[idx].0.as_str(), self.key.as_str()) == 0 {
                found = true;
            }
        }
        proof {
            lemma_obj_get_position(m, self.key@, idx as int);
        }
        if found {
            let prev_pair = ctx.root.remove(idx);
            let ghost prev_model = view_of(prev_pair.1);
            proof {
                assert(spec_obj_get(m, self@) == Some(prev_model));
            }
            let new_value = match prev_pair.1 {
                JsonValue::Arr(mut items) => {
                    items.push(value);
                    let nv = JsonValue::Arr(items);
                    proof {
                        assert(nv@->Arr_0 =~= prev_model->Arr_0.push(value@));
                        assert(nv@ == spec_appended(Some(prev_model), value@));
                    }
                    nv
                },
                other => {
                    let ghost other_model = other@;
                    let mut items: Vec<JsonValue> = Vec::new();
                    items.push(other);
                    items.push(value);
                    let nv = JsonValue::Arr(items);
                    proof {
                        assert(nv@->Arr_0 =~= seq![other_model, value@]);
                        assert(nv@ == spec_appended(Some(prev_model), value@));
                    }
                    nv
                },
            };
            proof {
                assert(spec_value_wf(new_value@)) by {
                    assert(spec_value_wf(prev_model));
                    assert(spec_value_wf(value@));
                }
                lemma_obj_set_splice(
                    m,
                    self.key@,
                    spec_appended(spec_obj_get(m, self@), value@),
                    idx as int,
                );
            }
            ctx.root.insert(idx, (self.key, new_value));
            proof {
                assert(entries_view(ctx.root@) =~= m.subrange(0, idx as int) + seq![
                    (self@, spec_appended(spec_obj_get(m, self@), value@)),
                ] + m.skip(idx as int + 1));
            }
        } else {
            proof {
                assert(spec_obj_get(m, self@) is None);
            }
            let mut items: Vec<JsonValue> = Vec::new();
            items.push(value);
            let new_value = JsonValue::Arr(items);
            proof {
                assert(new_value@->Arr_0 =~= seq![view_of(items@[0])]);
                assert(new_value@ == spec_appended(spec_obj_get(m, self@), view_of(items@[0])));
                lemma_obj_set_splice(
                    m,
                    self.key@,
                    spec_appended(spec_obj_get(m, self@), new_value@->Arr_0[0]),
                    idx as int,
                );
            }
            ctx.root.insert(idx, (self.key, new_value));
            proof {
                assert(entries_view(ctx.root@) =~= m.subrange(0, idx as int) + seq![
                    (self@, spec_appended(spec_obj_get(m, self@), new_value@->Arr_0[0])),
                ] + m.skip(idx as int));
            }
        }
    }
}

/// Overwrite semantics: after binding a key to one value and then to a
/// second, the key resolves to exactly the second value, and no other
/// key's binding changes.
pub proof fn lemma_set_overwrites(
    m: Seq<(Seq<char>, SpecValue)>,
    k: Seq<char>,
    a: SpecValue,
    b: SpecValue,
)
    ensures
        spec_obj_get(spec_obj_set(spec_obj_set(m, k, a), k, b), k) == Some(b),
        forall|k2: Seq<char>|
            k2 != k ==> spec_obj_get(spec_obj_set(spec_obj_set(m, k, a), k, b), k2)
                == spec_obj_get(m, k2),
{
    lemma_obj_get_set_same(spec_obj_set(m, k, a), k, b);
    assert forall|k2: Seq<char>|
        k2 != k implies spec_obj_get(spec_obj_set(spec_obj_set(m, k, a), k, b), k2)
        == spec_obj_get(m, k2) by {
        lemma_obj_get_set_other(m, k, a, k2);
        lemma_obj_get_set_other(spec_obj_set(m, k, a), k, b, k2);
    }
}

/// Accumulate semantics: appending two values under a key that was absent
/// leaves a two-item sequence holding them in order, so its first item is
/// the first value and its last item is the second.
pub proof fn lemma_append_accumulates(
    m: Seq<(Seq<char>, SpecValue)>,
    k: Seq<char>,
    a: SpecValue,
    b: SpecValue,
)
    requires
        spec_obj_get(m, k) is None,
    ensures
        ({
            let m1 = spec_obj_set(m, k, spec_appended(spec_obj_get(m, k), a));
            let m2 = spec_obj_set(m1, k, spec_appended(spec_obj_get(m1, k), b));
            &&& spec_obj_get(m2, k) == Some(SpecValue::Arr(seq![a, b]))
            &&& seq![a, b][0] == a
            &&& seq![a, b].last() == b
        }),
{
    let m1 = spec_obj_set(m, k, spec_appended(spec_obj_get(m, k), a));
    lemma_obj_get_set_same(m, k, spec_appended(spec_obj_get(m, k), a));
    assert(spec_obj_get(m1, k) == Some(SpecValue::Arr(seq![a])));
    lemma_obj_get_set_same(m1, k, spec_appended(spec_obj_get(m1, k), b));
    assert(seq![a].push(b) =~= seq![a, b]);
}

/// Single-to-sequence promotion: binding a key to a plain (non-sequence)
/// value and then appending a second value leaves the two-item sequence of
/// both, in order.
pub proof fn lemma_set_then_append(
    m: Seq<(Seq<char>, SpecValue)>,
    k: Seq<char>,
    a: SpecValue,
    b: SpecValue,
)
    requires
        !(a is Arr),
    ensures
        ({
            let m1 = spec_obj_set(m, k, a);
            let m2 = spec_obj_set(m1, k, spec_appended(spec_obj_get(m1, k), b));
            spec_obj_get(m2, k) == Some(SpecValue::Arr(seq![a, b]))
        }),
{
    let m1 = spec_obj_set(m, k, a);
    lemma_obj_get_set_same(m, k, a);
    assert(spec_obj_get(m1, k) == Some(a));
    lemma_obj_get_set_same(m1, k, spec_appended(spec_obj_get(m1, k), b));
}

} // verus!
