//! The structured-value data model that placeholders are resolved against,
//! together with its mathematical model.

use vstd::prelude::*;

verus! {

broadcast use vstd::utf8::char_is_scalar, vstd::utf8::char_u32_cast;

/// The mathematical model of a structured value: null, boolean, integer,
/// text, ordered sequence, or key-to-value mapping with its entries in
/// strictly increasing key order.
#[verifier::ext_equal]
pub enum SpecValue {
    Null,
    Bool(bool),
    Int(int),
    Str(Seq<char>),
    Arr(Seq<SpecValue>),
    Obj(Seq<(Seq<char>, SpecValue)>),
}

/// A structured value: a tagged union of null, boolean, 64-bit signed
/// integer, text, ordered sequence, and key-to-value mapping.  Object
/// entries are kept sorted by key, each key occurring once.
#[derive(Debug, PartialEq)]
pub enum JsonValue {
    Null,
    Bool(bool),
    Int(i64),
    Str(String),
    Arr(Vec<JsonValue>),
    Obj(Vec<(String, JsonValue)>),
}

/// Strict lexicographic order on character sequences, by scalar value.
/// This coincides with the byte order of the UTF-8 encodings.
pub open spec fn seq_char_lt(a: Seq<char>, b: Seq<char>) -> bool
    decreases a.len(),
{
    if b.len() == 0 {
        false
    } else if a.len() == 0 {
        true
    } else if a[0] != b[0] {
        (a[0] as u32) < (b[0] as u32)
    } else {
        seq_char_lt(a.drop_first(), b.drop_first())
    }
}

/// The entries of an object model are in strictly increasing key order.
pub open spec fn entries_sorted(entries: Seq<(Seq<char>, SpecValue)>) -> bool {
    forall|i: int, j: int|
        0 <= i < j < entries.len() ==> seq_char_lt(entries[i].0, entries[j].0)
}

/// Well-formedness of a value model: integers fit in 64 signed bits and
/// every object has strictly sorted (hence unique) keys, recursively.
pub open spec fn spec_value_wf(v: SpecValue) -> bool
    decreases v,
{
    match v {
        SpecValue::Null => true,
        SpecValue::Bool(_) => true,
        SpecValue::Int(i) => i64::MIN <= i <= i64::MAX,
        SpecValue::Str(_) => true,
        SpecValue::Arr(items) => forall|i: int|
            0 <= i < items.len() ==> spec_value_wf(#[trigger] items[i]),
        SpecValue::Obj(entries) => entries_sorted(entries) && forall|i: int|
            0 <= i < entries.len() ==> spec_value_wf(#[trigger] entries[i].1),
    }
}

/// The model of an executable value.
pub open spec fn view_of(v: JsonValue) -> SpecValue
    decreases v,
{
    match v {
        JsonValue::Null => SpecValue::Null,
        JsonValue::Bool(b) => SpecValue::Bool(b),
        JsonValue::Int(i) => SpecValue::Int(i as int),
        JsonValue::Str(s) => SpecValue::Str(s@),
        JsonValue::Arr(items) => SpecValue::Arr(
            Seq::new(
                items@.len(),
                |i: int|
                    if 0 <= i < items@.len() {
                        view_of(items@[i])
                    } else {
                        SpecValue::Null
                    },
            ),
        ),
        JsonValue::Obj(entries) => SpecValue::Obj(
            Seq::new(
                entries@.len(),
                |i: int|
                    if 0 <= i < entries@.len() {
                        (entries@[i].0@, view_of(entries@[i].1))
                    } else {
                        (Seq::<char>::empty(), SpecValue::Null)
                    },
            ),
        ),
    }
}

/// The model of a sequence of object entries.
pub open spec fn entries_view(s: Seq<(String, JsonValue)>) -> Seq<(Seq<char>, SpecValue)> {
    Seq::new(
        s.len(),
        |i: int|
            if 0 <= i < s.len() {
                (s[i].0@, view_of(s[i].1))
            } else {
                (Seq::<char>::empty(), SpecValue::Null)
            },
    )
}

impl View for JsonValue {
    type V = SpecValue;

    open spec fn view(&self) -> SpecValue {
        view_of(*self)
    }
}

impl JsonValue {
    /// Well-formedness of a value: its model is well-formed.
    pub open spec fn wf(&self) -> bool {
        spec_value_wf(self@)
    }

    /// An empty object value.
    pub fn new_obj() -> (r: JsonValue)
        ensures
            r@ == SpecValue::Obj(Seq::<(Seq<char>, SpecValue)>::empty()),
            r.wf(),
    {
        let r = JsonValue::Obj(Vec::new());
        proof {
            assert(r@->Obj_0 =~= Seq::<(Seq<char>, SpecValue)>::empty());
            assert(r@ == SpecValue::Obj(r@->Obj_0));
        }
        r
    }

    /// An empty array value.
    pub fn new_arr() -> (r: JsonValue)
        ensures
            r@ == SpecValue::Arr(Seq::<SpecValue>::empty()),
            r.wf(),
    {
        let r = JsonValue::Arr(Vec::new());
        proof {
            assert(r@->Arr_0 =~= Seq::<SpecValue>::empty());
            assert(r@ == SpecValue::Arr(r@->Arr_0));
        }
        r
    }

    /// A text value copied from a string slice.
    pub fn of_str(s: &str) -> (r: JsonValue)
        ensures
            r@ == SpecValue::Str(s@),
            r.wf(),
    {
        JsonValue::Str(s.to_owned())
    }
}

impl Clone for JsonValue {
    /// A deep copy with the same model.
    #[verifier::loop_isolation(false)]
    fn clone(&self) -> (res: Self)
        ensures
            res@ == self@,
        decreases self,
    {
        match self {
            JsonValue::Null => JsonValue::Null,
            JsonValue::Bool(b) => JsonValue::Bool(*b),
            JsonValue::Int(i) => JsonValue::Int(*i),
            JsonValue::Str(s) => JsonValue::Str(s.clone()),
            JsonValue::Arr(items) => {
                let mut out: Vec<JsonValue> = Vec::new();
                let mut i: usize = 0;
                while i < items.len()
                    invariant
                        i <= items@.len(),
                        out@.len() == i,
                        forall|j: int| 0 <= j < i ==> view_of(#[trigger] out@[j]) == view_of(
                            items@[j],
                        ),
                    decreases items@.len() - i,
                {
                    proof {
                        assert(decreases_to!(*self => *items));
                        assert(decreases_to!(*items => items@));
                        assert(decreases_to!(items@ => items@[i as int]));
                    }
                    let c = items[i].clone();
                    out.push(c);
                    i += 1;
                }
                let r = JsonValue::Arr(out);
                proof {
                    assert(r@->Arr_0 =~= self@->Arr_0);
                }
                r
            },
            JsonValue::Obj(entries) => {
                let mut out: Vec<(String, JsonValue)> = Vec::new();
                let mut i: usize = 0;
                while i < entries.len()
                    invariant
                        i <= entries@.len(),
                        out@.len() == i,
                        forall|j: int| 0 <= j < i ==> (#[trigger] out@[j]).0@ == entries@[j].0@
                            && view_of(out@[j].1) == view_of(entries@[j].1),
                    decreases entries@.len() - i,
                {
                    proof {
                        assert(decreases_to!(*self => *entries));
                        assert(decreases_to!(*entries => entries@));
                        assert(decreases_to!(entries@ => entries@[i as int]));
                        assert(decreases_to!(entries@[i as int] => entries@[i as int].1));
                    }
                    let k = entries[i].0.clone();
                    let c = entries[i].1.clone();
                    out.push((k, c));
                    i += 1;
                }
                let r = JsonValue::Obj(out);
                proof {
                    assert(r@->Obj_0 =~= self@->Obj_0);
                }
                r
            },
        }
    }
}

/// The character of a single decimal digit.
pub open spec fn digit_char(d: int) -> char {
    if d == 0 { '0' }
    else if d == 1 { '1' }
    else if d == 2 { '2' }
    else if d == 3 { '3' }
    else if d == 4 { '4' }
    else if d == 5 { '5' }
    else if d == 6 { '6' }
    else if d == 7 { '7' }
    else if d == 8 { '8' }
    else { '9' }
}

/// The decimal digits of a non-negative integer, most significant first
/// (empty for zero).
pub open spec fn nat_text(n: int) -> Seq<char>
    decreases n,
{
    if n <= 0 {
        Seq::<char>::empty()
    } else {
        nat_text(n / 10) + seq![digit_char(n % 10)]
    }
}

/// The decimal rendering of an integer, with a leading minus sign when
/// negative.
pub open spec fn spec_int_text(n: int) -> Seq<char> {
    if n == 0 {
        seq!['0']
    } else if n < 0 {
        seq!['-'] + nat_text(-n)
    } else {
        nat_text(n)
    }
}

/// The ordering of two character sequences is decided at the first index
/// where they differ, so it is unchanged by dropping a common prefix.
pub proof fn lemma_lt_skip(a: Seq<char>, b: Seq<char>, i: int)
    requires
        0 <= i <= a.len(),
        i <= b.len(),
        forall|j: int| 0 <= j < i ==> a[j] == b[j],
    ensures
        seq_char_lt(a, b) == seq_char_lt(a.skip(i), b.skip(i)),
    decreases i,
{
    if i == 0 {
        assert(a.skip(0) =~= a);
        assert(b.skip(0) =~= b);
    } else {
        assert(a.len() > 0 && b.len() > 0);
        assert(a[0] == b[0]);
        assert(seq_char_lt(a, b) == seq_char_lt(a.drop_first(), b.drop_first()));
        assert(forall|j: int| 0 <= j < i - 1 ==> a.drop_first()[j] == b.drop_first()[j]);
        lemma_lt_skip(a.drop_first(), b.drop_first(), i - 1);
        assert(a.drop_first().skip(i - 1) =~= a.skip(i));
        assert(b.drop_first().skip(i - 1) =~= b.skip(i));
    }
}

/// Exactly one of `a < b`, `a == b`, `b < a` holds.
pub proof fn lemma_lt_trichotomy(a: Seq<char>, b: Seq<char>)
    ensures
        seq_char_lt(a, b) || a == b || seq_char_lt(b, a),
        seq_char_lt(a, b) ==> a != b && !seq_char_lt(b, a),
        a == b ==> !seq_char_lt(a, b) && !seq_char_lt(b, a),
    decreases a.len() + b.len(),
{
    if a.len() == 0 && b.len() == 0 {
        assert(a =~= b);
    } else if a.len() == 0 || b.len() == 0 {
    } else if a[0] != b[0] {
        if (a[0] as u32) == (b[0] as u32) {
            vstd::utf8::char_u32_cast(a[0], a[0] as u32);
            vstd::utf8::char_u32_cast(b[0], b[0] as u32);
        }
        assert((a[0] as u32) != (b[0] as u32));
    } else {
        lemma_lt_trichotomy(a.drop_first(), b.drop_first());
        if a.drop_first() == b.drop_first() && a.len() == b.len() {
            assert forall|j: int| 0 <= j < a.len() implies a[j] == b[j] by {
                if j > 0 {
                    assert(a.drop_first()[j - 1] == b.drop_first()[j - 1]);
                }
            }
            assert(a =~= b);
        }
        if a == b {
            assert(a.drop_first() =~= b.drop_first());
        }
    }
}

/// The order is transitive.
pub proof fn lemma_lt_transitive(a: Seq<char>, b: Seq<char>, c: Seq<char>)
    requires
        seq_char_lt(a, b),
        seq_char_lt(b, c),
    ensures
        seq_char_lt(a, c),
    decreases a.len() + b.len() + c.len(),
{
    assert(b.len() > 0 && c.len() > 0);
    if a.len() == 0 {
    } else if a[0] != c[0] {
        if a[0] == b[0] {
            assert((b[0] as u32) < (c[0] as u32) || b[0] == c[0]);
        } else if b[0] == c[0] {
            assert((a[0] as u32) < (b[0] as u32));
        } else {
            assert((a[0] as u32) < (b[0] as u32) && (b[0] as u32) < (c[0] as u32));
        }
    } else {
        if a[0] != b[0] {
            assert((a[0] as u32) < (b[0] as u32));
            if b[0] != c[0] {
                assert((b[0] as u32) < (c[0] as u32));
                assert((a[0] as u32) < (c[0] as u32));
                assert(false);
            } else {
                assert(false);
            }
        }
        assert(a[0] == b[0] && b[0] == c[0]);
        lemma_lt_transitive(a.drop_first(), b.drop_first(), c.drop_first());
    }
}

/// Three-way comparison of two strings in the order of `seq_char_lt`.
pub fn str_cmp(a: &str, b: &str) -> (r: i32)
    ensures
        (r == 0) == (a@ == b@),
        (r < 0) == seq_char_lt(a@, b@),
        (r > 0) == seq_char_lt(b@, a@),
{
    let alen = a.unicode_len();
    let blen = b.unicode_len();
    let mut i: usize = 0;
    loop
        invariant
            i <= alen,
            i <= blen,
            alen == a@.len(),
            blen == b@.len(),
            forall|j: int| 0 <= j < i ==> a@[j] == b@[j],
        ensures
            (i == alen || i == blen || a@[i as int] != b@[i as int]),
            i <= alen,
            i <= blen,
            alen == a@.len(),
            blen == b@.len(),
            forall|j: int| 0 <= j < i ==> a@[j] == b@[j],
        decreases alen - i,
    {
        if i == alen || i == blen {
            break;
        }
        let ca = a.get_char(i);
        let cb = b.get_char(i);
        if ca != cb {
            break;
        }
        i += 1;
    }
    proof {
        lemma_lt_skip(a@, b@, i as int);
        lemma_lt_skip(b@, a@, i as int);
    }
    if i == alen && i == blen {
        proof {
            assert(a@ =~= b@);
            lemma_lt_trichotomy(a@, b@);
        }
        0
    } else if i == alen {
        proof {
            assert(b@.skip(i as int).len() > 0);
            assert(seq_char_lt(a@.skip(i as int), b@.skip(i as int)));
            lemma_lt_trichotomy(a@, b@);
        }
        -1
    } else if i == blen {
        proof {
            assert(a@.skip(i as int).len() > 0);
            assert(seq_char_lt(b@.skip(i as int), a@.skip(i as int)));
            lemma_lt_trichotomy(a@, b@);
        }
        1
    } else {
        let ca = a.get_char(i);
        let cb = b.get_char(i);
        proof {
            assert(a@.skip(i as int)[0] == a@[i as int]);
            assert(b@.skip(i as int)[0] == b@[i as int]);
            lemma_lt_trichotomy(a@, b@);
        }
        if (ca as u32) < (cb as u32) {
            -1
        } else {
            1
        }
    }
}

/// Looking a key up in a sequence of entries: the value beside the first
/// occurrence of the key, if any.
pub open spec fn spec_obj_get(m: Seq<(Seq<char>, SpecValue)>, k: Seq<char>) -> Option<SpecValue>
    decreases m.len(),
{
    if m.len() == 0 {
        None
    } else if m[0].0 == k {
        Some(m[0].1)
    } else {
        spec_obj_get(m.drop_first(), k)
    }
}

/// Binding a key in a sequence of entries sorted by key: replaces the value
/// beside an equal key, else inserts the pair at its ordered position.
pub open spec fn spec_obj_set(
    m: Seq<(Seq<char>, SpecValue)>,
    k: Seq<char>,
    v: SpecValue,
) -> Seq<(Seq<char>, SpecValue)>
    decreases m.len(),
{
    if m.len() == 0 {
        seq![(k, v)]
    } else if m[0].0 == k {
        seq![(k, v)] + m.drop_first()
    } else if seq_char_lt(k, m[0].0) {
        seq![(k, v)] + m
    } else {
        seq![m[0]] + spec_obj_set(m.drop_first(), k, v)
    }
}

/// After binding a key, looking that key up yields the bound value.
pub proof fn lemma_obj_get_set_same(m: Seq<(Seq<char>, SpecValue)>, k: Seq<char>, v: SpecValue)
    ensures
        spec_obj_get(spec_obj_set(m, k, v), k) == Some(v),
    decreases m.len(),
{
    if m.len() == 0 {
    } else if m[0].0 == k {
        assert((seq![(k, v)] + m.drop_first())[0] == (k, v));
    } else if seq_char_lt(k, m[0].0) {
        assert((seq![(k, v)] + m)[0] == (k, v));
    } else {
        lemma_obj_get_set_same(m.drop_first(), k, v);
        let s = seq![m[0]] + spec_obj_set(m.drop_first(), k, v);
        assert(s[0] == m[0]);
        assert(s.drop_first() =~= spec_obj_set(m.drop_first(), k, v));
    }
}

/// Binding one key leaves every other key's binding unchanged.
pub proof fn lemma_obj_get_set_other(
    m: Seq<(Seq<char>, SpecValue)>,
    k: Seq<char>,
    v: SpecValue,
    k2: Seq<char>,
)
    requires
        k2 != k,
    ensures
        spec_obj_get(spec_obj_set(m, k, v), k2) == spec_obj_get(m, k2),
    decreases m.len(),
{
    if m.len() == 0 {
        let s = seq![(k, v)];
        assert(s[0] == (k, v));
        assert(s.drop_first() =~= Seq::<(Seq<char>, SpecValue)>::empty());
        assert(spec_obj_get(s.drop_first(), k2) == None::<SpecValue>);
        assert(spec_obj_get(s, k2) == None::<SpecValue>);
    } else if m[0].0 == k {
        let s = seq![(k, v)] + m.drop_first();
        assert(s[0] == (k, v));
        assert(s.drop_first() =~= m.drop_first());
        assert(spec_obj_get(s, k2) == spec_obj_get(m.drop_first(), k2));
        assert(spec_obj_get(m, k2) == spec_obj_get(m.drop_first(), k2));
    } else if seq_char_lt(k, m[0].0) {
        let s = seq![(k, v)] + m;
        assert(s[0] == (k, v));
        assert(s.drop_first() =~= m);
        assert(spec_obj_get(s, k2) == spec_obj_get(m, k2));
    } else {
        lemma_obj_get_set_other(m.drop_first(), k, v, k2);
        let s = seq![m[0]] + spec_obj_set(m.drop_first(), k, v);
        assert(s[0] == m[0]);
        assert(s.drop_first() =~= spec_obj_set(m.drop_first(), k, v));
        assert(spec_obj_get(s, k2) == spec_obj_get(m, k2));
    }
}

/// In a sorted entry sequence, binding a key is splicing the pair in at the
/// first position whose key is not below it.
pub proof fn lemma_obj_set_position(
    m: Seq<(Seq<char>, SpecValue)>,
    k: Seq<char>,
    v: SpecValue,
    idx: int,
)
    requires
        entries_sorted(m),
        0 <= idx <= m.len(),
        forall|j: int| 0 <= j < idx ==> seq_char_lt(#[trigger] m[j].0, k),
        idx < m.len() ==> !seq_char_lt(m[idx].0, k),
    ensures
        idx < m.len() && m[idx].0 == k ==> spec_obj_set(m, k, v) == m.subrange(0, idx) + seq![
            (k, v),
        ] + m.skip(idx + 1),
        !(idx < m.len() && m[idx].0 == k) ==> spec_obj_set(m, k, v) == m.subrange(0, idx) + seq![
            (k, v),
        ] + m.skip(idx),
    decreases m.len(),
{
    if idx == 0 {
        if m.len() == 0 {
            assert(spec_obj_set(m, k, v) =~= m.subrange(0, 0) + seq![(k, v)] + m.skip(0));
        } else if m[0].0 == k {
            assert(spec_obj_set(m, k, v) =~= m.subrange(0, 0) + seq![(k, v)] + m.skip(1));
        } else {
            lemma_lt_trichotomy(k, m[0].0);
            assert(seq_char_lt(k, m[0].0));
            assert(spec_obj_set(m, k, v) =~= m.subrange(0, 0) + seq![(k, v)] + m.skip(0));
        }
    } else {
        assert(seq_char_lt(m[0].0, k));
        lemma_lt_trichotomy(m[0].0, k);
        assert(m[0].0 != k);
        assert(!seq_char_lt(k, m[0].0));
        let tail = m.drop_first();
        assert(entries_sorted(tail)) by {
            assert(forall|i: int, j: int|
                0 <= i < j < tail.len() ==> seq_char_lt(#[trigger] tail[i].0, #[trigger] tail[j].0))
                by {
                assert(forall|i: int, j: int|
                    0 <= i < j < tail.len() ==> tail[i].0 == m[i + 1].0 && tail[j].0 == m[j + 1].0);
            }
        }
        assert(forall|j: int| 0 <= j < idx - 1 ==> seq_char_lt(#[trigger] tail[j].0, k)) by {
            assert(forall|j: int| 0 <= j < idx - 1 ==> tail[j].0 == m[j + 1].0);
        }
        assert(idx - 1 < tail.len() ==> !seq_char_lt(tail[idx - 1].0, k));
        lemma_obj_set_position(tail, k, v, idx - 1);
        assert(spec_obj_set(m, k, v) == seq![m[0]] + spec_obj_set(tail, k, v));
        if idx < m.len() && m[idx].0 == k {
            assert(tail[idx - 1].0 == k);
            assert(seq![m[0]] + (tail.subrange(0, idx - 1) + seq![(k, v)] + tail.skip(idx)) =~= m
                .subrange(0, idx) + seq![(k, v)] + m.skip(idx + 1));
        } else {
            assert(idx - 1 < tail.len() ==> tail[idx - 1].0 != k);
            assert(seq![m[0]] + (tail.subrange(0, idx - 1) + seq![(k, v)] + tail.skip(idx - 1))
                =~= m.subrange(0, idx) + seq![(k, v)] + m.skip(idx));
        }
    }
}

/// A key equal to no entry's key is not bound.
pub proof fn lemma_obj_get_absent(m: Seq<(Seq<char>, SpecValue)>, k: Seq<char>)
    requires
        forall|j: int| 0 <= j < m.len() ==> (#[trigger] m[j].0) != k,
    ensures
        spec_obj_get(m, k) is None,
    decreases m.len(),
{
    if m.len() > 0 {
        assert(forall|j: int|
            0 <= j < m.drop_first().len() ==> (#[trigger] m.drop_first()[j].0) == m[j + 1].0);
        lemma_obj_get_absent(m.drop_first(), k);
    }
}

/// In a sorted entry sequence, a key's binding sits at the first position
/// whose key is not below it, or nowhere.
pub proof fn lemma_obj_get_position(m: Seq<(Seq<char>, SpecValue)>, k: Seq<char>, idx: int)
    requires
        entries_sorted(m),
        0 <= idx <= m.len(),
        forall|j: int| 0 <= j < idx ==> seq_char_lt(#[trigger] m[j].0, k),
        idx < m.len() ==> !seq_char_lt(m[idx].0, k),
    ensures
        idx < m.len() && m[idx].0 == k ==> spec_obj_get(m, k) == Some(m[idx].1),
        !(idx < m.len() && m[idx].0 == k) ==> spec_obj_get(m, k) is None,
    decreases m.len(),
{
    if m.len() == 0 {
    } else if idx > 0 {
        lemma_lt_trichotomy(m[0].0, k);
        let tail = m.drop_first();
        assert(forall|i: int, j: int|
            0 <= i < j < tail.len() ==> tail[i].0 == m[i + 1].0 && tail[j].0 == m[j + 1].0);
        assert(forall|j: int| 0 <= j < idx - 1 ==> (#[trigger] tail[j].0) == m[j + 1].0);
        lemma_obj_get_position(tail, k, idx - 1);
        assert(idx < m.len() && m[idx].0 == k ==> tail[idx - 1] == m[idx]);
    } else {
        if m[0].0 == k {
        } else {
            lemma_lt_trichotomy(k, m[0].0);
            assert(seq_char_lt(k, m[0].0));
            let tail = m.drop_first();
            assert forall|j: int| 0 <= j < tail.len() implies (#[trigger] tail[j].0) != k by {
                assert(tail[j] == m[j + 1]);
                assert(seq_char_lt(m[0].0, m[j + 1].0));
                lemma_lt_transitive(k, m[0].0, tail[j].0);
                lemma_lt_trichotomy(k, tail[j].0);
            }
            lemma_obj_get_absent(tail, k);
        }
    }
}

/// Binding a key in a sorted, well-formed entry sequence splices the pair
/// in at the first position whose key is not below it, and keeps the
/// sequence sorted and well-formed.
pub proof fn lemma_obj_set_splice(
    m: Seq<(Seq<char>, SpecValue)>,
    k: Seq<char>,
    v: SpecValue,
    idx: int,
)
    requires
        spec_value_wf(SpecValue::Obj(m)),
        spec_value_wf(v),
        0 <= idx <= m.len(),
        forall|j: int| 0 <= j < idx ==> seq_char_lt(#[trigger] m[j].0, k),
        idx < m.len() ==> !seq_char_lt(m[idx].0, k),
    ensures
        idx < m.len() && m[idx].0 == k ==> spec_obj_set(m, k, v) == m.subrange(0, idx) + seq![
            (k, v),
        ] + m.skip(idx + 1),
        !(idx < m.len() && m[idx].0 == k) ==> spec_obj_set(m, k, v) == m.subrange(0, idx) + seq![
            (k, v),
        ] + m.skip(idx),
        spec_value_wf(SpecValue::Obj(spec_obj_set(m, k, v))),
{
    lemma_obj_set_position(m, k, v, idx);
    let s = spec_obj_set(m, k, v);
    if idx < m.len() && m[idx].0 == k {
        assert(s.len() == m.len());
        assert(forall|j: int| 0 <= j < s.len() && j != idx ==> s[j] == m[j]);
        assert(s[idx] == (k, v));
        assert(entries_sorted(s)) by {
            assert forall|i: int, j: int| 0 <= i < j < s.len() implies seq_char_lt(
                s[i].0,
                s[j].0,
            ) by {
                assert(seq_char_lt(m[i].0, m[j].0));
            }
        }
        assert(forall|j: int| 0 <= j < s.len() ==> spec_value_wf(#[trigger] s[j].1));
    } else {
        assert(s.len() == m.len() + 1);
        assert(forall|j: int| 0 <= j < idx ==> s[j] == m[j]);
        assert(s[idx] == (k, v));
        assert(forall|j: int| idx < j < s.len() ==> s[j] == m[j - 1]);
        assert(entries_sorted(s)) by {
            assert forall|i: int, j: int| 0 <= i < j < s.len() implies seq_char_lt(
                s[i].0,
                s[j].0,
            ) by {
                if j < idx {
                } else if i < idx && j == idx {
                    assert(seq_char_lt(m[i].0, k));
                } else if i < idx && j > idx {
                    assert(seq_char_lt(m[i].0, m[j - 1].0));
                } else if i == idx {
                    assert(j - 1 >= idx && j - 1 < m.len());
                    lemma_lt_trichotomy(k, m[idx].0);
                    assert(seq_char_lt(k, m[idx].0));
                    if j - 1 > idx {
                        assert(seq_char_lt(m[idx].0, m[j - 1].0));
                        lemma_lt_transitive(k, m[idx].0, m[j - 1].0);
                    }
                } else {
                    assert(seq_char_lt(m[i - 1].0, m[j - 1].0));
                }
            }
        }
        assert(forall|j: int| 0 <= j < s.len() ==> spec_value_wf(#[trigger] s[j].1));
    }
}

/// The position of the first entry whose key is not below `key`.
pub(crate) fn find_pos(entries: &Vec<(String, JsonValue)>, key: &str) -> (idx: usize)
    ensures
        idx <= entries@.len(),
        forall|j: int| 0 <= j < idx ==> seq_char_lt(#[trigger] entries_view(entries@)[j].0, key@),
        idx < entries@.len() ==> !seq_char_lt(entries_view(entries@)[idx as int].0, key@),
{
    let mut idx: usize = 0;
    loop
        invariant
            idx <= entries@.len(),
            forall|j: int| 0 <= j < idx ==> seq_char_lt(
                #[trigger] entries_view(entries@)[j].0,
                key@,
            ),
        ensures
            idx <= entries@.len(),
            forall|j: int| 0 <= j < idx ==> seq_char_lt(
                #[trigger] entries_view(entries@)[j].0,
                key@,
            ),
            idx < entries@.len() ==> !seq_char_lt(entries_view(entries@)[idx as int].0, key@),
        decreases entries@.len() - idx,
    {
        if idx == entries.len() {
            break;
        }
        let c = str_cmp(entries[idx].0.as_str(), key);
        if c >= 0 {
            break;
        }
        idx += 1;
    }
    idx
}

/// Binds `key` in a sorted, well-formed entry vector, keeping it sorted
/// and well-formed.
pub(crate) fn entries_put(entries: &mut Vec<(String, JsonValue)>, key: String, value: JsonValue)
    requires
        spec_value_wf(SpecValue::Obj(entries_view(old(entries)@))),
        value.wf(),
    ensures
        entries_view(final(entries)@) == spec_obj_set(entries_view(old(entries)@), key@, value@),
        spec_value_wf(SpecValue::Obj(entries_view(final(entries)@))),
{
    let ghost m = entries_view(entries@);
    let idx = find_pos(entries, key.as_str());
    let mut found = false;
    if idx < entries.len() {
        if str_cmp(entries[idx].0.as_str(), key.as_str()) == 0 {
            found = true;
        }
    }
    proof {
        lemma_obj_set_splice(m, key@, value@, idx as int);
    }
    if found {
        let _prev = entries.remove(idx);
        entries.insert(idx, (key, value));
        proof {
            assert(entries_view(entries@) =~= m.subrange(0, idx as int) + seq![
                (key@, value@),
            ] + m.skip(idx as int + 1));
        }
    } else {
        entries.insert(idx, (key, value));
        proof {
            assert(entries_view(entries@) =~= m.subrange(0, idx as int) + seq![
                (key@, value@),
            ] + m.skip(idx as int));
        }
    }
}

impl JsonValue {
    /// Binds `key` in an object value, keeping its entries sorted by key.
    pub fn obj_set(self, key: &str, value: JsonValue) -> (r: JsonValue)
        requires
            self@ is Obj,
            self.wf(),
            value.wf(),
        ensures
            r@ == SpecValue::Obj(spec_obj_set(self@->Obj_0, key@, value@)),
            r.wf(),
    {
        match self {
            JsonValue::Obj(mut entries) => {
                let ghost m = entries_view(entries@);
                proof {
                    assert(view_of(JsonValue::Obj(entries))->Obj_0 =~= m);
                }
                entries_put(&mut entries, key.to_owned(), value);
                let r = JsonValue::Obj(entries);
                proof {
                    assert(r@->Obj_0 =~= entries_view(entries@));
                }
                r
            },
            other => {
                proof {
                    assert(false);
                }
                other
            },
        }
    }

    /// Pushes an item at an array value's end.
    pub fn arr_push(self, value: JsonValue) -> (r: JsonValue)
        requires
            self@ is Arr,
            self.wf(),
            value.wf(),
        ensures
            r@ == SpecValue::Arr(self@->Arr_0.push(value@)),
            r.wf(),
    {
        match self {
            JsonValue::Arr(mut items) => {
                let ghost old_view = view_of(JsonValue::Arr(items))->Arr_0;
                items.push(value);
                let r = JsonValue::Arr(items);
                proof {
                    assert(r@->Arr_0 =~= old_view.push(value@));
                }
                r
            },
            other => {
                proof {
                    assert(false);
                }
                other
            },
        }
    }
}

} // verus!
