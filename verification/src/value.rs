//! The decoded value tree and its mathematical view.

use vstd::prelude::*;

verus! {

broadcast use vstd::std_specs::vec::group_vec_axioms;

/// A decimal floating-point literal, kept exactly as it was written: the
/// digits before the decimal point read as an integer, the digits after it
/// read as an integer, and how many digits stood after the point.  The
/// numeric value is `whole + frac / 10^frac_len`; keeping the three parts
/// avoids any rounding inside the library.
#[derive(Clone, Copy, Debug, PartialEq, Eq, Structural)]
pub struct JsonFloat {
    /// Digits before the decimal point (0 when none were written).
    pub whole: i64,
    /// Digits after the decimal point, read as an integer (0 when none).
    pub frac: i64,
    /// How many digits stood after the decimal point (0 when none).
    pub frac_len: usize,
}

/// A decoded JSON value: a tree built in one pass by the parser and never
/// shared — arrays and objects own their children outright.
///
/// An object is a list of key/value entries with pairwise distinct keys;
/// inserting an existing key overwrites its entry in place (last write
/// wins), so textual order of first appearance is kept.
#[derive(Debug, PartialEq)]
pub enum JsonValue {
    Null,
    Bool(bool),
    Integer(i64),
    Float(JsonFloat),
    String(String),
    Array(Vec<JsonValue>),
    Object(Vec<(String, JsonValue)>),
}

/// The mathematical shadow of [`JsonValue`]: integers are unbounded, text is
/// a sequence of characters, containers are sequences.
pub enum JsonView {
    Null,
    Bool(bool),
    Integer(int),
    Float { whole: int, frac: int, frac_len: nat },
    String(Seq<char>),
    Array(Seq<JsonView>),
    Object(Seq<(Seq<char>, JsonView)>),
}

/// The view of a value tree, computed structurally.
pub open spec fn jv_view(v: JsonValue) -> JsonView
    decreases v,
{
    match v {
        JsonValue::Null => JsonView::Null,
        JsonValue::Bool(b) => JsonView::Bool(b),
        JsonValue::Integer(i) => JsonView::Integer(i as int),
        JsonValue::Float(f) => JsonView::Float {
            whole: f.whole as int,
            frac: f.frac as int,
            frac_len: f.frac_len as nat,
        },
        JsonValue::String(s) => JsonView::String(s@),
        JsonValue::Array(vs) => JsonView::Array(
            Seq::new(
                vs@.len(),
                |i: int|
                    if 0 <= i < vs.len() {
                        jv_view(vs[i])
                    } else {
                        JsonView::Null
                    },
            ),
        ),
        JsonValue::Object(es) => JsonView::Object(
            Seq::new(
                es@.len(),
                |i: int|
                    if 0 <= i < es.len() {
                        (es[i].0@, jv_view(es[i].1))
                    } else {
                        (Seq::empty(), JsonView::Null)
                    },
            ),
        ),
    }
}

impl DeepView for JsonValue {
    type V = JsonView;

    open spec fn deep_view(&self) -> JsonView {
        jv_view(*self)
    }
}

impl JsonValue {
    /// The boolean carried by a boolean value.
    pub fn as_bool(&self) -> (r: Option<bool>)
        ensures
            r == (match *self {
                JsonValue::Bool(b) => Some(b),
                _ => None::<bool>,
            }),
    {
        if let JsonValue::Bool(value) = self {
            Some(*value)
        } else {
            None
        }
    }

    /// The machine integer carried by an integer value.
    pub fn as_integer(&self) -> (r: Option<i64>)
        ensures
            r == (match *self {
                JsonValue::Integer(i) => Some(i),
                _ => None::<i64>,
            }),
    {
        if let JsonValue::Integer(value) = self {
            Some(*value)
        } else {
            None
        }
    }

    /// The decimal literal carried by a float value.
    pub fn as_float(&self) -> (r: Option<JsonFloat>)
        ensures
            r == (match *self {
                JsonValue::Float(f) => Some(f),
                _ => None::<JsonFloat>,
            }),
    {
        if let JsonValue::Float(value) = self {
            Some(*value)
        } else {
            None
        }
    }

    /// The text carried by a string value.
    pub fn as_string(&self) -> (r: Option<&str>)
        ensures
            (match *self {
                JsonValue::String(v) => r matches Some(s) && s@ == v@,
                _ => r is None,
            }),
    {
        if let JsonValue::String(value) = self {
            Some(value.as_str())
        } else {
            None
        }
    }

    /// Exclusive access to the text carried by a string value.
    pub fn as_string_mut(&mut self) -> (r: Option<&mut String>)
        ensures
            (r is Some) == (*old(self) matches JsonValue::String(..)),
    {
        if let JsonValue::String(value) = self {
            Some(value)
        } else {
            None
        }
    }

    /// The elements carried by an array value.
    pub fn as_array(&self) -> (r: Option<&[JsonValue]>)
        ensures
            (match *self {
                JsonValue::Array(vs) => r matches Some(a) && a@ == vs@,
                _ => r is None,
            }),
    {
        if let JsonValue::Array(value) = self {
            Some(value.as_slice())
        } else {
            None
        }
    }

    /// Exclusive access to the elements carried by an array value.
    pub fn as_array_mut(&mut self) -> (r: Option<&mut Vec<JsonValue>>)
        ensures
            (r is Some) == (*old(self) matches JsonValue::Array(..)),
    {
        if let JsonValue::Array(value) = self {
            Some(value)
        } else {
            None
        }
    }

    /// The entries carried by an object value, in first-written key order.
    pub fn as_object(&self) -> (r: Option<&Vec<(String, JsonValue)>>)
        ensures
            (match *self {
                JsonValue::Object(es) => r matches Some(o) && o@ == es@,
                _ => r is None,
            }),
    {
        if let JsonValue::Object(value) = self {
            Some(value)
        } else {
            None
        }
    }

    /// Exclusive access to the entries carried by an object value.
    pub fn as_object_mut(&mut self) -> (r: Option<&mut Vec<(String, JsonValue)>>)
        ensures
            (r is Some) == (*old(self) matches JsonValue::Object(..)),
    {
        if let JsonValue::Object(value) = self {
            Some(value)
        } else {
            None
        }
    }
}

/// Character-for-character equality of two strings.
pub fn str_eq(a: &str, b: &str) -> (r: bool)
    ensures
        r == (a@ == b@),
{
    let n = a.unicode_len();
    let m = b.unicode_len();
    if n != m {
        return false;
    }
    let mut i: usize = 0;
    while i < n
        invariant
            0 <= i <= n,
            n == a@.len(),
            n == b@.len(),
            forall|j: int| 0 <= j < i ==> a@[j] == b@[j],
        decreases n - i,
    {
        if a.get_char(i) != b.get_char(i) {
            return false;
        }
        i += 1;
    }
    proof {
        assert(a@ =~= b@);
    }
    true
}

/// Entry keys are pairwise distinct.
pub open spec fn keys_unique(es: Seq<(Seq<char>, JsonView)>) -> bool {
    forall|i: int, j: int| 0 <= i < j < es.len() ==> es[i].0 != es[j].0
}

/// Insert with last-write-wins: replace the first entry carrying `k` in
/// place, or append a new entry when no entry carries `k`.
pub open spec fn upsert(
    es: Seq<(Seq<char>, JsonView)>,
    k: Seq<char>,
    v: JsonView,
) -> Seq<(Seq<char>, JsonView)>
    decreases es.len(),
{
    if es.len() == 0 {
        seq![(k, v)]
    } else if es[0].0 == k {
        seq![(k, v)] + es.drop_first()
    } else {
        seq![es[0]] + upsert(es.drop_first(), k, v)
    }
}

/// The value carried by the first entry with key `k`, if any.
pub open spec fn lookup(es: Seq<(Seq<char>, JsonView)>, k: Seq<char>) -> Option<JsonView>
    decreases es.len(),
{
    if es.len() == 0 {
        None
    } else if es[0].0 == k {
        Some(es[0].1)
    } else {
        lookup(es.drop_first(), k)
    }
}

/// When the first entry carrying `k` stands at `i`, that entry's value is
/// looked up.
pub proof fn lemma_lookup_found(es: Seq<(Seq<char>, JsonView)>, k: Seq<char>, i: int)
    requires
        0 <= i < es.len(),
        es[i].0 == k,
        forall|j: int| 0 <= j < i ==> es[j].0 != k,
    ensures
        lookup(es, k) == Some(es[i].1),
    decreases i,
{
    if i > 0 {
        assert(forall|j: int| 0 <= j < i - 1 ==> es.drop_first()[j] == es[j + 1]);
        lemma_lookup_found(es.drop_first(), k, i - 1);
    }
}

/// When no entry carries `k`, nothing is looked up.
pub proof fn lemma_lookup_missing(es: Seq<(Seq<char>, JsonView)>, k: Seq<char>)
    requires
        forall|j: int| 0 <= j < es.len() ==> es[j].0 != k,
    ensures
        lookup(es, k) is None,
    decreases es.len(),
{
    if es.len() > 0 {
        assert(forall|j: int| 0 <= j < es.len() - 1 ==> es.drop_first()[j] == es[j + 1]);
        lemma_lookup_missing(es.drop_first(), k);
    }
}

/// The value of the entry carrying `key`, if any.
#[verifier::loop_isolation(false)]
pub fn object_get<'a>(entries: &'a Vec<(String, JsonValue)>, key: &str) -> (r: Option<
    &'a JsonValue,
>)
    ensures
        (match lookup(entries.deep_view(), key@) {
            Some(v) => r matches Some(out) && out.deep_view() == v,
            None => r is None,
        }),
{
    let n = entries.len();
    let mut i: usize = 0;
    while i < n
        invariant
            0 <= i <= n,
            forall|j: int| 0 <= j < i ==> entries@[j].0@ != key@,
        decreases n - i,
    {
        if str_eq(entries[i].0.as_str(), key) {
            proof {
                assert forall|j: int| 0 <= j < i implies #[trigger] entries.deep_view()[j].0
                    != key@ by {
                    lemma_entry_view(*entries, j);
                }
                lemma_entry_view(*entries, i as int);
                lemma_lookup_found(entries.deep_view(), key@, i as int);
            }
            return Some(&entries[i].1);
        }
        i += 1;
    }
    proof {
        assert forall|j: int|
            0 <= j < entries.deep_view().len() implies #[trigger] entries.deep_view()[j].0
            != key@ by {
            lemma_entry_view(*entries, j);
        }
        lemma_lookup_missing(entries.deep_view(), key@);
    }
    None
}

/// Fold a run of parsed key/value pairs into an entry list, left to right,
/// with last-write-wins insertion.
pub open spec fn fold_pairs(
    acc: Seq<(Seq<char>, JsonView)>,
    pairs: Seq<(Seq<char>, JsonView)>,
) -> Seq<(Seq<char>, JsonView)>
    decreases pairs.len(),
{
    if pairs.len() == 0 {
        acc
    } else {
        fold_pairs(upsert(acc, pairs[0].0, pairs[0].1), pairs.drop_first())
    }
}

/// Folding one more pair is one more insertion.
pub proof fn lemma_fold_pairs_push(
    acc: Seq<(Seq<char>, JsonView)>,
    pairs: Seq<(Seq<char>, JsonView)>,
    k: Seq<char>,
    v: JsonView,
)
    ensures
        fold_pairs(acc, pairs.push((k, v))) == upsert(fold_pairs(acc, pairs), k, v),
    decreases pairs.len(),
{
    reveal_with_fuel(fold_pairs, 3);
    if pairs.len() == 0 {
        assert(pairs.push((k, v))[0] == (k, v));
        assert(pairs.push((k, v)).drop_first() =~= Seq::<(Seq<char>, JsonView)>::empty());
    } else {
        assert(pairs.push((k, v))[0] == pairs[0]);
        assert(pairs.push((k, v)).drop_first() =~= pairs.drop_first().push((k, v)));
        lemma_fold_pairs_push(upsert(acc, pairs[0].0, pairs[0].1), pairs.drop_first(), k, v);
    }
}

/// When the first entry carrying `k` stands at `i`, insertion updates that
/// entry in place.
pub proof fn lemma_upsert_found(es: Seq<(Seq<char>, JsonView)>, k: Seq<char>, v: JsonView, i: int)
    requires
        0 <= i < es.len(),
        es[i].0 == k,
        forall|j: int| 0 <= j < i ==> es[j].0 != k,
    ensures
        upsert(es, k, v) == es.update(i, (k, v)),
    decreases i,
{
    if i == 0 {
        assert(upsert(es, k, v) =~= es.update(0, (k, v)));
    } else {
        assert(forall|j: int| 0 <= j < i - 1 ==> es.drop_first()[j] == es[j + 1]);
        lemma_upsert_found(es.drop_first(), k, v, i - 1);
        assert(upsert(es, k, v) =~= es.update(i, (k, v)));
    }
}

/// When no entry carries `k`, insertion appends.
pub proof fn lemma_upsert_missing(es: Seq<(Seq<char>, JsonView)>, k: Seq<char>, v: JsonView)
    requires
        forall|j: int| 0 <= j < es.len() ==> es[j].0 != k,
    ensures
        upsert(es, k, v) == es.push((k, v)),
    decreases es.len(),
{
    if es.len() == 0 {
        assert(upsert(es, k, v) =~= es.push((k, v)));
    } else {
        assert(forall|j: int| 0 <= j < es.len() - 1 ==> es.drop_first()[j] == es[j + 1]);
        lemma_upsert_missing(es.drop_first(), k, v);
        assert(upsert(es, k, v) =~= es.push((k, v)));
    }
}

/// Insertion keeps keys pairwise distinct.
pub proof fn lemma_upsert_keys_unique(es: Seq<(Seq<char>, JsonView)>, k: Seq<char>, v: JsonView)
    requires
        keys_unique(es),
    ensures
        keys_unique(upsert(es, k, v)),
        lookup(upsert(es, k, v), k) == Some(v),
    decreases es.len(),
{
    if es.len() == 0 {
        assert(upsert(es, k, v)[0] == (k, v));
    } else if es[0].0 == k {
        let r = upsert(es, k, v);
        assert(r[0] == (k, v));
        assert(forall|j: int| 0 < j < r.len() ==> r[j] == es[j]);
    } else {
        assert(forall|j: int| 0 <= j < es.len() - 1 ==> es.drop_first()[j] == es[j + 1]);
        lemma_upsert_keys_unique(es.drop_first(), k, v);
        let r = upsert(es, k, v);
        let rt = upsert(es.drop_first(), k, v);
        assert(r[0] == es[0]);
        assert(forall|j: int| 0 < j < r.len() ==> r[j] == rt[j - 1]);
        assert(r.drop_first() =~= rt);
        assert forall|j: int| 0 < j < r.len() implies r[0].0 != #[trigger] r[j].0 by {
            lemma_upsert_member(es.drop_first(), k, v, (j - 1) as nat);
        }
    }
}

/// Every key of an insertion result is an old key or the inserted one.
pub proof fn lemma_upsert_member(es: Seq<(Seq<char>, JsonView)>, k: Seq<char>, v: JsonView, j: nat)
    requires
        j < upsert(es, k, v).len(),
    ensures
        upsert(es, k, v)[j as int].0 == k || (exists|i: int|
            0 <= i < es.len() && es[i].0 == upsert(es, k, v)[j as int].0),
    decreases es.len(),
{
    if es.len() == 0 {
    } else if es[0].0 == k {
        if j > 0 {
            assert(upsert(es, k, v)[j as int] == es[j as int]);
        }
    } else {
        if j > 0 {
            lemma_upsert_member(es.drop_first(), k, v, (j - 1) as nat);
            assert(upsert(es, k, v)[j as int] == upsert(es.drop_first(), k, v)[j - 1]);
            let r0 = upsert(es.drop_first(), k, v)[j - 1].0;
            if r0 != k {
                let i = choose|i: int|
                    0 <= i < es.drop_first().len() && es.drop_first()[i].0 == r0;
                assert(es[i + 1].0 == r0);
            }
        }
    }
}

/// Entry lists of well-formed objects have pairwise distinct keys.
pub proof fn lemma_fold_pairs_keys_unique(
    acc: Seq<(Seq<char>, JsonView)>,
    pairs: Seq<(Seq<char>, JsonView)>,
)
    requires
        keys_unique(acc),
    ensures
        keys_unique(fold_pairs(acc, pairs)),
    decreases pairs.len(),
{
    if pairs.len() > 0 {
        lemma_upsert_keys_unique(acc, pairs[0].0, pairs[0].1);
        lemma_fold_pairs_keys_unique(upsert(acc, pairs[0].0, pairs[0].1), pairs.drop_first());
    }
}

/// The view of one entry of an entry list.
pub proof fn lemma_entry_view(es: Vec<(String, JsonValue)>, j: int)
    requires
        0 <= j < es@.len(),
    ensures
        es.deep_view().len() == es@.len(),
        es.deep_view()[j] == (es@[j].0@, jv_view(es@[j].1)),
{
    assert(es.deep_view()[j] == es@[j].deep_view());
    assert(es@[j].deep_view() == (es@[j].0.deep_view(), es@[j].1.deep_view()));
    assert(es@[j].0.deep_view() == es@[j].0@);
    assert(es@[j].1.deep_view() == jv_view(es@[j].1));
}

/// The view of an array value is the element views in order.
pub proof fn lemma_array_view(vs: Vec<JsonValue>)
    ensures
        jv_view(JsonValue::Array(vs)) == JsonView::Array(vs.deep_view()),
{
    assert(jv_view(JsonValue::Array(vs))->Array_0 =~= vs.deep_view());
}

/// The view of an object value is the entry views in order.
pub proof fn lemma_object_view(es: Vec<(String, JsonValue)>)
    ensures
        jv_view(JsonValue::Object(es)) == JsonView::Object(es.deep_view()),
{
    assert(jv_view(JsonValue::Object(es))->Object_0 =~= es.deep_view());
}

/// Insert an entry with last-write-wins: overwrite the entry carrying
/// `key` in place, or append when `key` is new.
#[verifier::loop_isolation(false)]
pub fn object_insert(entries: &mut Vec<(String, JsonValue)>, key: String, value: JsonValue)
    ensures
        (*final(entries)).deep_view() == upsert((*old(entries)).deep_view(), key@, jv_view(value)),
{
    let ghost orig: Vec<(String, JsonValue)> = *entries;
    let ghost kv = key@;
    let ghost vv = jv_view(value);
    let n = entries.len();
    let mut i: usize = 0;
    while i < n
        invariant
            0 <= i <= n,
            n == orig@.len(),
            *entries == orig,
            forall|j: int| 0 <= j < i ==> orig@[j].0@ != key@,
        decreases n - i,
    {
        if entries[i].0 == key {
            proof {
                assert forall|j: int| 0 <= j < i implies #[trigger] orig.deep_view()[j].0
                    != kv by {
                    lemma_entry_view(orig, j);
                }
                lemma_entry_view(orig, i as int);
                lemma_upsert_found(orig.deep_view(), kv, vv, i as int);
            }
            let pair = (key, value);
            entries.remove(i);
            entries.insert(i, pair);
            proof {
                let cur: Vec<(String, JsonValue)> = *entries;
                assert(cur@ =~= orig@.update(i as int, (cur@[i as int])));
                assert forall|j: int| 0 <= j < cur.deep_view().len() implies #[trigger] cur
                    .deep_view()[j] == orig.deep_view().update(i as int, (kv, vv))[j] by {
                    lemma_entry_view(cur, j);
                    if j != i {
                        lemma_entry_view(orig, j);
                    }
                }
                assert(cur.deep_view() =~= orig.deep_view().update(i as int, (kv, vv)));
            }
            return;
        }
        i += 1;
    }
    proof {
        assert forall|j: int| 0 <= j < orig.deep_view().len() implies #[trigger] orig.deep_view()[j].0
            != kv by {
            lemma_entry_view(orig, j);
        }
        lemma_upsert_missing(orig.deep_view(), kv, vv);
    }
    entries.push((key, value));
    proof {
        let cur: Vec<(String, JsonValue)> = *entries;
        assert forall|j: int| 0 <= j < cur.deep_view().len() implies #[trigger] cur.deep_view()[j]
            == orig.deep_view().push((kv, vv))[j] by {
            lemma_entry_view(cur, j);
            if j < orig@.len() {
                lemma_entry_view(orig, j);
            }
        }
        assert(cur.deep_view() =~= orig.deep_view().push((kv, vv)));
    }
}

} // verus!
