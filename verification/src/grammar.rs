//! The grammar, stated once as spec functions over character sequences.
//!
//! Each `spec_parse_*` function maps a cursor (the remaining input) to the
//! pair of the new cursor and an optional decoded fragment.  Absence of a
//! fragment means "this parser did not match here", and the cursor is then
//! returned unchanged — that invariant is definitional below and is what
//! makes backtracking sound.
//!
//! The two loop-shaped productions (`spec_parse_elements`,
//! `spec_parse_members`) recurse only under an explicit cursor-shrinks test
//! so that termination is structural; [`lemma_parse_bounds`] proves that the
//! test always holds, so the guarded branch is never the one taken.

use vstd::prelude::*;

use crate::value::JsonView;
use crate::value::fold_pairs;
use crate::value::keys_unique;
use crate::value::lemma_fold_pairs_keys_unique;

verus! {

// ---------------------------------------------------------------------------
// Character classes and spans
// ---------------------------------------------------------------------------

/// The whitespace characters that separate tokens: the Unicode
/// `White_Space` code points.
pub open spec fn is_ws_char(c: char) -> bool {
    let u = c as u32;
    u == 0x09 || u == 0x0A || u == 0x0B || u == 0x0C || u == 0x0D || u == 0x20 || u == 0x85 || u
        == 0xA0 || u == 0x1680 || (0x2000 <= u && u <= 0x200A) || u == 0x2028 || u == 0x2029 || u
        == 0x202F || u == 0x205F || u == 0x3000
}

/// ASCII decimal digits.
pub open spec fn is_digit_char(c: char) -> bool {
    48 <= c as u32 <= 57
}

/// The numeric value of an ASCII digit.
pub open spec fn digit_val(c: char) -> int {
    c as u32 - 48
}

pub open spec fn ws_pred() -> spec_fn(char) -> bool {
    |c: char| is_ws_char(c)
}

pub open spec fn digit_pred() -> spec_fn(char) -> bool {
    |c: char| is_digit_char(c)
}

pub open spec fn non_quote_pred() -> spec_fn(char) -> bool {
    |c: char| c != '"'
}

/// Length of the maximal leading run of characters satisfying `p`.
pub open spec fn span_len(s: Seq<char>, p: spec_fn(char) -> bool) -> nat
    decreases s.len(),
{
    if s.len() > 0 && p(s[0]) {
        1 + span_len(s.drop_first(), p)
    } else {
        0
    }
}

pub proof fn lemma_span_len_le(s: Seq<char>, p: spec_fn(char) -> bool)
    ensures
        span_len(s, p) <= s.len(),
    decreases s.len(),
{
    if s.len() > 0 && p(s[0]) {
        lemma_span_len_le(s.drop_first(), p);
    }
}

/// Every character inside the span satisfies `p`, and the span is maximal.
pub proof fn lemma_span_len_props(s: Seq<char>, p: spec_fn(char) -> bool)
    ensures
        span_len(s, p) <= s.len(),
        forall|i: int| 0 <= i < span_len(s, p) ==> p(s[i]),
        span_len(s, p) < s.len() ==> !p(s[span_len(s, p) as int]),
    decreases s.len(),
{
    lemma_span_len_le(s, p);
    if s.len() > 0 && p(s[0]) {
        lemma_span_len_props(s.drop_first(), p);
        assert forall|i: int| 0 <= i < span_len(s, p) implies p(s[i]) by {
            if i > 0 {
                assert(p(s.drop_first()[i - 1]));
            }
        }
    }
}

/// A run of `n` characters satisfying `p`, not extendable, pins `span_len`.
pub proof fn lemma_span_len_from(s: Seq<char>, p: spec_fn(char) -> bool, n: nat)
    requires
        n <= s.len(),
        forall|i: int| 0 <= i < n ==> p(s[i]),
        n < s.len() ==> !p(s[n as int]),
    ensures
        span_len(s, p) == n,
    decreases s.len(),
{
    if n == 0 {
        assert(s.len() > 0 ==> !p(s[0]));
    } else {
        assert(p(s[0]));
        assert forall|i: int| 0 <= i < n - 1 implies p(s.drop_first()[i]) by {
            assert(p(s[i + 1]));
        }
        assert(n - 1 < s.drop_first().len() ==> !p(s.drop_first()[n - 1]));
        lemma_span_len_from(s.drop_first(), p, (n - 1) as nat);
    }
}

/// The cursor after the leading whitespace.
pub open spec fn skip_ws(s: Seq<char>) -> Seq<char> {
    s.skip(span_len(s, ws_pred()) as int)
}

/// Length of the maximal trailing run of whitespace.
pub open spec fn ws_suffix_len(s: Seq<char>) -> nat
    decreases s.len(),
{
    if s.len() > 0 && is_ws_char(s.last()) {
        1 + ws_suffix_len(s.drop_last())
    } else {
        0
    }
}

/// A trailing run of `n` whitespace characters, not extendable, pins
/// `ws_suffix_len`.
pub proof fn lemma_ws_suffix_from(s: Seq<char>, n: nat)
    requires
        n <= s.len(),
        forall|i: int| s.len() - n <= i < s.len() ==> is_ws_char(s[i]),
        n < s.len() ==> !is_ws_char(s[s.len() - n - 1]),
    ensures
        ws_suffix_len(s) == n,
    decreases n,
{
    if n == 0 {
        assert(s.len() > 0 ==> !is_ws_char(s.last()));
    } else {
        assert(is_ws_char(s.last()));
        lemma_ws_suffix_from(s.drop_last(), (n - 1) as nat);
    }
}

/// The input with leading and trailing whitespace removed.
pub open spec fn trim_ws(s: Seq<char>) -> Seq<char> {
    let t = skip_ws(s);
    t.take(t.len() - ws_suffix_len(t))
}

proof fn lemma_ws_suffix_le(s: Seq<char>)
    ensures
        ws_suffix_len(s) <= s.len(),
    decreases s.len(),
{
    if s.len() > 0 && is_ws_char(s.last()) {
        lemma_ws_suffix_le(s.drop_last());
    }
}

proof fn lemma_span_ws_prepend(a: Seq<char>, s: Seq<char>)
    requires
        forall|i: int| 0 <= i < a.len() ==> is_ws_char(a[i]),
    ensures
        span_len(a + s, ws_pred()) == a.len() + span_len(s, ws_pred()),
    decreases a.len(),
{
    if a.len() == 0 {
        assert(a + s =~= s);
    } else {
        assert((a + s)[0] == a[0]);
        assert((a + s).drop_first() =~= a.drop_first() + s);
        lemma_span_ws_prepend(a.drop_first(), s);
    }
}

proof fn lemma_ws_suffix_append(x: Seq<char>, b: Seq<char>)
    requires
        forall|i: int| 0 <= i < b.len() ==> is_ws_char(b[i]),
    ensures
        ws_suffix_len(x + b) == ws_suffix_len(x) + b.len(),
    decreases b.len(),
{
    if b.len() == 0 {
        assert(x + b =~= x);
    } else {
        assert((x + b).last() == b.last());
        assert((x + b).drop_last() =~= x + b.drop_last());
        lemma_ws_suffix_append(x, b.drop_last());
    }
}

/// Whitespace around a document never matters: trimming ignores whatever
/// whitespace is added before or after the text, so the document parser —
/// which works on the trimmed input — gives the same answer for
/// `a + t + b` as for `t` whenever `a` and `b` are all whitespace.
pub proof fn lemma_trim_ws_surround(a: Seq<char>, t: Seq<char>, b: Seq<char>)
    requires
        forall|i: int| 0 <= i < a.len() ==> is_ws_char(a[i]),
        forall|i: int| 0 <= i < b.len() ==> is_ws_char(b[i]),
    ensures
        trim_ws(a + t + b) == trim_ws(t),
{
    let s = a + t + b;
    assert(s =~= a + (t + b));
    lemma_span_ws_prepend(a, t + b);
    let n = span_len(t, ws_pred()) as int;
    lemma_span_len_props(t, ws_pred());
    if n < t.len() {
        assert forall|i: int| 0 <= i < n implies ws_pred()(#[trigger] (t + b)[i]) by {
            assert((t + b)[i] == t[i]);
        }
        assert((t + b)[n] == t[n]);
        lemma_span_len_from(t + b, ws_pred(), n as nat);
        let x = skip_ws(t);
        assert(skip_ws(t + b) =~= x + b);
        assert(skip_ws(s) =~= skip_ws(t + b)) by {
            assert(s.skip(a.len() + n) =~= (t + b).skip(n));
        }
        lemma_ws_suffix_append(x, b);
        lemma_ws_suffix_le(x);
        assert((x + b).take((x + b).len() - ws_suffix_len(x + b)) =~= x.take(
            x.len() - ws_suffix_len(x),
        ));
    } else {
        assert(n == t.len());
        lemma_span_len_from(b, ws_pred(), b.len());
        assert forall|i: int| 0 <= i < t.len() + b.len() implies ws_pred()(
            #[trigger] (t + b)[i],
        ) by {
            if i < t.len() {
                assert((t + b)[i] == t[i]);
            } else {
                assert((t + b)[i] == b[i - t.len()]);
            }
        }
        lemma_span_len_from(t + b, ws_pred(), (t.len() + b.len()) as nat);
        assert(skip_ws(s) =~= Seq::<char>::empty()) by {
            assert(span_len(s, ws_pred()) == s.len());
            assert(s.skip(s.len() as int) =~= Seq::<char>::empty());
        }
        assert(skip_ws(t) =~= Seq::<char>::empty()) by {
            assert(t.skip(t.len() as int) =~= Seq::<char>::empty());
        }
        assert(trim_ws(s) =~= Seq::<char>::empty());
        assert(trim_ws(t) =~= Seq::<char>::empty());
    }
}

// ---------------------------------------------------------------------------
// Digit strings
// ---------------------------------------------------------------------------

/// The numeric value of a digit string, read most significant digit first.
pub open spec fn digits_val(s: Seq<char>) -> int
    decreases s.len(),
{
    if s.len() == 0 {
        0
    } else {
        digits_val(s.drop_last()) * 10 + digit_val(s.last())
    }
}

pub proof fn lemma_digits_val_nonneg(s: Seq<char>)
    requires
        forall|i: int| 0 <= i < s.len() ==> is_digit_char(s[i]),
    ensures
        digits_val(s) >= 0,
    decreases s.len(),
{
    if s.len() > 0 {
        lemma_digits_val_nonneg(s.drop_last());
    }
}

/// Reading one more digit multiplies by ten and adds that digit.
pub proof fn lemma_digits_val_take_step(s: Seq<char>, j: int)
    requires
        0 <= j < s.len(),
    ensures
        digits_val(s.take(j + 1)) == digits_val(s.take(j)) * 10 + digit_val(s[j]),
{
    assert(s.take(j + 1).drop_last() =~= s.take(j));
    assert(s.take(j + 1).last() == s[j]);
}

/// A digit string is at least as large as any of its prefixes.
pub proof fn lemma_digits_val_take_le(s: Seq<char>, m: int)
    requires
        forall|i: int| 0 <= i < s.len() ==> is_digit_char(s[i]),
        0 <= m <= s.len(),
    ensures
        digits_val(s.take(m)) <= digits_val(s),
    decreases s.len() - m,
{
    if m == s.len() {
        assert(s.take(m) =~= s);
    } else {
        lemma_digits_val_take_step(s, m);
        lemma_digits_val_nonneg(s.take(m));
        assert(digits_val(s.take(m)) <= digits_val(s.take(m + 1)));
        lemma_digits_val_take_le(s, m + 1);
    }
}

// ---------------------------------------------------------------------------
// Literals
// ---------------------------------------------------------------------------

pub open spec fn null_chars() -> Seq<char> {
    seq!['n', 'u', 'l', 'l']
}

pub open spec fn true_chars() -> Seq<char> {
    seq!['t', 'r', 'u', 'e']
}

pub open spec fn false_chars() -> Seq<char> {
    seq!['f', 'a', 'l', 's', 'e']
}

/// `lit` is a prefix of `s`.
pub open spec fn starts_with(s: Seq<char>, lit: Seq<char>) -> bool {
    lit.len() <= s.len() && s.take(lit.len() as int) == lit
}

// ---------------------------------------------------------------------------
// Scalar parsers
// ---------------------------------------------------------------------------

/// `null`.
pub open spec fn spec_parse_null(s: Seq<char>) -> (Seq<char>, Option<JsonView>) {
    if starts_with(s, null_chars()) {
        (s.skip(null_chars().len() as int), Some(JsonView::Null))
    } else {
        (s, None)
    }
}

/// `true` or `false`.
pub open spec fn spec_parse_bool(s: Seq<char>) -> (Seq<char>, Option<JsonView>) {
    if starts_with(s, true_chars()) {
        (s.skip(true_chars().len() as int), Some(JsonView::Bool(true)))
    } else if starts_with(s, false_chars()) {
        (s.skip(false_chars().len() as int), Some(JsonView::Bool(false)))
    } else {
        (s, None)
    }
}

/// A maximal run of digits, read as a 64-bit signed integer.  An empty run
/// does not match; a run whose value exceeds `i64::MAX` does not match
/// either (overflow is a parse failure, never wraparound), and the cursor
/// is restored in both cases.
pub open spec fn spec_parse_integer(s: Seq<char>) -> (Seq<char>, Option<JsonView>) {
    let n = span_len(s, digit_pred()) as int;
    if n == 0 {
        (s, None)
    } else if digits_val(s.take(n)) > i64::MAX as int {
        (s, None)
    } else {
        (s.skip(n), Some(JsonView::Integer(digits_val(s.take(n)))))
    }
}

/// An optional whole part, a mandatory `.`, and an optional fractional
/// part; at least one of the two digit runs must be present.  The value is
/// kept exactly as `whole + frac / 10^frac_len`.
pub open spec fn spec_parse_float(s: Seq<char>) -> (Seq<char>, Option<JsonView>) {
    let (s1, w) = spec_parse_integer(s);
    if s1.len() > 0 && s1[0] == '.' {
        let s2 = s1.skip(1);
        let (s3, f) = spec_parse_integer(s2);
        if w is None && f is None {
            (s, None)
        } else {
            let whole = match w {
                Some(JsonView::Integer(i)) => i,
                _ => 0int,
            };
            let frac = match f {
                Some(JsonView::Integer(i)) => i,
                _ => 0int,
            };
            (s3, Some(JsonView::Float { whole, frac, frac_len: (s2.len() - s3.len()) as nat }))
        }
    } else {
        (s, None)
    }
}

/// Length of a string body: the content before the closing quote, where a
/// quote preceded by a backslash is part of the content (the backslash
/// itself stays in the content too).  `None` when no closing quote exists.
pub open spec fn string_body_len(s: Seq<char>) -> Option<nat>
    decreases s.len(),
    via string_body_len_decreases
{
    let n = span_len(s, non_quote_pred()) as int;
    if n == s.len() {
        None
    } else if n > 0 && s[n - 1] == '\\' {
        match string_body_len(s.skip(n + 1)) {
            Some(m) => Some((n + 1 + m) as nat),
            None => None,
        }
    } else {
        Some(n as nat)
    }
}

#[via_fn]
proof fn string_body_len_decreases(s: Seq<char>) {
    lemma_span_len_le(s, non_quote_pred());
}

/// When a body length exists it lies before the closing quote.
pub proof fn lemma_string_body_len_bounds(s: Seq<char>)
    ensures
        string_body_len(s) matches Some(m) ==> m < s.len() && s[m as int] == '"',
    decreases s.len(),
{
    lemma_span_len_props(s, non_quote_pred());
    let n = span_len(s, non_quote_pred()) as int;
    if n < s.len() && n > 0 && s[n - 1] == '\\' {
        lemma_string_body_len_bounds(s.skip(n + 1));
    }
}

/// A quote-delimited string.  The decoded content is the raw text between
/// the delimiters, escape continuations included.
pub open spec fn spec_parse_string(s: Seq<char>) -> (Seq<char>, Option<JsonView>) {
    if s.len() > 0 && s[0] == '"' {
        match string_body_len(s.skip(1)) {
            Some(m) => (s.skip(m as int + 2), Some(JsonView::String(s.subrange(1, m as int + 1)))),
            None => (s, None),
        }
    } else {
        (s, None)
    }
}

// ---------------------------------------------------------------------------
// Composite parsers and the dispatcher
// ---------------------------------------------------------------------------

/// The dispatcher: alternatives in fixed priority order, first success
/// wins.  Float is tried before integer so that a digit run followed by a
/// decimal point is never cut short.
pub open spec fn spec_parse_value(s: Seq<char>) -> (Seq<char>, Option<JsonView>)
    decreases s.len(), 3nat,
{
    let r = spec_parse_null(s);
    if r.1 is Some {
        r
    } else {
        let r = spec_parse_bool(s);
        if r.1 is Some {
            r
        } else {
            let r = spec_parse_float(s);
            if r.1 is Some {
                r
            } else {
                let r = spec_parse_integer(s);
                if r.1 is Some {
                    r
                } else {
                    let r = spec_parse_string(s);
                    if r.1 is Some {
                        r
                    } else {
                        let r = spec_parse_array(s);
                        if r.1 is Some {
                            r
                        } else {
                            spec_parse_object(s)
                        }
                    }
                }
            }
        }
    }
}

/// The element loop of an array: values separated by commas, whitespace
/// skipped around separators.  Ends softly at the first position where no
/// value matches or no comma follows.
pub open spec fn spec_parse_elements(s: Seq<char>) -> (Seq<char>, Seq<JsonView>)
    decreases s.len(), 4nat,
{
    let (s1, v) = spec_parse_value(s);
    match v {
        None => (s, Seq::empty()),
        Some(v) => {
            let s2 = skip_ws(s1);
            if s2.len() > 0 && s2[0] == ',' {
                let s3 = skip_ws(s2.skip(1));
                if s3.len() < s.len() {
                    let (s4, rest) = spec_parse_elements(s3);
                    (s4, seq![v] + rest)
                } else {
                    (s3, seq![v])
                }
            } else {
                (s2, seq![v])
            }
        }
    }
}

/// `[`, elements, `]`.  A missing closing bracket is a hard failure: the
/// cursor is restored to before the opening bracket.
pub open spec fn spec_parse_array(s: Seq<char>) -> (Seq<char>, Option<JsonView>)
    decreases s.len(), 0nat,
    via spec_parse_array_decreases
{
    if s.len() > 0 && s[0] == '[' {
        let s1 = skip_ws(s.skip(1));
        let (s2, items) = spec_parse_elements(s1);
        let s3 = skip_ws(s2);
        if s3.len() > 0 && s3[0] == ']' {
            (s3.skip(1), Some(JsonView::Array(items)))
        } else {
            (s, None)
        }
    } else {
        (s, None)
    }
}

#[via_fn]
proof fn spec_parse_array_decreases(s: Seq<char>) {
    if s.len() > 0 {
        lemma_span_len_le(s.skip(1), ws_pred());
    }
}

/// The member loop of an object: string keys, `:`, values, commas.  A key
/// that is no string ends the loop softly; a missing colon or a missing
/// value is a hard failure (`None`).
pub open spec fn spec_parse_members(s: Seq<char>) -> Option<
    (Seq<char>, Seq<(Seq<char>, JsonView)>),
>
    decreases s.len(), 4nat,
    via spec_parse_members_decreases
{
    let (s1, k) = spec_parse_string(s);
    match k {
        None => Some((s, Seq::empty())),
        Some(kv) => {
            let key = match kv {
                JsonView::String(ks) => ks,
                _ => Seq::empty(),
            };
            let s2 = skip_ws(s1);
            if s2.len() > 0 && s2[0] == ':' {
                let s3 = skip_ws(s2.skip(1));
                let (s4, v) = spec_parse_value(s3);
                match v {
                    None => None,
                    Some(v) => {
                        let s5 = skip_ws(s4);
                        if s5.len() > 0 && s5[0] == ',' {
                            let s6 = skip_ws(s5.skip(1));
                            if s6.len() < s.len() {
                                match spec_parse_members(s6) {
                                    None => None,
                                    Some((s7, rest)) => Some((s7, seq![(key, v)] + rest)),
                                }
                            } else {
                                Some((s6, seq![(key, v)]))
                            }
                        } else {
                            Some((s5, seq![(key, v)]))
                        }
                    }
                }
            } else {
                None
            }
        }
    }
}

#[via_fn]
proof fn spec_parse_members_decreases(s: Seq<char>) {
    lemma_scalar_bounds(s);
    let s1 = spec_parse_string(s).0;
    lemma_span_len_le(s1, ws_pred());
    let s2 = skip_ws(s1);
    if s2.len() > 0 {
        lemma_span_len_le(s2.skip(1), ws_pred());
    }
}

/// `{`, members, `}`.  A hard member failure or a missing closing brace
/// restores the cursor to before the opening brace; entries are folded
/// left to right with last-write-wins insertion.
pub open spec fn spec_parse_object(s: Seq<char>) -> (Seq<char>, Option<JsonView>)
    decreases s.len(), 0nat,
    via spec_parse_object_decreases
{
    if s.len() > 0 && s[0] == '{' {
        let s1 = skip_ws(s.skip(1));
        match spec_parse_members(s1) {
            None => (s, None),
            Some((s2, pairs)) => {
                let s3 = skip_ws(s2);
                if s3.len() > 0 && s3[0] == '}' {
                    (s3.skip(1), Some(JsonView::Object(fold_pairs(Seq::empty(), pairs))))
                } else {
                    (s, None)
                }
            },
        }
    } else {
        (s, None)
    }
}

#[via_fn]
proof fn spec_parse_object_decreases(s: Seq<char>) {
    if s.len() > 0 {
        lemma_span_len_le(s.skip(1), ws_pred());
    }
}

// ---------------------------------------------------------------------------
// Bounds: every parser returns a suffix of its input
// ---------------------------------------------------------------------------

/// `t` is the cursor `s` advanced by some number of characters.
pub open spec fn suffix_of(t: Seq<char>, s: Seq<char>) -> bool {
    t.len() <= s.len() && t == s.skip(s.len() - t.len())
}

pub proof fn lemma_suffix_trans(c: Seq<char>, b: Seq<char>, a: Seq<char>)
    requires
        suffix_of(c, b),
        suffix_of(b, a),
    ensures
        suffix_of(c, a),
{
    assert(a.skip(a.len() - c.len()) =~= a.skip(a.len() - b.len()).skip(b.len() - c.len()));
}

pub proof fn lemma_skip_ws_suffix(s: Seq<char>)
    ensures
        suffix_of(skip_ws(s), s),
        skip_ws(s).len() <= s.len(),
{
    lemma_span_len_le(s, ws_pred());
    assert(skip_ws(s) =~= s.skip(s.len() - skip_ws(s).len()));
}

/// A parsed object carries pairwise distinct keys: last-write-wins
/// insertion never leaves two entries with the same key.
pub proof fn lemma_object_keys_unique(s: Seq<char>)
    ensures
        spec_parse_object(s).1 matches Some(v) ==> v matches JsonView::Object(es) && keys_unique(
            es,
        ),
{
    if s.len() > 0 && s[0] == '{' {
        let s1 = skip_ws(s.skip(1));
        match spec_parse_members(s1) {
            None => {},
            Some((s2, pairs)) => {
                lemma_fold_pairs_keys_unique(Seq::empty(), pairs);
            },
        }
    }
}

/// Failure restores the cursor exactly: whenever a parser yields no
/// value, the cursor it returns is the very cursor it was given, so a
/// failed alternative never disturbs the next one.
pub proof fn lemma_failure_restores_cursor(s: Seq<char>)
    ensures
        spec_parse_null(s).1 is None ==> spec_parse_null(s).0 == s,
        spec_parse_bool(s).1 is None ==> spec_parse_bool(s).0 == s,
        spec_parse_integer(s).1 is None ==> spec_parse_integer(s).0 == s,
        spec_parse_float(s).1 is None ==> spec_parse_float(s).0 == s,
        spec_parse_string(s).1 is None ==> spec_parse_string(s).0 == s,
        spec_parse_array(s).1 is None ==> spec_parse_array(s).0 == s,
        spec_parse_object(s).1 is None ==> spec_parse_object(s).0 == s,
        spec_parse_value(s).1 is None ==> spec_parse_value(s).0 == s,
{
    lemma_scalar_bounds(s);
    lemma_parse_bounds(s);
}

/// The scalar parsers never lengthen the cursor, consume at least one
/// character on success, and restore the cursor exactly on failure.
pub proof fn lemma_scalar_bounds(s: Seq<char>)
    ensures
        suffix_of(spec_parse_null(s).0, s),
        spec_parse_null(s).1 is Some ==> spec_parse_null(s).0.len() < s.len(),
        spec_parse_null(s).1 is None ==> spec_parse_null(s).0 == s,
        suffix_of(spec_parse_bool(s).0, s),
        spec_parse_bool(s).1 is Some ==> spec_parse_bool(s).0.len() < s.len(),
        spec_parse_bool(s).1 is None ==> spec_parse_bool(s).0 == s,
        suffix_of(spec_parse_integer(s).0, s),
        spec_parse_integer(s).1 is Some ==> spec_parse_integer(s).0.len() < s.len(),
        spec_parse_integer(s).1 is None ==> spec_parse_integer(s).0 == s,
        suffix_of(spec_parse_float(s).0, s),
        spec_parse_float(s).1 is Some ==> spec_parse_float(s).0.len() < s.len(),
        spec_parse_float(s).1 is None ==> spec_parse_float(s).0 == s,
        suffix_of(spec_parse_string(s).0, s),
        spec_parse_string(s).1 is Some ==> spec_parse_string(s).0.len() < s.len(),
        spec_parse_string(s).1 is None ==> spec_parse_string(s).0 == s,
{
    assert(suffix_of(s, s)) by {
        assert(s.skip(0) =~= s);
    }
    if starts_with(s, null_chars()) {
        assert(suffix_of(spec_parse_null(s).0, s)) by {
            assert(s.skip(4) =~= s.skip(s.len() - s.skip(4).len()));
        }
    }
    if starts_with(s, true_chars()) {
        assert(s.skip(4) =~= s.skip(s.len() - s.skip(4).len()));
    } else if starts_with(s, false_chars()) {
        assert(s.skip(5) =~= s.skip(s.len() - s.skip(5).len()));
    }
    lemma_span_len_le(s, digit_pred());
    let n = span_len(s, digit_pred()) as int;
    if n != 0 && digits_val(s.take(n)) <= i64::MAX as int {
        assert(s.skip(n) =~= s.skip(s.len() - s.skip(n).len()));
    }
    lemma_float_bounds(s);
    lemma_string_body_len_bounds(s.skip(1));
    if s.len() > 0 && s[0] == '"' && string_body_len(s.skip(1)) is Some {
        let m = string_body_len(s.skip(1))->0 as int;
        assert(s.skip(m + 2) =~= s.skip(s.len() - s.skip(m + 2).len()));
    }
}

proof fn lemma_float_bounds(s: Seq<char>)
    ensures
        suffix_of(spec_parse_float(s).0, s),
        spec_parse_float(s).1 is Some ==> spec_parse_float(s).0.len() < s.len(),
        spec_parse_float(s).1 is None ==> spec_parse_float(s).0 == s,
{
    assert(suffix_of(s, s)) by {
        assert(s.skip(0) =~= s);
    }
    lemma_span_len_le(s, digit_pred());
    let n = span_len(s, digit_pred()) as int;
    let s1 = spec_parse_integer(s).0;
    assert(suffix_of(s1, s)) by {
        if spec_parse_integer(s).1 is Some {
            assert(s.skip(n) =~= s.skip(s.len() - s.skip(n).len()));
        }
    }
    if s1.len() > 0 && s1[0] == '.' {
        let s2 = s1.skip(1);
        assert(suffix_of(s2, s1)) by {
            assert(s1.skip(1) =~= s1.skip(s1.len() - s1.skip(1).len()));
        }
        let s3 = spec_parse_integer(s2).0;
        let n2 = span_len(s2, digit_pred()) as int;
        lemma_span_len_le(s2, digit_pred());
        assert(suffix_of(s3, s2)) by {
            if spec_parse_integer(s2).1 is Some {
                assert(s2.skip(n2) =~= s2.skip(s2.len() - s2.skip(n2).len()));
            } else {
                assert(s2.skip(0) =~= s2);
            }
        }
        lemma_suffix_trans(s2, s1, s);
        lemma_suffix_trans(s3, s2, s);
    }
}

/// Every parser of the recursive clique returns a suffix of its input,
/// consumes at least one character when it yields a value, and restores
/// the cursor exactly when it does not.
pub proof fn lemma_parse_bounds(s: Seq<char>)
    ensures
        suffix_of(spec_parse_value(s).0, s),
        spec_parse_value(s).1 is Some ==> spec_parse_value(s).0.len() < s.len(),
        spec_parse_value(s).1 is None ==> spec_parse_value(s).0 == s,
        suffix_of(spec_parse_array(s).0, s),
        spec_parse_array(s).1 is Some ==> spec_parse_array(s).0.len() < s.len(),
        spec_parse_array(s).1 is None ==> spec_parse_array(s).0 == s,
        suffix_of(spec_parse_object(s).0, s),
        spec_parse_object(s).1 is Some ==> spec_parse_object(s).0.len() < s.len(),
        spec_parse_object(s).1 is None ==> spec_parse_object(s).0 == s,
        suffix_of(spec_parse_elements(s).0, s),
        spec_parse_members(s) matches Some(r) ==> suffix_of(r.0, s),
    decreases s.len(), 5nat,
{
    lemma_scalar_bounds(s);
    lemma_value_bounds(s);
    lemma_array_bounds(s);
    lemma_object_bounds(s);
    lemma_elements_bounds(s);
    lemma_members_bounds(s);
}

proof fn lemma_value_bounds(s: Seq<char>)
    ensures
        suffix_of(spec_parse_value(s).0, s),
        spec_parse_value(s).1 is Some ==> spec_parse_value(s).0.len() < s.len(),
        spec_parse_value(s).1 is None ==> spec_parse_value(s).0 == s,
    decreases s.len(), 3nat,
{
    lemma_scalar_bounds(s);
    lemma_array_bounds(s);
    lemma_object_bounds(s);
}

proof fn lemma_array_bounds(s: Seq<char>)
    ensures
        suffix_of(spec_parse_array(s).0, s),
        spec_parse_array(s).1 is Some ==> spec_parse_array(s).0.len() < s.len(),
        spec_parse_array(s).1 is None ==> spec_parse_array(s).0 == s,
    decreases s.len(), 0nat,
{
    assert(suffix_of(s, s)) by {
        assert(s.skip(0) =~= s);
    }
    if s.len() > 0 && s[0] == '[' {
        let tail = s.skip(1);
        assert(suffix_of(tail, s)) by {
            assert(s.skip(1) =~= s.skip(s.len() - s.skip(1).len()));
        }
        let s1 = skip_ws(tail);
        lemma_skip_ws_suffix(tail);
        lemma_suffix_trans(s1, tail, s);
        lemma_elements_bounds(s1);
        let s2 = spec_parse_elements(s1).0;
        lemma_suffix_trans(s2, s1, s);
        let s3 = skip_ws(s2);
        lemma_skip_ws_suffix(s2);
        lemma_suffix_trans(s3, s2, s);
        if s3.len() > 0 && s3[0] == ']' {
            assert(suffix_of(s3.skip(1), s3)) by {
                assert(s3.skip(1) =~= s3.skip(s3.len() - s3.skip(1).len()));
            }
            lemma_suffix_trans(s3.skip(1), s3, s);
        }
    }
}

proof fn lemma_object_bounds(s: Seq<char>)
    ensures
        suffix_of(spec_parse_object(s).0, s),
        spec_parse_object(s).1 is Some ==> spec_parse_object(s).0.len() < s.len(),
        spec_parse_object(s).1 is None ==> spec_parse_object(s).0 == s,
    decreases s.len(), 0nat,
{
    assert(suffix_of(s, s)) by {
        assert(s.skip(0) =~= s);
    }
    if s.len() > 0 && s[0] == '{' {
        let tail = s.skip(1);
        assert(suffix_of(tail, s)) by {
            assert(s.skip(1) =~= s.skip(s.len() - s.skip(1).len()));
        }
        let s1 = skip_ws(tail);
        lemma_skip_ws_suffix(tail);
        lemma_suffix_trans(s1, tail, s);
        lemma_members_bounds(s1);
        match spec_parse_members(s1) {
            None => {},
            Some((s2, _)) => {
                lemma_suffix_trans(s2, s1, s);
                let s3 = skip_ws(s2);
                lemma_skip_ws_suffix(s2);
                lemma_suffix_trans(s3, s2, s);
                if s3.len() > 0 && s3[0] == '}' {
                    assert(suffix_of(s3.skip(1), s3)) by {
                        assert(s3.skip(1) =~= s3.skip(s3.len() - s3.skip(1).len()));
                    }
                    lemma_suffix_trans(s3.skip(1), s3, s);
                }
            },
        }
    }
}

proof fn lemma_elements_bounds(s: Seq<char>)
    ensures
        suffix_of(spec_parse_elements(s).0, s),
    decreases s.len(), 4nat,
{
    assert(suffix_of(s, s)) by {
        assert(s.skip(0) =~= s);
    }
    let (s1, v) = spec_parse_value(s);
    lemma_value_bounds(s);
    if v is Some {
        let s2 = skip_ws(s1);
        lemma_skip_ws_suffix(s1);
        lemma_suffix_trans(s2, s1, s);
        if s2.len() > 0 && s2[0] == ',' {
            assert(suffix_of(s2.skip(1), s2)) by {
                assert(s2.skip(1) =~= s2.skip(s2.len() - s2.skip(1).len()));
            }
            let s3 = skip_ws(s2.skip(1));
            lemma_skip_ws_suffix(s2.skip(1));
            lemma_suffix_trans(s2.skip(1), s2, s);
            lemma_suffix_trans(s3, s2.skip(1), s);
            if s3.len() < s.len() {
                lemma_elements_bounds(s3);
                lemma_suffix_trans(spec_parse_elements(s3).0, s3, s);
            }
        }
    }
}

#[verifier::rlimit(80)]
#[verifier::spinoff_prover]
proof fn lemma_members_bounds(s: Seq<char>)
    ensures
        spec_parse_members(s) matches Some(r) ==> suffix_of(r.0, s),
    decreases s.len(), 4nat,
{
    assert(suffix_of(s, s)) by {
        assert(s.skip(0) =~= s);
    }
    lemma_scalar_bounds(s);
    let (s1, k) = spec_parse_string(s);
    if k is Some {
        let s2 = skip_ws(s1);
        lemma_skip_ws_suffix(s1);
        lemma_suffix_trans(s2, s1, s);
        if s2.len() > 0 && s2[0] == ':' {
            assert(suffix_of(s2.skip(1), s2)) by {
                assert(s2.skip(1) =~= s2.skip(s2.len() - s2.skip(1).len()));
            }
            lemma_suffix_trans(s2.skip(1), s2, s);
            let s3 = skip_ws(s2.skip(1));
            lemma_skip_ws_suffix(s2.skip(1));
            lemma_suffix_trans(s3, s2.skip(1), s);
            let (s4, v) = spec_parse_value(s3);
            lemma_value_bounds(s3);
            lemma_suffix_trans(s4, s3, s);
            if v is Some {
                let s5 = skip_ws(s4);
                lemma_skip_ws_suffix(s4);
                lemma_suffix_trans(s5, s4, s);
                if s5.len() > 0 && s5[0] == ',' {
                    assert(suffix_of(s5.skip(1), s5)) by {
                        assert(s5.skip(1) =~= s5.skip(s5.len() - s5.skip(1).len()));
                    }
                    lemma_suffix_trans(s5.skip(1), s5, s);
                    let s6 = skip_ws(s5.skip(1));
                    lemma_skip_ws_suffix(s5.skip(1));
                    lemma_suffix_trans(s6, s5.skip(1), s);
                    if s6.len() < s.len() {
                        lemma_members_bounds(s6);
                        match spec_parse_members(s6) {
                            None => {},
                            Some((s7, _)) => {
                                lemma_suffix_trans(s7, s6, s);
                            },
                        }
                    }
                }
            }
        }
    }
}

} // verus!
