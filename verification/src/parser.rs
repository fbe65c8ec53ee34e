//! The executable parsers, each proved against its spec function.

use vstd::prelude::*;

use crate::grammar::digit_pred;
use crate::grammar::digits_val;
use crate::grammar::false_chars;
use crate::grammar::is_digit_char;
use crate::grammar::is_ws_char;
use crate::grammar::lemma_digits_val_take_le;
use crate::grammar::lemma_digits_val_take_step;
use crate::grammar::lemma_parse_bounds;
use crate::grammar::lemma_scalar_bounds;
use crate::grammar::lemma_skip_ws_suffix;
use crate::grammar::lemma_span_len_from;
use crate::grammar::lemma_ws_suffix_from;
use crate::grammar::non_quote_pred;
use crate::grammar::trim_ws;
use crate::grammar::null_chars;
use crate::grammar::spec_parse_string;
use crate::grammar::string_body_len;
use crate::grammar::skip_ws;
use crate::grammar::span_len;
use crate::grammar::spec_parse_array;
use crate::grammar::spec_parse_bool;
use crate::grammar::spec_parse_elements;
use crate::grammar::spec_parse_float;
use crate::grammar::spec_parse_integer;
use crate::grammar::spec_parse_members;
use crate::grammar::spec_parse_null;
use crate::grammar::spec_parse_object;
use crate::grammar::spec_parse_value;
use crate::grammar::starts_with;
use crate::grammar::true_chars;
use crate::grammar::ws_pred;
use crate::value::JsonFloat;
use crate::value::JsonValue;
use crate::value::JsonView;
use crate::value::fold_pairs;
use crate::value::lemma_array_view;
use crate::value::lemma_fold_pairs_push;
use crate::value::lemma_object_view;
use crate::value::object_insert;
use vstd::arithmetic::div_mod::lemma_fundamental_div_mod;

verus! {

/// Why a document failed to parse: either no value matched at all, or a
/// value matched but unconsumed, non-whitespace input remained after it.
/// Each variant carries the unparsed remainder.
#[derive(Debug, PartialEq)]
pub enum JsonError {
    NoMatch(String),
    TrailingInput(String),
}

/// The input with leading and trailing whitespace removed.
fn trim(src: &str) -> (r: &str)
    ensures
        r@ == trim_ws(src@),
{
    let (t, _) = JsonValue::parse_whitespaces(src);
    let m = t.unicode_len();
    let mut b: usize = m;
    let mut done = false;
    while !done
        invariant
            0 <= b <= m,
            m == t@.len(),
            forall|j: int| b <= j < m ==> is_ws_char(t@[j]),
            done ==> b == 0 || !is_ws_char(t@[b - 1]),
        decreases b + (if done {
            0int
        } else {
            1int
        }),
    {
        if b > 0 {
            if ws_char(t.get_char(b - 1)) {
                b -= 1;
            } else {
                done = true;
            }
        } else {
            done = true;
        }
    }
    proof {
        lemma_ws_suffix_from(t@, (m - b) as nat);
    }
    let r = t.substring_char(0, b);
    proof {
        assert(r@ =~= t@.take(b as int));
    }
    r
}

/// Whether `c` is one of the whitespace characters the grammar skips:
/// the Unicode `White_Space` code points.
fn ws_char(c: char) -> (b: bool)
    ensures
        b == is_ws_char(c),
{
    let u = c as u32;
    u == 0x09 || u == 0x0A || u == 0x0B || u == 0x0C || u == 0x0D || u == 0x20 || u == 0x85 || u
        == 0xA0 || u == 0x1680 || (0x2000 <= u && u <= 0x200A) || u == 0x2028 || u == 0x2029 || u
        == 0x202F || u == 0x205F || u == 0x3000
}

/// Whether `c` is an ASCII decimal digit.
fn digit_char(c: char) -> (b: bool)
    ensures
        b == is_digit_char(c),
{
    let u = c as u32;
    48 <= u && u <= 57
}

/// Read a digit string as an `i64`, most significant digit first; `None`
/// exactly when the value exceeds `i64::MAX`.
fn digits_to_i64(ds: &str) -> (r: Option<i64>)
    requires
        forall|i: int| 0 <= i < ds@.len() ==> is_digit_char(ds@[i]),
    ensures
        digits_val(ds@) <= i64::MAX as int ==> (r matches Some(v) && v as int == digits_val(ds@)),
        digits_val(ds@) > i64::MAX as int ==> r is None,
{
    let n = ds.unicode_len();
    let mut acc: i64 = 0;
    let mut j: usize = 0;
    while j < n
        invariant
            0 <= j <= n,
            n == ds@.len(),
            forall|i: int| 0 <= i < ds@.len() ==> is_digit_char(ds@[i]),
            0 <= acc,
            acc as int == digits_val(ds@.take(j as int)),
        decreases n - j,
    {
        let c = ds.get_char(j);
        let d = (c as u32 - 48) as i64;
        proof {
            lemma_digits_val_take_step(ds@, j as int);
            lemma_fundamental_div_mod(i64::MAX as int - d as int, 10);
        }
        if acc > (i64::MAX - d) / 10 {
            proof {
                lemma_digits_val_take_le(ds@, j as int + 1);
                assert(ds@.take(ds@.len() as int) =~= ds@);
            }
            return None;
        }
        acc = acc * 10 + d;
        j += 1;
    }
    proof {
        assert(ds@.take(n as int) =~= ds@);
    }
    Some(acc)
}

/// Find the closing quote of a string body.  `start` is where the current
/// content span begins (just past the opening quote or an escaped quote);
/// the result is the index of the closing quote, or `None` when the body
/// never ends.
fn scan_string_body(src: &str, start: usize) -> (r: Option<usize>)
    requires
        1 <= start <= src@.len(),
    ensures
        (match string_body_len(src@.skip(start as int)) {
            None => r is None,
            Some(m) => r matches Some(e) && e == start + m && e < src@.len(),
        }),
    decreases src@.len() - start,
{
    let n = src.unicode_len();
    let mut j: usize = start;
    let mut done = false;
    while !done
        invariant
            start <= j <= n,
            n == src@.len(),
            forall|k: int| start <= k < j ==> src@[k] != '"',
            done ==> j == n || src@[j as int] == '"',
        decreases n - j + (if done {
            0int
        } else {
            1int
        }),
    {
        if j < n {
            if src.get_char(j) != '"' {
                j += 1;
            } else {
                done = true;
            }
        } else {
            done = true;
        }
    }
    proof {
        let tail = src@.skip(start as int);
        assert forall|k: int| 0 <= k < j - start implies non_quote_pred()(tail[k]) by {
            assert(tail[k] == src@[start + k]);
        }
        assert(j - start < tail.len() ==> !non_quote_pred()(tail[j - start]));
        lemma_span_len_from(tail, non_quote_pred(), (j - start) as nat);
    }
    if j == n {
        return None;
    }
    if j > start && src.get_char(j - 1) == '\\' {
        proof {
            assert(src@.skip(start as int).skip(j - start + 1) =~= src@.skip(j + 1));
        }
        scan_string_body(src, j + 1)
    } else {
        Some(j)
    }
}

impl JsonValue {
    /// If the cursor starts with `value`, advance past it; otherwise leave
    /// the cursor unchanged and yield nothing.
    pub fn parse_char<'a>(src: &'a str, value: char) -> (r: (&'a str, Option<char>))
        ensures
            src@.len() > 0 && src@[0] == value ==> r.0@ == src@.skip(1) && r.1 == Some(value),
            !(src@.len() > 0 && src@[0] == value) ==> r.0@ == src@ && r.1 is None,
    {
        let n = src.unicode_len();
        if n > 0 && src.get_char(0) == value {
            let rest = src.substring_char(1, n);
            proof {
                assert(rest@ =~= src@.skip(1));
            }
            (rest, Some(value))
        } else {
            (src, None)
        }
    }

    /// If the cursor starts with the literal `seq`, advance past it;
    /// otherwise leave the cursor unchanged and yield nothing.
    pub fn parse_sequence<'c, 'q>(src: &'c str, seq: &'q str) -> (r: (&'c str, Option<&'q str>))
        ensures
            starts_with(src@, seq@) ==> r.0@ == src@.skip(seq@.len() as int) && (r.1 matches Some(
                m,
            ) && m@ == seq@),
            !starts_with(src@, seq@) ==> r.0@ == src@ && r.1 is None,
    {
        let n = src.unicode_len();
        let m = seq.unicode_len();
        if m > n {
            return (src, None);
        }
        let mut i: usize = 0;
        while i < m
            invariant
                0 <= i <= m <= n,
                n == src@.len(),
                m == seq@.len(),
                forall|j: int| 0 <= j < i ==> src@[j] == seq@[j],
            decreases m - i,
        {
            if src.get_char(i) != seq.get_char(i) {
                proof {
                    assert(!starts_with(src@, seq@)) by {
                        assert(src@.take(m as int)[i as int] != seq@[i as int]);
                    }
                }
                return (src, None);
            }
            i += 1;
        }
        let rest = src.substring_char(m, n);
        proof {
            assert(src@.take(m as int) =~= seq@);
            assert(rest@ =~= src@.skip(m as int));
        }
        (rest, Some(seq))
    }

    /// Consume the maximal leading run of characters satisfying `pred`.
    /// This always succeeds: the run may be empty.  The returned pair is
    /// (remaining cursor, consumed span).
    pub fn parse_span<'a, F: Fn(char) -> bool>(src: &'a str, pred: F) -> (r: (&'a str, &'a str))
        requires
            forall|c: char| pred.requires((c,)),
        ensures
            r.1@.len() <= src@.len(),
            r.1@ == src@.take(r.1@.len() as int),
            r.0@ == src@.skip(r.1@.len() as int),
            forall|i: int| 0 <= i < r.1@.len() ==> pred.ensures((src@[i],), true),
            r.1@.len() < src@.len() ==> pred.ensures((src@[r.1@.len() as int],), false),
    {
        let n = src.unicode_len();
        let mut i: usize = 0;
        let mut done = false;
        while !done
            invariant
                0 <= i <= n,
                n == src@.len(),
                forall|c: char| pred.requires((c,)),
                forall|j: int| 0 <= j < i ==> pred.ensures((src@[j],), true),
                done ==> i == n || pred.ensures((src@[i as int],), false),
            decreases n - i + (if done {
                0int
            } else {
                1int
            }),
        {
            if i < n {
                let c = src.get_char(i);
                if pred(c) {
                    i += 1;
                } else {
                    done = true;
                }
            } else {
                done = true;
            }
        }
        let rest = src.substring_char(i, n);
        let span = src.substring_char(0, i);
        proof {
            assert(span@ =~= src@.take(i as int));
            assert(rest@ =~= src@.skip(i as int));
        }
        (rest, span)
    }

    /// Consume the maximal leading run of whitespace (possibly empty).
    pub fn parse_whitespaces<'a>(src: &'a str) -> (r: (&'a str, &'a str))
        ensures
            r.0@ == skip_ws(src@),
            r.1@ == src@.take(span_len(src@, ws_pred()) as int),
    {
        let pred = (|c: char| -> (b: bool)
            ensures
                b == is_ws_char(c),
            { ws_char(c) });
        let r = Self::parse_span(src, pred);
        proof {
            lemma_span_len_from(src@, ws_pred(), r.1@.len());
        }
        r
    }

    /// The literal `null`.
    pub fn parse_null<'a>(src: &'a str) -> (r: (&'a str, Option<JsonValue>))
        ensures
            r.0@ == spec_parse_null(src@).0,
            r.1.deep_view() == spec_parse_null(src@).1,
    {
        let (rest, sub_string) = Self::parse_sequence(src, "null");
        proof {
            reveal_strlit("null");
            assert("null"@ =~= null_chars());
        }
        match sub_string {
            Some(_) => (rest, Some(JsonValue::Null)),
            None => (rest, None),
        }
    }

    /// The literal `true` or the literal `false`.
    pub fn parse_bool<'a>(src: &'a str) -> (r: (&'a str, Option<JsonValue>))
        ensures
            r.0@ == spec_parse_bool(src@).0,
            r.1.deep_view() == spec_parse_bool(src@).1,
    {
        let (new_src, sub_string) = Self::parse_sequence(src, "true");
        proof {
            reveal_strlit("true");
            assert("true"@ =~= true_chars());
        }
        if sub_string.is_some() {
            return (new_src, Some(JsonValue::Bool(true)));
        }
        let (new_src, sub_string) = Self::parse_sequence(src, "false");
        proof {
            reveal_strlit("false");
            assert("false"@ =~= false_chars());
        }
        if sub_string.is_some() {
            return (new_src, Some(JsonValue::Bool(false)));
        }
        (src, None)
    }

    /// A maximal run of ASCII digits, read as a 64-bit signed integer.  An
    /// empty run, or a run whose value exceeds `i64::MAX`, does not match,
    /// and the cursor is then unchanged.
    pub fn parse_integer<'a>(src: &'a str) -> (r: (&'a str, Option<JsonValue>))
        ensures
            r.0@ == spec_parse_integer(src@).0,
            r.1.deep_view() == spec_parse_integer(src@).1,
    {
        let pred = (|c: char| -> (b: bool)
            ensures
                b == is_digit_char(c),
            { digit_char(c) });
        let (rest, sub_string) = Self::parse_span(src, pred);
        proof {
            lemma_span_len_from(src@, digit_pred(), sub_string@.len());
        }
        if sub_string.is_empty() {
            return (src, None);
        }
        match digits_to_i64(sub_string) {
            Some(v) => (rest, Some(JsonValue::Integer(v))),
            None => (src, None),
        }
    }

    /// An optional whole digit run, a mandatory `.`, and an optional
    /// fractional digit run; at least one run must be present.  The decoded
    /// value keeps the parts exactly: `whole + frac / 10^frac_len`.
    pub fn parse_float<'a>(src: &'a str) -> (r: (&'a str, Option<JsonValue>))
        ensures
            r.0@ == spec_parse_float(src@).0,
            r.1.deep_view() == spec_parse_float(src@).1,
    {
        let (new_src, whole_value) = Self::parse_integer(src);
        let (whole, has_whole) = match whole_value {
            None => (0i64, false),
            Some(JsonValue::Integer(value)) => (value, true),
            Some(_) => {
                proof {
                    assert(false);
                }
                (0i64, false)
            },
        };
        let (new_src, point) = Self::parse_char(new_src, '.');
        if point.is_none() {
            return (src, None);
        }
        let ghost frac_start = new_src@;
        let before_len = new_src.unicode_len();
        let (new_src, frac_value) = Self::parse_integer(new_src);
        let (frac, has_frac) = match frac_value {
            None => (0i64, false),
            Some(JsonValue::Integer(value)) => (value, true),
            Some(_) => {
                proof {
                    assert(false);
                }
                (0i64, false)
            },
        };
        if !has_whole && !has_frac {
            return (src, None);
        }
        proof {
            lemma_scalar_bounds(frac_start);
        }
        let frac_len = before_len - new_src.unicode_len();
        (new_src, Some(JsonValue::Float(JsonFloat { whole, frac, frac_len })))
    }

    /// A quote-delimited string.  The decoded content is the raw text
    /// between the delimiters: a quote preceded by a backslash is part of
    /// the content (the backslash stays in too), and scanning resumes after
    /// it until a span with no trailing backslash ends at the closing
    /// quote.  A missing quote on either side fails and restores the
    /// cursor.
    pub fn parse_string<'a>(src: &'a str) -> (r: (&'a str, Option<JsonValue>))
        ensures
            r.0@ == spec_parse_string(src@).0,
            r.1.deep_view() == spec_parse_string(src@).1,
    {
        let n = src.unicode_len();
        if n == 0 || src.get_char(0) != '"' {
            return (src, None);
        }
        match scan_string_body(src, 1) {
            None => (src, None),
            Some(e) => {
                let content = src.substring_char(1, e).to_owned();
                let rest = src.substring_char(e + 1, n);
                proof {
                    assert(content@ =~= src@.subrange(1, e as int));
                    assert(rest@ =~= src@.skip(e as int + 1));
                }
                (rest, Some(JsonValue::String(content)))
            },
        }
    }

    /// `[`, whitespace, comma-separated values, whitespace, `]`.  A missing
    /// closing bracket is a hard failure: the cursor is restored to before
    /// the opening bracket and everything parsed inside is discarded.
    #[verifier::loop_isolation(false)]
    pub fn parse_array<'a>(src: &'a str) -> (r: (&'a str, Option<JsonValue>))
        ensures
            r.0@ == spec_parse_array(src@).0,
            r.1.deep_view() == spec_parse_array(src@).1,
        decreases src@.len(), 0nat,
    {
        let n = src.unicode_len();
        if n == 0 || src.get_char(0) != '[' {
            return (src, None);
        }
        let tail = src.substring_char(1, n);
        proof {
            assert(tail@ =~= src@.skip(1));
            lemma_skip_ws_suffix(tail@);
        }
        let (first, _) = Self::parse_whitespaces(tail);
        let ghost s1 = first@;
        let mut new_src = first;
        let mut values: Vec<JsonValue> = Vec::new();
        let mut done = false;
        proof {
            assert(values.deep_view() =~= Seq::<JsonView>::empty());
            assert(values.deep_view() + spec_parse_elements(s1).1 =~= spec_parse_elements(s1).1);
        }
        while !done
            invariant
                new_src@.len() < src@.len(),
                !done ==> spec_parse_elements(s1) == ({
                    let (rs, items) = spec_parse_elements(new_src@);
                    (rs, values.deep_view() + items)
                }),
                done ==> spec_parse_elements(s1) == (new_src@, values.deep_view()),
            decreases new_src@.len() + (if done {
                0int
            } else {
                1int
            }),
        {
            let prev = new_src;
            let (after_v, parsed) = Self::parse_value(prev);
            match parsed {
                None => {
                    done = true;
                    proof {
                        assert(values.deep_view() + Seq::<JsonView>::empty() =~= values.deep_view());
                    }
                },
                Some(value) => {
                    let ghost pre = values.deep_view();
                    let ghost vview = value.deep_view();
                    values.push(value);
                    proof {
                        lemma_parse_bounds(prev@);
                        assert(values.deep_view() =~= pre.push(vview));
                        lemma_skip_ws_suffix(after_v@);
                    }
                    let (s2str, _) = Self::parse_whitespaces(after_v);
                    let (s3str, comma) = Self::parse_char(s2str, ',');
                    if comma.is_none() {
                        new_src = s2str;
                        done = true;
                        proof {
                            assert(pre + seq![vview] =~= values.deep_view());
                        }
                    } else {
                        proof {
                            lemma_skip_ws_suffix(s2str@.skip(1));
                        }
                        let (s4str, _) = Self::parse_whitespaces(s3str);
                        new_src = s4str;
                        proof {
                            let items_rest = spec_parse_elements(s4str@).1;
                            assert(pre + (seq![vview] + items_rest) =~= values.deep_view()
                                + items_rest);
                        }
                    }
                },
            }
        }
        proof {
            lemma_skip_ws_suffix(new_src@);
        }
        let (closing, _) = Self::parse_whitespaces(new_src);
        let (rest, close) = Self::parse_char(closing, ']');
        if close.is_none() {
            return (src, None);
        }
        proof {
            lemma_array_view(values);
        }
        (rest, Some(JsonValue::Array(values)))
    }

    /// `{`, whitespace, comma-separated `"key" : value` members,
    /// whitespace, `}`.  A missing colon, a missing member value or a
    /// missing closing brace is a hard failure: the cursor is restored to
    /// before the opening brace.  A duplicate key overwrites its entry
    /// (last write wins).
    #[verifier::loop_isolation(false)]
    #[verifier::rlimit(80)]
    #[verifier::spinoff_prover]
    pub fn parse_object<'a>(src: &'a str) -> (r: (&'a str, Option<JsonValue>))
        ensures
            r.0@ == spec_parse_object(src@).0,
            r.1.deep_view() == spec_parse_object(src@).1,
        decreases src@.len(), 0nat,
    {
        let n = src.unicode_len();
        if n == 0 || src.get_char(0) != '{' {
            return (src, None);
        }
        let tail = src.substring_char(1, n);
        proof {
            assert(tail@ =~= src@.skip(1));
            lemma_skip_ws_suffix(tail@);
        }
        let (first, _) = Self::parse_whitespaces(tail);
        let ghost s1 = first@;
        let mut new_src = first;
        let mut values: Vec<(String, JsonValue)> = Vec::new();
        let ghost mut done_pairs: Seq<(Seq<char>, JsonView)> = Seq::empty();
        let mut done = false;
        proof {
            assert(values.deep_view() =~= Seq::<(Seq<char>, JsonView)>::empty());
            match spec_parse_members(s1) {
                Some((rs, pairs)) => {
                    assert(done_pairs + pairs =~= pairs);
                },
                None => {},
            }
        }
        while !done
            invariant
                new_src@.len() < src@.len(),
                values.deep_view() == fold_pairs(Seq::empty(), done_pairs),
                !done ==> spec_parse_members(s1) == (match spec_parse_members(new_src@) {
                    None => None::<(Seq<char>, Seq<(Seq<char>, JsonView)>)>,
                    Some((rs, pairs)) => Some((rs, done_pairs + pairs)),
                }),
                done ==> spec_parse_members(s1) == Some((new_src@, done_pairs)),
            decreases new_src@.len() + (if done {
                0int
            } else {
                1int
            }),
        {
            let prev = new_src;
            let (after_k, key_parsed) = Self::parse_string(prev);
            match key_parsed {
                None => {
                    done = true;
                    proof {
                        assert(done_pairs + Seq::<(Seq<char>, JsonView)>::empty() =~= done_pairs);
                    }
                },
                Some(JsonValue::String(key)) => {
                    let ghost kview = key@;
                    proof {
                        lemma_scalar_bounds(prev@);
                        lemma_skip_ws_suffix(after_k@);
                    }
                    let (s2str, _) = Self::parse_whitespaces(after_k);
                    let (s3str, colon) = Self::parse_char(s2str, ':');
                    if colon.is_none() {
                        return (src, None);
                    }
                    proof {
                        lemma_skip_ws_suffix(s2str@.skip(1));
                    }
                    let (s3b, _) = Self::parse_whitespaces(s3str);
                    let (s4str, parsed) = Self::parse_value(s3b);
                    match parsed {
                        None => {
                            return (src, None);
                        },
                        Some(value) => {
                            let ghost old_pairs = done_pairs;
                            let ghost vview = value.deep_view();
                            object_insert(&mut values, key, value);
                            proof {
                                lemma_parse_bounds(s3b@);
                                lemma_fold_pairs_push(Seq::empty(), old_pairs, kview, vview);
                                done_pairs = old_pairs.push((kview, vview));
                                lemma_skip_ws_suffix(s4str@);
                            }
                            let (s5str, _) = Self::parse_whitespaces(s4str);
                            let (s6str, comma) = Self::parse_char(s5str, ',');
                            if comma.is_none() {
                                new_src = s5str;
                                done = true;
                                proof {
                                    assert(old_pairs + seq![(kview, vview)] =~= done_pairs);
                                }
                            } else {
                                proof {
                                    lemma_skip_ws_suffix(s5str@.skip(1));
                                }
                                let (s7str, _) = Self::parse_whitespaces(s6str);
                                new_src = s7str;
                                proof {
                                    match spec_parse_members(s7str@) {
                                        Some((rs, pairs)) => {
                                            assert(old_pairs + (seq![(kview, vview)] + pairs)
                                                =~= done_pairs + pairs);
                                        },
                                        None => {},
                                    }
                                }
                            }
                        },
                    }
                },
                Some(_) => {
                    proof {
                        assert(false);
                    }
                    done = true;
                },
            }
        }
        proof {
            lemma_skip_ws_suffix(new_src@);
        }
        let (closing, _) = Self::parse_whitespaces(new_src);
        let (rest, close) = Self::parse_char(closing, '}');
        if close.is_none() {
            return (src, None);
        }
        proof {
            lemma_object_view(values);
        }
        (rest, Some(JsonValue::Object(values)))
    }

    /// The dispatcher: try every parser in fixed priority order — null,
    /// boolean, float, integer, string, array, object — and return the
    /// first success.  Float comes before integer so a digit run followed
    /// by a decimal point is never cut short.
    pub fn parse_value<'a>(src: &'a str) -> (r: (&'a str, Option<JsonValue>))
        ensures
            r.0@ == spec_parse_value(src@).0,
            r.1.deep_view() == spec_parse_value(src@).1,
        decreases src@.len(), 3nat,
    {
        Self::parse_try(src)
    }

    /// Try the alternatives of the grammar in their fixed priority order;
    /// the first that yields a value wins, and each failed attempt leaves
    /// the cursor untouched for the next.
    pub fn parse_try<'a>(src: &'a str) -> (r: (&'a str, Option<JsonValue>))
        ensures
            r.0@ == spec_parse_value(src@).0,
            r.1.deep_view() == spec_parse_value(src@).1,
        decreases src@.len(), 2nat,
    {
        let r = Self::parse_null(src);
        if r.1.is_some() {
            return r;
        }
        let r = Self::parse_bool(src);
        if r.1.is_some() {
            return r;
        }
        let r = Self::parse_float(src);
        if r.1.is_some() {
            return r;
        }
        let r = Self::parse_integer(src);
        if r.1.is_some() {
            return r;
        }
        let r = Self::parse_string(src);
        if r.1.is_some() {
            return r;
        }
        let r = Self::parse_array(src);
        if r.1.is_some() {
            return r;
        }
        Self::parse_object(src)
    }

    /// Parse a complete document: trim surrounding whitespace, decode one
    /// value, and demand that nothing but whitespace follows it.  When no
    /// value matches, the error carries the whole trimmed input; when
    /// non-whitespace input trails a decoded value, the error carries that
    /// remainder.
    pub fn from_str(src: &str) -> (r: Result<JsonValue, JsonError>)
        ensures
            ({
                let t = trim_ws(src@);
                let (rest, v) = spec_parse_value(t);
                match v {
                    None => r matches Err(JsonError::NoMatch(m)) && m@ == t,
                    Some(vv) => {
                        let tail = skip_ws(rest);
                        if tail.len() == 0 {
                            r matches Ok(out) && out.deep_view() == vv
                        } else {
                            r matches Err(JsonError::TrailingInput(m)) && m@ == tail
                        }
                    },
                }
            }),
    {
        let trimmed = trim(src);
        let (after, value) = Self::parse_value(trimmed);
        match value {
            None => Err(JsonError::NoMatch(trimmed.to_owned())),
            Some(value) => {
                let (rest, _) = Self::parse_whitespaces(after);
                if rest.is_empty() {
                    Ok(value)
                } else {
                    Err(JsonError::TrailingInput(rest.to_owned()))
                }
            },
        }
    }
}

} // verus!
