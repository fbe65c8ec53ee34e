//! Decimal text for the numeric values the parser produces, and the
//! round-trip laws tying rendered value trees back to the parser.

use vstd::prelude::*;

use crate::grammar::digit_pred;
use crate::grammar::digit_val;
use crate::grammar::digits_val;
use crate::grammar::false_chars;
use crate::grammar::is_digit_char;
use crate::grammar::is_ws_char;
use crate::grammar::lemma_span_len_from;
use crate::grammar::non_quote_pred;
use crate::grammar::null_chars;
use crate::grammar::string_body_len;
use crate::grammar::skip_ws;
use crate::grammar::spec_parse_elements;
use crate::grammar::spec_parse_members;
use crate::grammar::spec_parse_string;
use crate::grammar::spec_parse_value;
use crate::grammar::starts_with;
use crate::grammar::true_chars;
use crate::grammar::ws_pred;
use crate::value::JsonFloat;
use crate::value::JsonView;
use crate::value::fold_pairs;
use crate::value::keys_unique;
use crate::value::lemma_upsert_missing;
use crate::value::upsert;
use vstd::arithmetic::div_mod::lemma_fundamental_div_mod;

verus! {

/// The character for a single decimal digit value.
pub open spec fn digit_char_of(d: int) -> char {
    if d == 0 {
        '0'
    } else if d == 1 {
        '1'
    } else if d == 2 {
        '2'
    } else if d == 3 {
        '3'
    } else if d == 4 {
        '4'
    } else if d == 5 {
        '5'
    } else if d == 6 {
        '6'
    } else if d == 7 {
        '7'
    } else if d == 8 {
        '8'
    } else {
        '9'
    }
}

/// The decimal digits of a non-negative number, most significant first.
pub open spec fn dec_chars(n: int) -> Seq<char>
    decreases n,
{
    if n < 10 {
        seq![digit_char_of(n)]
    } else {
        dec_chars(n / 10).push(digit_char_of(n % 10))
    }
}

/// Decimal digits are digits, and there is at least one.
pub proof fn lemma_dec_chars_digits(n: int)
    requires
        0 <= n,
    ensures
        dec_chars(n).len() >= 1,
        forall|i: int| 0 <= i < dec_chars(n).len() ==> is_digit_char(#[trigger] dec_chars(n)[i]),
    decreases n,
{
    if n < 10 {
        assert(is_digit_char(digit_char_of(n)));
    } else {
        lemma_fundamental_div_mod(n, 10);
        lemma_dec_chars_digits(n / 10);
        assert(is_digit_char(digit_char_of(n % 10)));
        assert(forall|i: int|
            0 <= i < dec_chars(n / 10).len() ==> dec_chars(n)[i] == #[trigger] dec_chars(
                n / 10,
            )[i]);
    }
}

/// Reading the decimal digits of `n` back as a number gives `n`.
pub proof fn lemma_dec_chars_val(n: int)
    requires
        0 <= n,
    ensures
        digits_val(dec_chars(n)) == n,
    decreases n,
{
    if n < 10 {
        assert(seq![digit_char_of(n)].drop_last() =~= Seq::<char>::empty());
        assert(digits_val(Seq::<char>::empty()) == 0);
        assert(digits_val(dec_chars(n)) == digit_val(digit_char_of(n)));
    } else {
        lemma_fundamental_div_mod(n, 10);
        lemma_dec_chars_val(n / 10);
        assert(dec_chars(n).drop_last() =~= dec_chars(n / 10));
        assert(digit_val(digit_char_of(n % 10)) == n % 10);
    }
}

/// The fractional digits, padded on the left with zeros to `frac_len`
/// digits where the number is shorter than the run that was written.
pub open spec fn frac_chars(frac: int, frac_len: nat) -> Seq<char> {
    let ds = dec_chars(frac);
    if ds.len() <= frac_len {
        Seq::new((frac_len - ds.len()) as nat, |i: int| '0') + ds
    } else {
        ds
    }
}

/// The canonical decimal text of a float literal: whole digits, a point,
/// and the fractional digits padded to the written digit count.
pub open spec fn float_chars(whole: int, frac: int, frac_len: nat) -> Seq<char> {
    dec_chars(whole) + seq!['.'] + frac_chars(frac, frac_len)
}

proof fn lemma_digits_val_zeros(z: Seq<char>)
    requires
        forall|i: int| 0 <= i < z.len() ==> z[i] == '0',
    ensures
        digits_val(z) == 0,
    decreases z.len(),
{
    if z.len() > 0 {
        lemma_digits_val_zeros(z.drop_last());
    }
}

proof fn lemma_digits_val_prepend_zeros(z: Seq<char>, ds: Seq<char>)
    requires
        forall|i: int| 0 <= i < z.len() ==> z[i] == '0',
    ensures
        digits_val(z + ds) == digits_val(ds),
    decreases ds.len(),
{
    if ds.len() == 0 {
        assert(z + ds =~= z);
        lemma_digits_val_zeros(z);
    } else {
        assert((z + ds).drop_last() =~= z + ds.drop_last());
        assert((z + ds).last() == ds.last());
        lemma_digits_val_prepend_zeros(z, ds.drop_last());
    }
}

proof fn lemma_value_fails_on_closer(s: Seq<char>)
    requires
        s.len() >= 1,
        s[0] == ']' || s[0] == '}',
    ensures
        spec_parse_value(s) == (s, None::<JsonView>),
{
    assert(!is_digit_char(']'));
    assert(!is_digit_char('}'));
    assert(!starts_with(s, null_chars())) by {
        if starts_with(s, null_chars()) {
            assert(s.take(4)[0] == 'n');
        }
    }
    assert(!starts_with(s, true_chars())) by {
        if starts_with(s, true_chars()) {
            assert(s.take(4)[0] == 't');
        }
    }
    assert(!starts_with(s, false_chars())) by {
        if starts_with(s, false_chars()) {
            assert(s.take(5)[0] == 'f');
        }
    }
    lemma_span_len_from(s, digit_pred(), 0);
}

/// The text a scalar value renders to.
pub open spec fn scalar_chars(v: JsonView) -> Seq<char> {
    match v {
        JsonView::Null => null_chars(),
        JsonView::Bool(b) => if b {
            true_chars()
        } else {
            false_chars()
        },
        JsonView::Integer(i) => dec_chars(i),
        JsonView::Float { whole, frac, frac_len } => float_chars(whole, frac, frac_len),
        _ => Seq::empty(),
    }
}

/// The scalar values the renderer covers: null, booleans, machine-range
/// integers, and floats whose fractional digit count covers the fractional
/// digits — exactly the shapes the parser itself produces.
pub open spec fn scalar_ok(v: JsonView) -> bool {
    match v {
        JsonView::Null => true,
        JsonView::Bool(_) => true,
        JsonView::Integer(i) => 0 <= i <= i64::MAX as int,
        JsonView::Float { whole, frac, frac_len } => 0 <= whole <= i64::MAX as int && 0 <= frac
            <= i64::MAX as int && dec_chars(frac).len() <= frac_len,
        _ => false,
    }
}

/// The one-character text of a single decimal digit value.
fn digit_str(d: u64) -> (r: &'static str)
    requires
        d < 10,
    ensures
        r@ == seq![digit_char_of(d as int)],
{
    proof {
        reveal_strlit("0");
        reveal_strlit("1");
        reveal_strlit("2");
        reveal_strlit("3");
        reveal_strlit("4");
        reveal_strlit("5");
        reveal_strlit("6");
        reveal_strlit("7");
        reveal_strlit("8");
        reveal_strlit("9");
        assert("0"@ =~= seq!['0']);
        assert("1"@ =~= seq!['1']);
        assert("2"@ =~= seq!['2']);
        assert("3"@ =~= seq!['3']);
        assert("4"@ =~= seq!['4']);
        assert("5"@ =~= seq!['5']);
        assert("6"@ =~= seq!['6']);
        assert("7"@ =~= seq!['7']);
        assert("8"@ =~= seq!['8']);
        assert("9"@ =~= seq!['9']);
    }
    if d == 0 {
        "0"
    } else if d == 1 {
        "1"
    } else if d == 2 {
        "2"
    } else if d == 3 {
        "3"
    } else if d == 4 {
        "4"
    } else if d == 5 {
        "5"
    } else if d == 6 {
        "6"
    } else if d == 7 {
        "7"
    } else if d == 8 {
        "8"
    } else {
        "9"
    }
}

/// Append the decimal digits of `n`, most significant first.
fn push_dec_str(n: u64, out: &mut String)
    ensures
        (*final(out))@ == (*old(out))@ + dec_chars(n as int),
    decreases n,
{
    let ghost base = out@;
    if n < 10 {
        out.append(digit_str(n));
        proof {
            assert(base + seq![digit_char_of(n as int)] =~= base + dec_chars(n as int));
        }
    } else {
        proof {
            assert(n / 10 < n) by (nonlinear_arith)
                requires
                    n >= 10,
            ;
        }
        push_dec_str(n / 10, out);
        out.append(digit_str(n % 10));
        proof {
            lemma_fundamental_div_mod(n as int, 10);
            assert((base + dec_chars(n as int / 10)) + seq![digit_char_of(n as int % 10)] =~= base
                + dec_chars(n as int));
        }
    }
}

impl JsonFloat {
    /// The exact decimal text of this literal: the whole digits, a decimal
    /// point, and the fractional digits padded on the left with zeros to
    /// `frac_len` digits.  No rounding is involved: a literal the parser
    /// produced renders back to the digits that were written (up to leading
    /// zeros of the whole part, which decimal text never has).
    #[verifier::loop_isolation(false)]
    pub fn to_decimal_string(&self) -> (r: String)
        requires
            0 <= self.whole,
            0 <= self.frac,
        ensures
            r@ == float_chars(self.whole as int, self.frac as int, self.frac_len as nat),
    {
        let mut out = String::new();
        push_dec_str(self.whole as u64, &mut out);
        out.append(".");
        proof {
            reveal_strlit(".");
            assert("."@ =~= seq!['.']);
            assert(out@ =~= dec_chars(self.whole as int) + seq!['.']);
        }
        let mut frac_digits = String::new();
        push_dec_str(self.frac as u64, &mut frac_digits);
        proof {
            assert(frac_digits@ =~= dec_chars(self.frac as int));
        }
        let flen = frac_digits.as_str().unicode_len();
        let mut pad: usize = 0;
        if flen < self.frac_len {
            pad = self.frac_len - flen;
        }
        let ghost base = out@;
        let mut k: usize = 0;
        while k < pad
            invariant
                0 <= k <= pad,
                out@ == base + Seq::new(k as nat, |i: int| '0'),
            decreases pad - k,
        {
            out.append("0");
            proof {
                reveal_strlit("0");
                assert("0"@ =~= seq!['0']);
                assert((base + Seq::new(k as nat, |i: int| '0')) + seq!['0'] =~= base + Seq::new(
                    (k + 1) as nat,
                    |i: int| '0',
                ));
            }
            k += 1;
        }
        out.append(frac_digits.as_str());
        proof {
            assert(out@ =~= float_chars(self.whole as int, self.frac as int, self.frac_len as nat));
        }
        out
    }
}

/// Parsing a rendered scalar followed by anything that cannot extend it —
/// any remainder that does not begin with a digit or a decimal point —
/// yields exactly that scalar and leaves exactly the remainder.
#[verifier::rlimit(100)]
#[verifier::spinoff_prover]
pub proof fn lemma_scalar_parse_with_rest(v: JsonView, rest: Seq<char>)
    requires
        scalar_ok(v),
        rest.len() > 0 ==> !is_digit_char(rest[0]) && rest[0] != '.',
    ensures
        spec_parse_value(scalar_chars(v) + rest) == (rest, Some(v)),
{
    let sc = scalar_chars(v);
    let s = sc + rest;
    match v {
        JsonView::Null => {
            assert(starts_with(s, null_chars())) by {
                assert(s.take(4) =~= null_chars());
            }
            assert(s.skip(4) =~= rest);
        },
        JsonView::Bool(b) => {
            assert(!starts_with(s, null_chars())) by {
                if starts_with(s, null_chars()) {
                    assert(s.take(4)[0] == 'n');
                }
            }
            if b {
                assert(starts_with(s, true_chars())) by {
                    assert(s.take(4) =~= true_chars());
                }
                assert(s.skip(4) =~= rest);
            } else {
                assert(!starts_with(s, true_chars())) by {
                    if starts_with(s, true_chars()) {
                        assert(s.take(4)[0] == 't');
                    }
                }
                assert(starts_with(s, false_chars())) by {
                    assert(s.take(5) =~= false_chars());
                }
                assert(s.skip(5) =~= rest);
            }
        },
        JsonView::Integer(i) => {
            lemma_dec_chars_digits(i);
            lemma_dec_chars_val(i);
            assert(is_digit_char(s[0]));
            assert(!starts_with(s, null_chars())) by {
                if starts_with(s, null_chars()) {
                    assert(s.take(4)[0] == 'n');
                }
            }
            assert(!starts_with(s, true_chars())) by {
                if starts_with(s, true_chars()) {
                    assert(s.take(4)[0] == 't');
                }
            }
            assert(!starts_with(s, false_chars())) by {
                if starts_with(s, false_chars()) {
                    assert(s.take(5)[0] == 'f');
                }
            }
            assert(forall|k: int| 0 <= k < sc.len() ==> is_digit_char(#[trigger] s[k]));
            lemma_span_len_from(s, digit_pred(), sc.len());
            assert(s.take(sc.len() as int) =~= sc);
            assert(s.skip(sc.len() as int) =~= rest);
        },
        JsonView::Float { whole, frac, frac_len } => {
            let w = dec_chars(whole);
            let ds = dec_chars(frac);
            let z = Seq::new((frac_len - ds.len()) as nat, |i: int| '0');
            let fc = frac_chars(frac, frac_len);
            lemma_dec_chars_digits(whole);
            lemma_dec_chars_val(whole);
            lemma_dec_chars_digits(frac);
            lemma_dec_chars_val(frac);
            assert(fc =~= z + ds);
            assert(fc.len() == frac_len);
            assert(forall|i: int| 0 <= i < fc.len() ==> is_digit_char(#[trigger] fc[i]));
            assert(sc =~= w + seq!['.'] + fc);
            assert(is_digit_char(s[0]));
            assert(!starts_with(s, null_chars())) by {
                if starts_with(s, null_chars()) {
                    assert(s.take(4)[0] == 'n');
                }
            }
            assert(!starts_with(s, true_chars())) by {
                if starts_with(s, true_chars()) {
                    assert(s.take(4)[0] == 't');
                }
            }
            assert(!starts_with(s, false_chars())) by {
                if starts_with(s, false_chars()) {
                    assert(s.take(5)[0] == 'f');
                }
            }
            assert(forall|k: int| 0 <= k < w.len() ==> is_digit_char(#[trigger] s[k]));
            assert(s[w.len() as int] == '.');
            lemma_span_len_from(s, digit_pred(), w.len());
            assert(s.take(w.len() as int) =~= w);
            let s1 = s.skip(w.len() as int);
            assert(s1[0] == '.');
            let s2 = s1.skip(1);
            assert(s2 =~= fc + rest);
            assert(forall|k: int| 0 <= k < fc.len() ==> is_digit_char(#[trigger] s2[k]));
            lemma_span_len_from(s2, digit_pred(), fc.len());
            assert(s2.take(fc.len() as int) =~= fc);
            lemma_digits_val_prepend_zeros(z, ds);
            assert(digits_val(s2.take(fc.len() as int)) == frac);
            assert(s2.skip(fc.len() as int) =~= rest);
        },
        _ => {},
    }
}

/// Keys that render to plain string literals: no quote anywhere, and no
/// trailing backslash that would turn the closing quote into content.
pub open spec fn key_ok(k: Seq<char>) -> bool {
    &&& forall|i: int| 0 <= i < k.len() ==> k[i] != '"'
    &&& (k.len() > 0 ==> k[k.len() - 1] != '\\')
}

/// Parsing a rendered string literal followed by anything yields exactly
/// its content and leaves exactly the remainder.
pub proof fn lemma_string_parse_with_rest(k: Seq<char>, rest: Seq<char>)
    requires
        key_ok(k),
    ensures
        spec_parse_string(seq!['"'] + k + seq!['"'] + rest) == (rest, Some(JsonView::String(k))),
{
    let s = seq!['"'] + k + seq!['"'] + rest;
    assert(s[0] == '"');
    let body = s.skip(1);
    assert(body =~= k + seq!['"'] + rest);
    assert(forall|i: int| 0 <= i < k.len() ==> non_quote_pred()(#[trigger] body[i]));
    assert(body[k.len() as int] == '"');
    lemma_span_len_from(body, non_quote_pred(), k.len());
    assert(string_body_len(body) == Some(k.len() as nat));
    assert(s.skip(k.len() as int + 2) =~= rest);
    assert(s.subrange(1, k.len() as int + 1) =~= k);
}

/// Folding pairwise distinct keys changes nothing: the entries are the
/// pairs as written.
proof fn lemma_fold_pairs_distinct(
    acc: Seq<(Seq<char>, JsonView)>,
    pairs: Seq<(Seq<char>, JsonView)>,
)
    requires
        keys_unique(acc + pairs),
    ensures
        fold_pairs(acc, pairs) == acc + pairs,
    decreases pairs.len(),
{
    if pairs.len() == 0 {
        assert(acc + pairs =~= acc);
    } else {
        let p0 = pairs[0];
        assert forall|j: int| 0 <= j < acc.len() implies #[trigger] acc[j].0 != p0.0 by {
            assert((acc + pairs)[j] == acc[j]);
            assert((acc + pairs)[acc.len() as int] == p0);
        }
        lemma_upsert_missing(acc, p0.0, p0.1);
        assert(upsert(acc, p0.0, p0.1) =~= acc + seq![p0]);
        assert((acc + seq![p0]) + pairs.drop_first() =~= acc + pairs);
        lemma_fold_pairs_distinct(acc + seq![p0], pairs.drop_first());
        assert(fold_pairs(acc, pairs) == fold_pairs(acc + seq![p0], pairs.drop_first()));
    }
}

/// The value trees the renderer covers: scalars in machine range, string
/// contents that need no escaping (no quote, no trailing backslash),
/// arrays of such trees, and objects of such trees under plain, pairwise
/// distinct keys.
pub open spec fn value_ok(v: JsonView) -> bool
    decreases v,
{
    match v {
        JsonView::String(s) => key_ok(s),
        JsonView::Array(items) => forall|i: int|
            0 <= i < items.len() ==> value_ok(#[trigger] items[i]),
        JsonView::Object(pairs) => keys_unique(pairs) && forall|i: int|
            0 <= i < pairs.len() ==> key_ok(#[trigger] pairs[i].0) && value_ok(pairs[i].1),
        _ => scalar_ok(v),
    }
}

/// The text a value tree renders to.
pub open spec fn render_value(v: JsonView) -> Seq<char>
    decreases v,
{
    match v {
        JsonView::String(s) => seq!['"'] + s + seq!['"'],
        JsonView::Array(items) => seq!['['] + render_elems(items) + seq![']'],
        JsonView::Object(pairs) => seq!['{'] + render_membs(pairs) + seq!['}'],
        _ => scalar_chars(v),
    }
}

/// The text the elements of an array render to: values separated by
/// commas.
pub open spec fn render_elems(items: Seq<JsonView>) -> Seq<char>
    decreases items,
{
    if items.len() == 0 {
        Seq::empty()
    } else if items.len() == 1 {
        render_value(items[0])
    } else {
        render_value(items[0]) + seq![','] + render_elems(items.drop_first())
    }
}

/// The text the members of an object render to: `"key":value` pairs
/// separated by commas.
pub open spec fn render_membs(pairs: Seq<(Seq<char>, JsonView)>) -> Seq<char>
    decreases pairs,
{
    if pairs.len() == 0 {
        Seq::empty()
    } else if pairs.len() == 1 {
        seq!['"'] + pairs[0].0 + seq!['"'] + seq![':'] + render_value(pairs[0].1)
    } else {
        seq!['"'] + pairs[0].0 + seq!['"'] + seq![':'] + render_value(pairs[0].1) + seq![',']
            + render_membs(pairs.drop_first())
    }
}

/// Rendered text is nonempty and never begins with whitespace, a
/// separator, a closing bracket or a decimal point.
proof fn lemma_render_head(v: JsonView)
    requires
        value_ok(v),
    ensures
        render_value(v).len() >= 1,
        !is_ws_char(render_value(v)[0]),
        render_value(v)[0] != ',',
        render_value(v)[0] != ']',
        render_value(v)[0] != '}',
        render_value(v)[0] != '.',
{
    match v {
        JsonView::Integer(i) => {
            lemma_dec_chars_digits(i);
        },
        JsonView::Float { whole, frac, frac_len } => {
            lemma_dec_chars_digits(whole);
            assert(render_value(v)[0] == dec_chars(whole)[0]);
        },
        _ => {},
    }
}

/// Parsing a rendered value tree followed by anything that cannot extend
/// it — any remainder that does not begin with a digit or a decimal
/// point — yields exactly that tree and leaves exactly the remainder.
#[verifier::rlimit(100)]
#[verifier::spinoff_prover]
pub proof fn lemma_value_parse_with_rest(v: JsonView, rest: Seq<char>)
    requires
        value_ok(v),
        rest.len() > 0 ==> !is_digit_char(rest[0]) && rest[0] != '.',
    ensures
        spec_parse_value(render_value(v) + rest) == (rest, Some(v)),
    decreases v, 0nat,
{
    let s = render_value(v) + rest;
    match v {
        JsonView::String(txt) => {
            assert(s[0] == '"');
            assert(!is_digit_char('"'));
            assert(!starts_with(s, null_chars())) by {
                if starts_with(s, null_chars()) {
                    assert(s.take(4)[0] == 'n');
                }
            }
            assert(!starts_with(s, true_chars())) by {
                if starts_with(s, true_chars()) {
                    assert(s.take(4)[0] == 't');
                }
            }
            assert(!starts_with(s, false_chars())) by {
                if starts_with(s, false_chars()) {
                    assert(s.take(5)[0] == 'f');
                }
            }
            lemma_span_len_from(s, digit_pred(), 0);
            assert(s =~= seq!['"'] + txt + seq!['"'] + rest);
            lemma_string_parse_with_rest(txt, rest);
        },
        JsonView::Array(items) => {
            assert(s[0] == '[');
            assert(!is_digit_char('['));
            assert(!starts_with(s, null_chars())) by {
                if starts_with(s, null_chars()) {
                    assert(s.take(4)[0] == 'n');
                }
            }
            assert(!starts_with(s, true_chars())) by {
                if starts_with(s, true_chars()) {
                    assert(s.take(4)[0] == 't');
                }
            }
            assert(!starts_with(s, false_chars())) by {
                if starts_with(s, false_chars()) {
                    assert(s.take(5)[0] == 'f');
                }
            }
            lemma_span_len_from(s, digit_pred(), 0);
            let tail = s.skip(1);
            assert(tail =~= render_elems(items) + seq![']'] + rest);
            if items.len() == 0 {
                assert(tail[0] == ']');
            } else {
                lemma_elems_head(items);
            }
            assert(!is_ws_char(tail[0]));
            lemma_span_len_from(tail, ws_pred(), 0);
            assert(skip_ws(tail) =~= tail);
            lemma_elems_parse(items, rest);
            let closer = seq![']'] + rest;
            assert(!is_ws_char(']'));
            lemma_span_len_from(closer, ws_pred(), 0);
            assert(skip_ws(closer) =~= closer);
            assert(closer[0] == ']');
            assert(closer.skip(1) =~= rest);
        },
        JsonView::Object(pairs) => {
            assert(s[0] == '{');
            assert(!is_digit_char('{'));
            assert(!starts_with(s, null_chars())) by {
                if starts_with(s, null_chars()) {
                    assert(s.take(4)[0] == 'n');
                }
            }
            assert(!starts_with(s, true_chars())) by {
                if starts_with(s, true_chars()) {
                    assert(s.take(4)[0] == 't');
                }
            }
            assert(!starts_with(s, false_chars())) by {
                if starts_with(s, false_chars()) {
                    assert(s.take(5)[0] == 'f');
                }
            }
            lemma_span_len_from(s, digit_pred(), 0);
            let tail = s.skip(1);
            assert(tail =~= render_membs(pairs) + seq!['}'] + rest);
            if pairs.len() == 0 {
                assert(tail[0] == '}');
            } else {
                assert(tail[0] == '"');
            }
            assert(!is_ws_char(tail[0]));
            lemma_span_len_from(tail, ws_pred(), 0);
            assert(skip_ws(tail) =~= tail);
            lemma_membs_parse(pairs, rest);
            let closer = seq!['}'] + rest;
            assert(!is_ws_char('}'));
            lemma_span_len_from(closer, ws_pred(), 0);
            assert(skip_ws(closer) =~= closer);
            assert(closer[0] == '}');
            assert(closer.skip(1) =~= rest);
            assert(keys_unique(Seq::<(Seq<char>, JsonView)>::empty() + pairs)) by {
                assert(Seq::<(Seq<char>, JsonView)>::empty() + pairs =~= pairs);
            }
            lemma_fold_pairs_distinct(Seq::empty(), pairs);
            assert(Seq::<(Seq<char>, JsonView)>::empty() + pairs =~= pairs);
        },
        _ => {
            lemma_scalar_parse_with_rest(v, rest);
        },
    }
}

/// A rendered element list begins like its first element.
proof fn lemma_elems_head(items: Seq<JsonView>)
    requires
        items.len() > 0,
        forall|i: int| 0 <= i < items.len() ==> value_ok(#[trigger] items[i]),
    ensures
        render_elems(items).len() >= 1,
        render_elems(items)[0] == render_value(items[0])[0],
        !is_ws_char(render_elems(items)[0]),
{
    lemma_render_head(items[0]);
}

proof fn lemma_elems_parse(items: Seq<JsonView>, rest: Seq<char>)
    requires
        forall|i: int| 0 <= i < items.len() ==> value_ok(#[trigger] items[i]),
    ensures
        spec_parse_elements(render_elems(items) + seq![']'] + rest) == (seq![']'] + rest, items),
    decreases items, 1nat,
{
    let closer = seq![']'] + rest;
    let s = render_elems(items) + seq![']'] + rest;
    assert(s =~= render_elems(items) + closer);
    assert(!is_digit_char(']'));
    assert(!is_ws_char(']'));
    assert(!is_digit_char(','));
    assert(!is_ws_char(','));
    if items.len() == 0 {
        assert(s =~= closer);
        lemma_value_fails_on_closer(closer);
        assert(items =~= Seq::<JsonView>::empty());
    } else if items.len() == 1 {
        let v = items[0];
        assert(s =~= render_value(v) + closer);
        lemma_value_parse_with_rest(v, closer);
        lemma_span_len_from(closer, ws_pred(), 0);
        assert(skip_ws(closer) =~= closer);
        assert(closer[0] == ']');
        assert(seq![v] =~= items);
    } else {
        let v = items[0];
        let tail_items = items.drop_first();
        assert forall|i: int| 0 <= i < tail_items.len() implies value_ok(
            #[trigger] tail_items[i],
        ) by {
            assert(tail_items[i] == items[i + 1]);
            assert(value_ok(items[i + 1]));
        }
        let rendered_tail = render_elems(tail_items) + closer;
        let follower = seq![','] + rendered_tail;
        assert(s =~= render_value(v) + follower);
        lemma_value_parse_with_rest(v, follower);
        lemma_span_len_from(follower, ws_pred(), 0);
        assert(skip_ws(follower) =~= follower);
        assert(follower[0] == ',');
        let after_comma = follower.skip(1);
        assert(after_comma =~= rendered_tail);
        lemma_elems_head(tail_items);
        assert(!is_ws_char(after_comma[0]));
        lemma_span_len_from(after_comma, ws_pred(), 0);
        assert(skip_ws(after_comma) =~= after_comma);
        lemma_render_head(v);
        assert(rendered_tail.len() < s.len());
        lemma_elems_parse(tail_items, rest);
        assert(render_elems(tail_items) + seq![']'] + rest =~= rendered_tail);
        assert(seq![v] + tail_items =~= items);
    }
}

/// A single rendered member followed by a closing brace parses as that
/// one pair.
#[verifier::rlimit(100)]
#[verifier::spinoff_prover]
proof fn lemma_membs_one(k: Seq<char>, v: JsonView, closer: Seq<char>)
    requires
        key_ok(k),
        value_ok(v),
        closer.len() >= 1,
        closer[0] == '}',
    ensures
        spec_parse_members(seq!['"'] + k + seq!['"'] + seq![':'] + render_value(v) + closer)
            == Some((closer, seq![(k, v)])),
    decreases v, 1nat,
{
    let s = seq!['"'] + k + seq!['"'] + seq![':'] + render_value(v) + closer;
    assert(!is_ws_char('}'));
    assert(!is_ws_char(':'));
    assert(!is_digit_char('}'));
    lemma_render_head(v);
    let rest1 = seq![':'] + render_value(v) + closer;
    assert(s =~= seq!['"'] + k + seq!['"'] + rest1);
    lemma_string_parse_with_rest(k, rest1);
    lemma_span_len_from(rest1, ws_pred(), 0);
    assert(skip_ws(rest1) =~= rest1);
    assert(rest1[0] == ':');
    let s3 = rest1.skip(1);
    assert(s3 =~= render_value(v) + closer);
    lemma_span_len_from(s3, ws_pred(), 0);
    assert(skip_ws(s3) =~= s3);
    lemma_value_parse_with_rest(v, closer);
    lemma_span_len_from(closer, ws_pred(), 0);
    assert(skip_ws(closer) =~= closer);
}

/// Two or more rendered members followed by a closing brace parse as the
/// head pair followed by the rest.
#[verifier::rlimit(100)]
#[verifier::spinoff_prover]
proof fn lemma_membs_many(pairs: Seq<(Seq<char>, JsonView)>, rest: Seq<char>)
    requires
        pairs.len() >= 2,
        forall|i: int|
            0 <= i < pairs.len() ==> key_ok(#[trigger] pairs[i].0) && value_ok(pairs[i].1),
    ensures
        spec_parse_members(render_membs(pairs) + seq!['}'] + rest) == Some(
            (seq!['}'] + rest, pairs),
        ),
    decreases pairs, 1nat,
{
    let closer = seq!['}'] + rest;
    let s = render_membs(pairs) + seq!['}'] + rest;
    assert(!is_ws_char('}'));
    assert(!is_ws_char(':'));
    assert(!is_ws_char(','));
    assert(!is_digit_char(','));
    let k = pairs[0].0;
    let v = pairs[0].1;
    lemma_render_head(v);
    let tail_pairs = pairs.drop_first();
    assert forall|i: int| 0 <= i < tail_pairs.len() implies key_ok(#[trigger] tail_pairs[i].0)
        && value_ok(tail_pairs[i].1) by {
        assert(tail_pairs[i] == pairs[i + 1]);
        assert(key_ok(pairs[i + 1].0) && value_ok(pairs[i + 1].1));
    }
    let value_rest = seq![','] + render_membs(tail_pairs) + closer;
    let rest1 = seq![':'] + render_value(v) + value_rest;
    assert(s =~= seq!['"'] + k + seq!['"'] + rest1);
    lemma_string_parse_with_rest(k, rest1);
    lemma_span_len_from(rest1, ws_pred(), 0);
    assert(skip_ws(rest1) =~= rest1);
    assert(rest1[0] == ':');
    let s3 = rest1.skip(1);
    assert(s3 =~= render_value(v) + value_rest);
    lemma_span_len_from(s3, ws_pred(), 0);
    assert(skip_ws(s3) =~= s3);
    lemma_value_parse_with_rest(v, value_rest);
    lemma_span_len_from(value_rest, ws_pred(), 0);
    assert(skip_ws(value_rest) =~= value_rest);
    assert(value_rest[0] == ',');
    let s6 = value_rest.skip(1);
    assert(s6 =~= render_membs(tail_pairs) + closer);
    assert(s6[0] == '"');
    assert(!is_ws_char(s6[0]));
    lemma_span_len_from(s6, ws_pred(), 0);
    assert(skip_ws(s6) =~= s6);
    assert(s6.len() < s.len());
    lemma_membs_parse(tail_pairs, rest);
    assert(render_membs(tail_pairs) + seq!['}'] + rest =~= s6);
    assert(seq![(k, v)] + tail_pairs =~= pairs);
}

#[verifier::spinoff_prover]
proof fn lemma_membs_parse(pairs: Seq<(Seq<char>, JsonView)>, rest: Seq<char>)
    requires
        forall|i: int|
            0 <= i < pairs.len() ==> key_ok(#[trigger] pairs[i].0) && value_ok(pairs[i].1),
    ensures
        spec_parse_members(render_membs(pairs) + seq!['}'] + rest) == Some(
            (seq!['}'] + rest, pairs),
        ),
    decreases pairs, 2nat,
{
    let closer = seq!['}'] + rest;
    let s = render_membs(pairs) + seq!['}'] + rest;
    if pairs.len() == 0 {
        assert(s =~= closer);
        assert(s[0] != '"');
        assert(pairs =~= Seq::<(Seq<char>, JsonView)>::empty());
    } else if pairs.len() == 1 {
        let k = pairs[0].0;
        let v = pairs[0].1;
        lemma_membs_one(k, v, closer);
        assert(s =~= seq!['"'] + k + seq!['"'] + seq![':'] + render_value(v) + closer);
        assert(seq![(k, v)] =~= pairs);
    } else {
        lemma_membs_many(pairs, rest);
    }
}

/// Round trip at the value level: parsing the rendered text of any value
/// tree the grammar can express — scalars in machine range, strings that
/// need no escaping, arrays and objects of such trees with plain, pairwise
/// distinct keys — yields exactly that tree and consumes the whole text.
pub proof fn lemma_value_round_trip(v: JsonView)
    requires
        value_ok(v),
    ensures
        spec_parse_value(render_value(v)) == (Seq::<char>::empty(), Some(v)),
{
    lemma_value_parse_with_rest(v, Seq::empty());
    assert(render_value(v) + Seq::<char>::empty() =~= render_value(v));
}

} // verus!
