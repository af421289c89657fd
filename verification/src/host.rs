//! What the line-based reference host of `velin run` decides: the text a
//! host command writes, the bounded output budget, and how a reply line
//! becomes a value.
//!
//! `say(...)` writes its arguments space-joined on a line; `ask(...)` writes
//! its prompt followed by a space and waits for a reply; any other command
//! is echoed with its name. The reading and writing themselves belong to the
//! program that runs the host.

use crate::text::{lemma_utf8_len_concat, utf8_len};
use crate::value::{display, Datum, Value};
use vstd::prelude::*;
use vstd::string::*;

verus! {

/// The most bytes the reference host writes over one run.
pub const MAX_OUTPUT_BYTES: usize = 1048576;

/// The budget error for output past [`MAX_OUTPUT_BYTES`].
pub open spec fn output_budget_message() -> Seq<char> {
    "output exceeds 1 MiB"@
}

/// The budget error for a size that does not fit in `usize`.
pub open spec fn output_overflow_message() -> Seq<char> {
    "output size overflow"@
}

fn output_budget_text() -> (r: &'static str)
    ensures
        r@ == output_budget_message(),
{
    "output exceeds 1 MiB"
}

fn output_overflow_text() -> (r: &'static str)
    ensures
        r@ == output_overflow_message(),
{
    "output size overflow"
}

/// How the reference host frames the output of one command.
#[derive(Debug, PartialEq, Eq)]
pub struct EffectPlan {
    /// Written before the arguments.
    pub prefix: String,
    /// Written after the arguments.
    pub suffix: &'static str,
    /// Whether the host reads a reply line after writing.
    pub reads_reply: bool,
}

/// The framing of command `name`: `say` ends its line, `ask` leaves the
/// prompt open and reads a reply, anything else is echoed as `[name] ...`.
pub open spec fn effect_plan(name: Seq<char>) -> (Seq<char>, Seq<char>, bool) {
    if name == "say"@ {
        (Seq::empty(), "\n"@, false)
    } else if name == "ask"@ {
        (Seq::empty(), " "@, true)
    } else {
        ("["@ + name + "] "@, "\n"@, false)
    }
}

fn same_text(a: &str, b: &str) -> (r: bool)
    ensures
        r == (a@ == b@),
{
    let left = String::from_str(a);
    let right = String::from_str(b);
    left == right
}

/// How the reference host handles command `name`.
pub fn plan_effect(name: &str) -> (r: EffectPlan)
    ensures
        (r.prefix@, r.suffix@, r.reads_reply) == effect_plan(name@),
{
    if same_text(name, "say") {
        EffectPlan { prefix: String::new(), suffix: "\n", reads_reply: false }
    } else if same_text(name, "ask") {
        EffectPlan { prefix: String::new(), suffix: " ", reads_reply: true }
    } else {
        let mut prefix = String::from_str("[");
        prefix.append(name);
        prefix.append("] ");
        EffectPlan { prefix, suffix: "\n", reads_reply: false }
    }
}

/// Appends `text` to `output` unless the result would pass `limit` UTF-8
/// bytes; then `output` is unchanged and the budget error is returned.
pub fn push_text_bounded(output: &mut String, text: &str, limit: usize) -> (r: Result<(), &'static str>)
    ensures
        r is Ok <==> utf8_len(old(output)@) + utf8_len(text@) <= limit,
        r is Ok ==> final(output)@ == old(output)@ + text@,
        r matches Err(e) ==> final(output)@ == old(output)@ && e@ == output_budget_message(),
{
    let used = output.as_str().as_bytes().len();
    let extra = text.as_bytes().len();
    match used.checked_add(extra) {
        Some(length) => {
            if length > limit {
                return Err(output_budget_text());
            }
        },
        None => {
            return Err(output_budget_text());
        },
    }
    output.append(text);
    Ok(())
}

/// The display forms of `values`, each after a space but the first.
pub open spec fn joined_display(values: Seq<Datum>) -> Seq<char>
    decreases values.len(),
{
    if values.len() == 0 {
        Seq::empty()
    } else if values.len() == 1 {
        display(values[0])
    } else {
        joined_display(values.drop_last()) + " "@ + display(values.last())
    }
}

pub open spec fn value_views(values: Seq<Value>) -> Seq<Datum> {
    Seq::new(values.len(), |i: int| values[i]@)
}

/// The room left for the text of a command after `used` bytes were written
/// and before a suffix of `suffix_len` bytes.
pub open spec fn text_room(used: nat, suffix_len: nat) -> Option<nat> {
    if used + suffix_len <= MAX_OUTPUT_BYTES {
        Some((MAX_OUTPUT_BYTES - used - suffix_len) as nat)
    } else {
        None
    }
}

/// The text a command writes before its suffix: the prefix, then the
/// display forms of the values joined by spaces. It fails with the budget
/// error when it would not fit in what remains of the output budget after
/// `used` bytes and the suffix.
pub fn render_values(prefix: &str, values: &[Value], suffix: &str, used: usize) -> (r: Result<String, &'static str>)
    ensures
        match text_room(used as nat, utf8_len(suffix@)) {
            None => r matches Err(e) && e@ == output_budget_message(),
            Some(room) => {
                let text = prefix@ + joined_display(value_views(values@));
                &&& (r is Ok <==> utf8_len(text) <= room)
                &&& r matches Ok(s) ==> s@ == text
                &&& r matches Err(e) ==> e@ == output_budget_message()
            },
        },
{
    let suffix_len = suffix.as_bytes().len();
    if used > MAX_OUTPUT_BYTES || suffix_len > MAX_OUTPUT_BYTES - used {
        return Err(output_budget_text());
    }
    let limit = MAX_OUTPUT_BYTES - used - suffix_len;
    let ghost views = value_views(values@);
    let mut text = String::new();
    let ghost whole = prefix@ + joined_display(views);
    if push_text_bounded(&mut text, prefix, limit).is_err() {
        proof {
            assert(Seq::<char>::empty() + prefix@ =~= prefix@);
            lemma_utf8_len_concat(Seq::<char>::empty(), prefix@);
            assert(prefix@.is_prefix_of(whole)) by {
                assert(whole.subrange(0, prefix@.len() as int) =~= prefix@);
            }
            lemma_prefix_shorter(prefix@, whole);
        }
        return Err(output_budget_text());
    }
    assert(text@ =~= prefix@ + joined_display(views.subrange(0, 0)));
    let mut i: usize = 0;
    while i < values.len()
        invariant
            i <= values@.len(),
            limit == MAX_OUTPUT_BYTES - used - suffix_len,
            used + suffix_len <= MAX_OUTPUT_BYTES,
            suffix_len as nat == utf8_len(suffix@),
            views == value_views(values@),
            whole == prefix@ + joined_display(views),
            text@ == prefix@ + joined_display(views.subrange(0, i as int)),
            utf8_len(text@) <= limit,
        decreases values@.len() - i,
    {
        let ghost sub = views.subrange(0, i + 1);
        assert(sub.drop_last() =~= views.subrange(0, i as int));
        assert(sub.last() == values@[i as int]@);
        proof {
            lemma_partial_is_prefix(prefix@, views, i as int);
        }
        if i > 0 {
            let ghost before = text@;
            if push_text_bounded(&mut text, " ", limit).is_err() {
                proof {
                    lemma_utf8_len_concat(before, " "@);
                    lemma_prefix_shorter(before + " "@, whole);
                }
                return Err(output_budget_text());
            }
            let ghost spaced = text@;
            assert(spaced + display(values@[i as int]@) =~= prefix@ + joined_display(sub));
            if values[i].append_to_display(&mut text, limit).is_err() {
                proof {
                    lemma_prefix_shorter(prefix@ + joined_display(sub), whole);
                }
                return Err(output_budget_text());
            }
            assert(text@ =~= prefix@ + joined_display(sub));
        } else {
            assert(sub =~= seq![views[0]]);
            assert(text@ + display(values@[0]@) =~= prefix@ + joined_display(sub));
            if values[i].append_to_display(&mut text, limit).is_err() {
                proof {
                    lemma_prefix_shorter(prefix@ + joined_display(sub), whole);
                }
                return Err(output_budget_text());
            }
            assert(text@ =~= prefix@ + joined_display(sub));
        }
        i = i + 1;
    }
    assert(views.subrange(0, values@.len() as int) =~= views);
    Ok(text)
}

/// A prefix of a text takes no more UTF-8 bytes than the text.
proof fn lemma_prefix_shorter(p: Seq<char>, t: Seq<char>)
    requires
        p.is_prefix_of(t),
    ensures
        utf8_len(p) <= utf8_len(t),
{
    let rest = t.subrange(p.len() as int, t.len() as int);
    assert(t =~= p + rest);
    lemma_utf8_len_concat(p, rest);
}

/// What is built after the first `i + 1` values, and before that the text
/// up to the space in front of value `i`, are prefixes of the whole text.
proof fn lemma_partial_is_prefix(prefix: Seq<char>, views: Seq<Datum>, i: int)
    requires
        0 <= i < views.len(),
    ensures
        (prefix + joined_display(views.subrange(0, i + 1))).is_prefix_of(prefix + joined_display(views)),
        i > 0 ==> (prefix + joined_display(views.subrange(0, i)) + " "@).is_prefix_of(prefix + joined_display(views)),
{
    lemma_joined_grows(views, i + 1);
    let all = joined_display(views);
    let long = joined_display(views.subrange(0, i + 1));
    let whole = prefix + all;
    let part = prefix + long;
    assert(whole =~= part + all.subrange(long.len() as int, all.len() as int));
    assert(whole.subrange(0, part.len() as int) =~= part);
    if i > 0 {
        let sub = views.subrange(0, i + 1);
        assert(sub.drop_last() =~= views.subrange(0, i));
        let short = prefix + joined_display(views.subrange(0, i)) + " "@;
        assert(part =~= short + display(views[i]));
        assert(whole.subrange(0, short.len() as int) =~= short);
    }
}

/// The joined text of the first `k` values is a prefix of the joined text
/// of all of them.
proof fn lemma_joined_grows(views: Seq<Datum>, k: int)
    requires
        0 <= k <= views.len(),
    ensures
        joined_display(views.subrange(0, k)).len() <= joined_display(views).len(),
        joined_display(views) == joined_display(views.subrange(0, k)) + joined_display(views).subrange(
            joined_display(views.subrange(0, k)).len() as int,
            joined_display(views).len() as int,
        ),
    decreases views.len() - k,
{
    if k == views.len() {
        assert(views.subrange(0, k) =~= views);
        assert(joined_display(views).subrange(joined_display(views).len() as int, joined_display(views).len() as int)
            =~= Seq::<char>::empty());
        assert(joined_display(views) + Seq::<char>::empty() =~= joined_display(views));
    } else {
        lemma_joined_grows(views, k + 1);
        let short = joined_display(views.subrange(0, k));
        let long = joined_display(views.subrange(0, k + 1));
        let sub = views.subrange(0, k + 1);
        assert(sub.drop_last() =~= views.subrange(0, k));
        let all = joined_display(views);
        if k > 0 {
            assert(long == short + " "@ + display(views[k]));
        } else {
            assert(sub =~= seq![views[0]]);
            assert(short =~= Seq::<char>::empty());
            assert(long =~= short + display(views[0]));
        }
        assert(all =~= short + all.subrange(short.len() as int, all.len() as int));
    }
}

/// The output total after writing `text_len` and `suffix_len` more bytes,
/// or the error when that passes the budget or does not fit in `usize`.
pub fn reserve_output(used: usize, text_len: usize, suffix_len: usize) -> (r: Result<usize, &'static str>)
    ensures
        text_len + suffix_len > usize::MAX ==> (r matches Err(e) && e@ == output_overflow_message()),
        text_len + suffix_len <= usize::MAX && used + text_len + suffix_len > usize::MAX ==> (r matches Err(e) && e@
            == output_overflow_message()),
        used + text_len + suffix_len <= usize::MAX && used + text_len + suffix_len > MAX_OUTPUT_BYTES ==> (r matches Err(
            e,
        ) && e@ == output_budget_message()),
        used + text_len + suffix_len <= MAX_OUTPUT_BYTES ==> r == Ok::<usize, &'static str>(
            (used + text_len + suffix_len) as usize,
        ),
        r matches Ok(total) ==> total == used + text_len + suffix_len && total <= MAX_OUTPUT_BYTES,
{
    let added = match text_len.checked_add(suffix_len) {
        Some(added) => added,
        None => {
            return Err(output_overflow_text());
        },
    };
    let total = match used.checked_add(added) {
        Some(total) => total,
        None => {
            return Err(output_overflow_text());
        },
    };
    if total > MAX_OUTPUT_BYTES {
        return Err(output_budget_text());
    }
    Ok(total)
}

/// An ASCII decimal digit.
pub open spec fn is_digit(c: char) -> bool {
    '0' <= c && c <= '9'
}

/// The value of a run of decimal digits.
pub open spec fn digits_value(s: Seq<char>) -> int
    decreases s.len(),
{
    if s.len() == 0 {
        0
    } else {
        digits_value(s.drop_last()) * 10 + (s.last() as int - '0' as int)
    }
}

/// The integer `text` spells in `i64`'s decimal syntax: an optional `+` or
/// `-`, then one or more ASCII digits, with a value in range.
pub open spec fn integer_text(text: Seq<char>) -> Option<i64> {
    let body = integer_body(text);
    let value = if text.len() > 0 && text[0] == '-' {
        -digits_value(body)
    } else {
        digits_value(body)
    };
    if body.len() > 0 && all_digits(body) && i64::MIN <= value <= i64::MAX {
        Some(value as i64)
    } else {
        None
    }
}

/// Every character of `s` is an ASCII digit.
pub open spec fn all_digits(s: Seq<char>) -> bool {
    forall|i: int| 0 <= i < s.len() ==> is_digit(#[trigger] s[i])
}

/// The digits of `text` after its optional sign.
pub open spec fn integer_body(text: Seq<char>) -> Seq<char> {
    if text.len() > 0 && (text[0] == '-' || text[0] == '+') {
        text.drop_first()
    } else {
        text
    }
}

proof fn lemma_digits_value_prefix(s: Seq<char>, k: int)
    requires
        0 <= k < s.len(),
    ensures
        digits_value(s.subrange(0, k + 1)) == digits_value(s.subrange(0, k)) * 10 + (s[k] as int - '0' as int),
{
    assert(s.subrange(0, k + 1).drop_last() =~= s.subrange(0, k));
}

proof fn lemma_digits_value_nonnegative(s: Seq<char>)
    requires
        forall|i: int| 0 <= i < s.len() ==> is_digit(#[trigger] s[i]),
    ensures
        digits_value(s) >= 0,
    decreases s.len(),
{
    if s.len() > 0 {
        let rest = s.drop_last();
        assert forall|i: int| 0 <= i < rest.len() implies is_digit(#[trigger] rest[i]) by {
            assert(rest[i] == s[i]);
        }
        lemma_digits_value_nonnegative(rest);
        assert(is_digit(s[s.len() - 1]));
    }
}

proof fn lemma_digits_value_grows(s: Seq<char>, k: int)
    requires
        0 <= k <= s.len(),
        forall|i: int| 0 <= i < s.len() ==> is_digit(#[trigger] s[i]),
    ensures
        digits_value(s) >= digits_value(s.subrange(0, k)),
    decreases s.len() - k,
{
    if k < s.len() {
        let p = s.subrange(0, k);
        assert forall|i: int| 0 <= i < p.len() implies is_digit(#[trigger] p[i]) by {
            assert(p[i] == s[i]);
        }
        lemma_digits_value_nonnegative(p);
        lemma_digits_value_prefix(s, k);
        assert(is_digit(s[k]));
        lemma_digits_value_grows(s, k + 1);
    } else {
        assert(s.subrange(0, k) =~= s);
    }
}

/// Reads the integer `text` spells, as `i64`'s `FromStr` does: an optional
/// `+` or `-`, then one or more ASCII digits, with a value in range.
fn parse_integer(text: &str) -> (r: Option<i64>)
    ensures
        r == integer_text(text@),
{
    let ghost t = text@;
    if !text.is_ascii() {
        proof {
            assert(!vstd::utf8::is_ascii_chars(t));
            assert(exists|k: int| 0 <= k < t.len() && !('\0' <= #[trigger] t[k] <= '\u{7f}'));
            let k = choose|k: int| 0 <= k < t.len() && !('\0' <= #[trigger] t[k] <= '\u{7f}');
            let signed = t.len() > 0 && (t[0] == '-' || t[0] == '+');
            let body = if signed { t.drop_first() } else { t };
            if signed {
                assert(body[k - 1] == t[k]);
                assert(!is_digit(body[k - 1]));
            } else {
                assert(!is_digit(body[k]));
            }
        }
        return None;
    }
    let n = text.unicode_len();
    if n == 0 {
        return None;
    }
    let first = text.get_ascii(0);
    let negative = first == 45u8;
    let start: usize = if first == 45u8 || first == 43u8 { 1 } else { 0 };
    let ghost body = if start == 1 { t.drop_first() } else { t };
    proof {
        assert(t[0] as int == first as int);
        assert(t[0] == '-' <==> first == 45u8);
        assert(t[0] == '+' <==> first == 43u8);
        assert(body =~= t.subrange(start as int, t.len() as int));
    }
    proof {
        assert(body == (if t.len() > 0 && (t[0] == '-' || t[0] == '+') {
            t.drop_first()
        } else {
            t
        }));
    }
    if start == n {
        assert(body.len() == 0);
        return None;
    }
    let mut magnitude: u64 = 0;
    let mut i: usize = start;
    while i < n
        invariant
            t == text@,
            text.is_ascii(),
            n == t.len(),
            start <= i <= n,
            body == t.subrange(start as int, t.len() as int),
            body == (if t.len() > 0 && (t[0] == '-' || t[0] == '+') {
                t.drop_first()
            } else {
                t
            }),
            negative == (t.len() > 0 && t[0] == '-'),
            forall|j: int| 0 <= j < i - start ==> is_digit(#[trigger] body[j]),
            magnitude == digits_value(body.subrange(0, i - start)),
            magnitude <= 0x8000_0000_0000_0000u64,
        decreases n - i,
    {
        let c = text.get_ascii(i);
        proof {
            assert(body[i - start] == t[i as int]);
            assert('\0' <= t[i as int] <= '\u{7f}');
            assert(t[i as int] as u8 == c);
            assert(t[i as int] as int == c as int);
            assert(is_digit(t[i as int]) <==> 48u8 <= c <= 57u8);
        }
        if c < 48u8 || c > 57u8 {
            return None;
        }
        let digit = (c - 48u8) as u64;
        proof {
            lemma_digits_value_prefix(body, i - start);
            assert(digit as int == t[i as int] as int - '0' as int);
        }
        if magnitude > 922_337_203_685_477_580u64 || (magnitude == 922_337_203_685_477_580u64 && digit > 8) {
            proof {
                if forall|j: int| 0 <= j < body.len() ==> is_digit(#[trigger] body[j]) {
                    lemma_digits_value_grows(body, i - start + 1);
                }
            }
            return None;
        }
        magnitude = magnitude * 10 + digit;
        i = i + 1;
    }
    proof {
        assert(body.subrange(0, body.len() as int) =~= body);
    }
    if negative {
        if magnitude == 0x8000_0000_0000_0000u64 {
            Some(i64::MIN)
        } else {
            Some(-(magnitude as i64))
        }
    } else if magnitude > 0x7FFF_FFFF_FFFF_FFFFu64 {
        None
    } else {
        Some(magnitude as i64)
    }
}

proof fn lemma_natural_digits_read_back(n: nat)
    ensures
        all_digits(crate::text::natural_digits(n)),
        crate::text::natural_digits(n).len() > 0,
        digits_value(crate::text::natural_digits(n)) == n,
        crate::text::natural_digits(n)[0] != '-' && crate::text::natural_digits(n)[0] != '+',
    decreases n,
{
    let s = crate::text::natural_digits(n);
    let d = n % 10;
    assert(crate::text::digit_char(d) as int - '0' as int == d);
    if n < 10 {
        assert(s.drop_last() =~= Seq::<char>::empty());
        assert(digits_value(s) == digits_value(s.drop_last()) * 10 + (s.last() as int - '0' as int));
    }
    if n >= 10 {
        assert(n == (n / 10) * 10 + n % 10);
        lemma_natural_digits_read_back(n / 10);
        let prefix = crate::text::natural_digits(n / 10);
        assert(s == prefix.push(crate::text::digit_char(n % 10)));
        assert(s.drop_last() =~= prefix);
        assert forall|i: int| 0 <= i < s.len() implies is_digit(#[trigger] s[i]) by {
            if i < prefix.len() {
                assert(s[i] == prefix[i]);
            }
        }
        assert(s[0] == prefix[0]);
        assert(digits_value(s) == digits_value(prefix) * 10 + (s.last() as int - '0' as int));
    }
}

/// A displayed integer reads back as itself: a host reply holding the
/// decimal form of any 64-bit integer is that integer, and `true`/`false`
/// read back as booleans.
pub proof fn displayed_integers_read_back(n: i64)
    ensures
        integer_text(display(Datum::Integer(n as int))) == Some(n),
        reply_value(display(Datum::Integer(n as int))) == Datum::Integer(n as int),
        reply_value(display(Datum::Boolean(true))) == Datum::Boolean(true),
        reply_value(display(Datum::Boolean(false))) == Datum::Boolean(false),
{
    let t = display(Datum::Integer(n as int));
    if n < 0 {
        let m = (-(n as int)) as nat;
        lemma_natural_digits_read_back(m);
        let digits = crate::text::natural_digits(m);
        assert(t == seq!['-'] + digits);
        assert(t.drop_first() =~= digits);
        assert(integer_body(t) == digits);
    } else {
        lemma_natural_digits_read_back(n as nat);
        assert(integer_body(t) == t);
    }
    reveal_strlit("true");
    reveal_strlit("false");
    assert(!is_digit("true"@[0]) && !is_digit("false"@[0]));
    assert(integer_body("true"@) == "true"@);
    assert(integer_body("false"@) == "false"@);
}

/// The value a reply line stands for: an integer when it spells one, a
/// boolean for `true` and `false`, otherwise the text itself.
pub open spec fn reply_value(text: Seq<char>) -> Datum {
    match integer_text(text) {
        Some(n) => Datum::Integer(n as int),
        None => if text == "true"@ {
            Datum::Boolean(true)
        } else if text == "false"@ {
            Datum::Boolean(false)
        } else {
            Datum::Text(text)
        },
    }
}

/// Interprets a reply line as a value.
pub fn parse_reply(text: &str) -> (r: Value)
    ensures
        r@ == reply_value(text@),
{
    match parse_integer(text) {
        Some(number) => Value::Integer(number),
        None => {
            if same_text(text, "true") {
                Value::Boolean(true)
            } else if same_text(text, "false") {
                Value::Boolean(false)
            } else {
                Value::String(String::from_str(text))
            }
        },
    }
}

} // verus!
