//! Shortening long texts, with a marker that says how much was taken out.

use crate::double::{fl_ceil, fl_div, fl_mul, fl_nat, Double, Fl, Real};
use crate::llm::token_estimate::{
    capped, estimate_text_tokens, normalize_factor, normalized, text_tokens,
};
use crate::rounding::{
    lemma_ceil_order, lemma_nat_order, lemma_product_order, lemma_quotient_order, normal,
};
use crate::text::{
    chars_of, contains_text, decimal, decimal_text, lemma_decimal_round_trip, lemma_decimal_value,
    lemma_split_at, occurs_at, parse_usize, parsed_usize, split_at_first, split_first, text_of,
};
use vstd::prelude::*;

verus! {

/// What must be taken out at least for a text to be worth shortening.
pub const MIN_TRUNCATE_CHARS: usize = 512;

/// How many characters a shortened text keeps at least.
pub const MIN_KEEP_CHARS: usize = 256;

/// What the marker of a shortened text begins with.
pub const TRUNCATED_MARKER_PREFIX: &'static str = "…[已截断 ";

/// What the marker of a shortened text ends with.
pub const TRUNCATED_MARKER_SUFFIX: &'static str = " 字符]…";

/// A text with a marker: what stands before it, the number in it, and what stands behind it.
pub open spec fn marker(s: Seq<char>) -> Option<(Seq<char>, nat, Seq<char>)> {
    match split_at_first(s, TRUNCATED_MARKER_PREFIX@) {
        Some((before, rest)) => match split_at_first(rest, TRUNCATED_MARKER_SUFFIX@) {
            Some((count, behind)) => match parsed_usize(count) {
                Some(n) => Some((before, n, behind)),
                None => None,
            },
            None => None,
        },
        None => None,
    }
}

/// A text without its marker.
pub open spec fn visible(s: Seq<char>) -> Seq<char> {
    match marker(s) {
        Some((before, _, behind)) => before + behind,
        None => s,
    }
}

/// How many characters were taken out of a text earlier.
pub open spec fn taken_out(s: Seq<char>) -> nat {
    match marker(s) {
        Some((_, n, _)) => n,
        None => 0,
    }
}

/// How many characters a text is left with when it is to be cut to `target`.
pub open spec fn kept(length: nat, target: nat) -> nat {
    let wanted = if target < MIN_KEEP_CHARS {
        MIN_KEEP_CHARS as nat
    } else {
        target
    };
    if wanted < length {
        wanted
    } else {
        length
    }
}

/// A text cut to `target` characters: three quarters from its front, one from its end, and the
/// marker between them. `None` where there is nothing to take out.
pub open spec fn truncated(s: Seq<char>, target: nat) -> Option<Seq<char>> {
    let v = visible(s);
    let t = kept(v.len(), target);
    if t >= v.len() {
        None
    } else {
        let head = t * 75 / 100;
        let removed = taken_out(s) + v.len() - t;
        Some(
            v.take(head as int) + TRUNCATED_MARKER_PREFIX@ + decimal(
                if removed <= usize::MAX {
                    removed as nat
                } else {
                    usize::MAX as nat
                },
            ) + TRUNCATED_MARKER_SUFFIX@ + v.skip(v.len() - (t - head)),
        )
    }
}

/// The double nearest to 1.2.
pub open spec fn truncation_safety_factor() -> Fl {
    Fl { m: 0x13_3333_3333_3333, e: -52 }
}

/// How many characters of `length` to take out so that the estimate falls by `excess` and a fifth.
pub open spec fn chars_to_remove(length: nat, tokens: nat, excess: nat, factor: Fl) -> nat {
    let per_char = fl_div(fl_nat(tokens), fl_nat(length));
    capped(
        fl_ceil(
            fl_div(
                fl_mul(fl_div(fl_nat(excess), factor), truncation_safety_factor()),
                per_char,
            ),
        ),
    )
}

/// The length to cut a text to so that the estimate falls by `excess`, as far as it may be cut.
pub open spec fn target_chars(s: Seq<char>, excess: nat, factor: Fl) -> nat {
    let v = visible(s);
    let tokens = text_tokens(v);
    if v.len() <= MIN_KEEP_CHARS {
        v.len()
    } else if tokens == 0 {
        MIN_KEEP_CHARS as nat
    } else {
        let remove = chars_to_remove(v.len(), tokens, excess, factor);
        if v.len() >= remove + MIN_KEEP_CHARS {
            (v.len() - remove) as nat
        } else {
            MIN_KEEP_CHARS as nat
        }
    }
}

/// Reads the marker of a shortened text.
pub fn parse_truncated_marker(text: &str) -> (r: Option<(String, usize, String)>)
    ensures
        match r {
            Some((before, n, behind)) => marker(text@) == Some((before@, n as nat, behind@)),
            None => marker(text@) is None,
        },
{
    match split_first(text, TRUNCATED_MARKER_PREFIX) {
        Some((before, rest)) => match split_first(rest.as_str(), TRUNCATED_MARKER_SUFFIX) {
            Some((count, behind)) => match parse_usize(count.as_str()) {
                Some(n) => Some((before, n, behind)),
                None => None,
            },
            None => None,
        },
        None => None,
    }
}

/// A text without its marker.
pub fn visible_text(text: &str) -> (r: String)
    ensures
        r@ == visible(text@),
{
    match parse_truncated_marker(text) {
        Some((before, _, behind)) => {
            let mut r: String = before;
            r.append(behind.as_str());
            r
        },
        None => text.to_owned(),
    }
}

/// How many characters a text has besides its marker.
pub fn visible_text_chars(text: &str) -> (r: usize)
    ensures
        r == visible(text@).len(),
{
    let v: String = visible_text(text);
    v.as_str().unicode_len()
}

/// The length to cut a text to so that the estimate falls by `excess_tokens`.
pub fn truncation_target_chars(text: &str, excess_tokens: u64, calibration_factor: Real) -> (r:
    usize)
    ensures
        r == target_chars(text@, excess_tokens as nat, normalized(calibration_factor)),
{
    let shown: String = visible_text(text);
    let chars: usize = shown.as_str().unicode_len();
    if chars <= MIN_KEEP_CHARS {
        return chars;
    }
    let estimated: u64 = estimate_text_tokens(shown.as_str());
    if estimated == 0 {
        return MIN_KEEP_CHARS;
    }
    let factor: Double = normalize_factor(calibration_factor);
    let per_char: Double = Double::from_u64(estimated).div(Double::from_u64(chars as u64));
    let remove: u64 = Double::from_u64(excess_tokens).div(factor).mul(
        Double { m: 0x13_3333_3333_3333, e: -52 },
    ).div(per_char).ceil();
    if remove < (chars - MIN_KEEP_CHARS) as u64 {
        chars - remove as usize
    } else {
        MIN_KEEP_CHARS
    }
}

/// Cuts a text, and says in its marker how much was taken out in all.
pub fn truncate_text_to(text: &str, target_chars: usize) -> (r: Option<String>)
    ensures
        match r {
            Some(t) => truncated(text@, target_chars as nat) == Some(t@),
            None => truncated(text@, target_chars as nat) is None,
        },
{
    let (shown, prior): (String, usize) = match parse_truncated_marker(text) {
        Some((before, n, behind)) => {
            let mut s: String = before;
            s.append(behind.as_str());
            (s, n)
        },
        None => (text.to_owned(), 0),
    };
    let chars: Vec<char> = chars_of(shown.as_str());
    let n: usize = chars.len();
    let wanted: usize = if target_chars < MIN_KEEP_CHARS {
        MIN_KEEP_CHARS
    } else {
        target_chars
    };
    if wanted >= n {
        return None;
    }
    let head: usize = wanted / 100 * 75 + wanted % 100 * 75 / 100;
    assert(head == wanted * 75 / 100);
    let tail: usize = wanted - head;
    let removed: usize = prior.saturating_add(n - wanted);
    let mut r: String = text_of(&chars, 0, head);
    r.append(TRUNCATED_MARKER_PREFIX);
    r.append(decimal_text(removed as u64).as_str());
    r.append(TRUNCATED_MARKER_SUFFIX);
    r.append(text_of(&chars, n - tail, n).as_str());
    assert(chars@.subrange(0, head as int) =~= chars@.take(head as int));
    assert(chars@.subrange(n - tail, n as int) =~= chars@.skip(n - tail));
    Some(r)
}

/// The number that a shortened text tells.
pub open spec fn removed_count(s: Seq<char>, target: nat) -> nat {
    let removed = (taken_out(s) + visible(s).len() - kept(visible(s).len(), target)) as nat;
    if removed <= usize::MAX {
        removed
    } else {
        usize::MAX as nat
    }
}

/// The marker of a shortened text reads back: the text keeps exactly the characters it was cut to,
/// and its marker tells how many were taken out in all, those of earlier cuts included. (A text
/// that holds the beginning of a marker by itself may be misread.)
pub proof fn lemma_marker_reads_back(s: Seq<char>, target: nat)
    requires
        truncated(s, target) is Some,
        !contains_text(visible(s), TRUNCATED_MARKER_PREFIX@),
    ensures
        ({
            let t = truncated(s, target)->0;
            let v = visible(s);
            let k = kept(v.len(), target);
            let head = k * 75 / 100;
            &&& marker(t) == Some(
                (v.take(head as int), removed_count(s, target), v.skip(v.len() - (k - head))),
            )
            &&& visible(t) == v.take(head as int) + v.skip(v.len() - (k - head))
            &&& visible(t).len() == k
            &&& k >= MIN_KEEP_CHARS
            &&& taken_out(t) == removed_count(s, target)
        }),
{
    reveal_strlit("…[已截断 ");
    reveal_strlit(" 字符]…");
    let prefix = TRUNCATED_MARKER_PREFIX@;
    let suffix = TRUNCATED_MARKER_SUFFIX@;
    let t = truncated(s, target)->0;
    let v = visible(s);
    let k = kept(v.len(), target);
    let h = k as int * 75 / 100;
    let front = v.take(h);
    let back = v.skip(v.len() - (k - h));
    let count = removed_count(s, target);
    let digits = decimal(count);
    assert(t == front + prefix + digits + suffix + back);
    assert(t.subrange(h, h + prefix.len()) =~= prefix);
    assert forall|j: int| 0 <= j < h implies !occurs_at(t, prefix, j) by {
        if occurs_at(t, prefix, j) {
            if j + prefix.len() <= h {
                assert(v.subrange(j, j + prefix.len()) =~= t.subrange(j, j + prefix.len()));
                assert(occurs_at(v, prefix, j));
            } else {
                assert(t.subrange(j, j + prefix.len())[h - j] == t[h]);
                assert(t[h] == prefix[0]);
                assert(prefix[h - j] == prefix[0]);
            }
        }
    }
    lemma_split_at(t, prefix, h);
    assert(t.take(h) =~= front);
    let rest = t.skip(h + prefix.len());
    assert(rest =~= digits + suffix + back);
    let d = digits.len() as int;
    lemma_decimal_value(count);
    lemma_decimal_round_trip(count);
    assert(rest.subrange(d, d + suffix.len()) =~= suffix);
    assert forall|j: int| 0 <= j < d implies !occurs_at(rest, suffix, j) by {
        if occurs_at(rest, suffix, j) {
            assert(rest.subrange(j, j + suffix.len())[0] == rest[j]);
            assert(rest[j] == digits[j]);
        }
    }
    lemma_split_at(rest, suffix, d);
    assert(rest.take(d) =~= digits);
    assert(rest.skip(d + suffix.len()) =~= back);
}

/// Cutting twice tells, after the second cut, how many characters the two cuts took out together.
pub proof fn lemma_cuts_add_up(s: Seq<char>, first: nat, second: nat)
    requires
        truncated(s, first) is Some,
        !contains_text(visible(s), TRUNCATED_MARKER_PREFIX@),
        truncated(truncated(s, first)->0, second) is Some,
        !contains_text(visible(truncated(s, first)->0), TRUNCATED_MARKER_PREFIX@),
        taken_out(s) + visible(s).len() <= usize::MAX,
    ensures
        ({
            let t = truncated(truncated(s, first)->0, second)->0;
            taken_out(t) + visible(t).len() == taken_out(s) + visible(s).len()
        }),
{
    lemma_marker_reads_back(s, first);
    lemma_marker_reads_back(truncated(s, first)->0, second);
}

/// A text is shortened exactly where more of it is visible than it is to keep, and 256 characters
/// are kept at least. Its front and its end stay, three to one, with a marker between them.
pub proof fn lemma_when_a_text_is_cut(s: Seq<char>, target: nat)
    ensures
        truncated(s, target) is None <==> visible(s).len() <= 256 || visible(s).len() <= target,
        truncated(s, target) is Some ==> {
            let t = truncated(s, target)->0;
            let v = visible(s);
            let k: int = if target < 256 {
                256
            } else {
                target as int
            };
            let head = k * 75 / 100;
            let tail = k - head;
            &&& t.take(head) == v.take(head)
            &&& t.skip(t.len() - tail) == v.skip(v.len() - tail)
            &&& t.len() > k
            &&& occurs_at(t, "…[已截断 "@, head)
        },
{
    if truncated(s, target) is Some {
        let t = truncated(s, target)->0;
        let v = visible(s);
        let k = kept(v.len(), target);
        let head = k as int * 75 / 100;
        let tail = k - head;
        reveal_strlit("…[已截断 ");
        assert(t.take(head) =~= v.take(head));
        assert(t.skip(t.len() - tail) =~= v.skip(v.len() - tail));
        assert(t.subrange(head, head + "…[已截断 "@.len()) =~= "…[已截断 "@);
    }
}

/// The less a request is over its budget, the more of a text is kept: nothing is taken out where
/// there is no excess, and a greater excess never keeps more. At least 256 characters stay of a text
/// that has as many.
pub proof fn lemma_more_is_kept_for_less_excess(s: Seq<char>, less: nat, more: nat, factor: Fl)
    requires
        less <= more,
        normal(factor),
        factor.m > 0,
    ensures
        target_chars(s, more, factor) <= target_chars(s, less, factor),
        visible(s).len() <= 256 ==> target_chars(s, more, factor) == visible(s).len(),
        visible(s).len() > 256 ==> 256 <= target_chars(s, more, factor) <= visible(s).len(),
        text_tokens(visible(s)) > 0 ==> target_chars(s, 0, factor) == visible(s).len(),
        text_tokens(visible(s)) > 0 && visible(s).len() > 256 && more > 0 ==> target_chars(
            s,
            more,
            factor,
        ) < visible(s).len(),
{
    let v = visible(s);
    let tokens = text_tokens(v);
    if v.len() > 256 && tokens > 0 {
        let per = fl_div(fl_nat(tokens), fl_nat(v.len()));
        lemma_nat_order(tokens, tokens);
        lemma_nat_order(v.len(), v.len());
        lemma_quotient_order(fl_nat(tokens), fl_nat(tokens), fl_nat(v.len()));
        lemma_removed_order(less, more, factor, per);
        lemma_removed_order(0, more, factor, per);
    }
}

proof fn lemma_removed_order(less: nat, more: nat, factor: Fl, per: Fl)
    requires
        less <= more,
        normal(factor),
        factor.m > 0,
        normal(per),
        per.m > 0,
    ensures
        ({
            let x = fl_ceil(
                fl_div(fl_mul(fl_div(fl_nat(less), factor), truncation_safety_factor()), per),
            );
            let y = fl_ceil(
                fl_div(fl_mul(fl_div(fl_nat(more), factor), truncation_safety_factor()), per),
            );
            &&& x <= y
            &&& x == 0 <==> less == 0
            &&& y == 0 <==> more == 0
        }),
{
    let f = truncation_safety_factor();
    lemma_nat_order(less, more);
    lemma_nat_order(more, more);
    let (a, b) = (fl_nat(less), fl_nat(more));
    lemma_quotient_order(a, b, factor);
    lemma_quotient_order(b, b, factor);
    let (a, b) = (fl_div(a, factor), fl_div(b, factor));
    lemma_product_order(a, b, f);
    lemma_product_order(b, b, f);
    let (a, b) = (fl_mul(a, f), fl_mul(b, f));
    lemma_quotient_order(a, b, per);
    lemma_quotient_order(b, b, per);
    lemma_ceil_order(fl_div(a, per), fl_div(b, per));
    lemma_ceil_order(fl_div(b, per), fl_div(b, per));
}

} // verus!
