//! Local estimates of request sizes in tokens, and their calibration.
//!
//! The estimates depend on no service; the counts that services report calibrate them.

use crate::bytes::{little_endian, push_little_endian};
use crate::double::{
    fl_add, fl_ceil, fl_clamp, fl_div, fl_le, fl_mul, fl_nat, Double, Fl, Real, HIDDEN,
};
use crate::json::{json_text, lemma_trees, Json, JsonView};
use crate::llm::types::{ChatRequest, Message, MessageView, RequestView, ToolCall, ToolCallView};
use crate::model::{duplicate_all, lemma_views_push, views};
use crate::rounding::{
    lemma_ceil_order, lemma_integer_doubled, lemma_integers_are_exact, lemma_nat_order,
    lemma_product_order, lemma_quotient_of_equals, lemma_quotient_order, lemma_sum_order,
    lemma_three_halves, lemma_times_one, normal,
};
use crate::text::{blank, is_blank, is_white, lemma_blank_is_trimmed_empty, same_text, trimmed};
use std::collections::hash_map::DefaultHasher;
use std::hash::Hasher;
use vstd::multiset::Multiset;
use vstd::prelude::*;
use vstd::std_specs::hash::DefaultHasherAdditionalSpecFns;
use vstd::utf8::encode_utf8;

verus! {

/// Tokens that a message takes besides its texts.
pub const MESSAGE_OVERHEAD_TOKENS: u64 = 4;

/// Whether a character belongs to the scripts that take more tokens.
pub open spec fn wide(c: char) -> bool {
    ||| '\u{3000}' <= c <= '\u{303f}'
    ||| '\u{3040}' <= c <= '\u{30ff}'
    ||| '\u{3400}' <= c <= '\u{4dbf}'
    ||| '\u{4e00}' <= c <= '\u{9fff}'
    ||| '\u{ac00}' <= c <= '\u{d7af}'
    ||| '\u{f900}' <= c <= '\u{faff}'
    ||| '\u{ff00}' <= c <= '\u{ffef}'
    ||| '\u{20000}' <= c <= '\u{2fa1f}'
}

/// How many characters of a text belong to those scripts.
pub open spec fn wide_count(s: Seq<char>) -> nat
    decreases s.len(),
{
    if s.len() == 0 {
        0
    } else {
        wide_count(s.drop_last()) + if wide(s.last()) {
            1nat
        } else {
            0nat
        }
    }
}

/// One and a half.
pub open spec fn wide_chars_per_token() -> Fl {
    Fl { m: 0x18_0000_0000_0000, e: -52 }
}

/// The double nearest to 3.8.
pub open spec fn other_chars_per_token() -> Fl {
    Fl { m: 0x1e_6666_6666_6666, e: -51 }
}

/// One half.
pub open spec fn half() -> Fl {
    Fl { m: HIDDEN as nat, e: -53 }
}

/// One.
pub open spec fn one() -> Fl {
    Fl { m: HIDDEN as nat, e: -52 }
}

/// Two.
pub open spec fn two() -> Fl {
    Fl { m: HIDDEN as nat, e: -51 }
}

/// The double nearest to 0.8.
pub open spec fn old_weight() -> Fl {
    Fl { m: 0x19_9999_9999_999a, e: -53 }
}

/// One less the double nearest to 0.8.
pub open spec fn new_weight() -> Fl {
    Fl { m: 0x19_9999_9999_9998, e: -55 }
}

/// A number, or the greatest `u64` where it is greater.
pub open spec fn capped(n: nat) -> nat {
    if n <= u64::MAX {
        n
    } else {
        u64::MAX as nat
    }
}

/// The estimate for given numbers of characters: a token for every one and a half wide ones and
/// one for every 3.8 others, rounded up.
pub open spec fn counts_tokens(wide: nat, others: nat) -> nat {
    capped(
        fl_ceil(
            fl_add(
                fl_div(fl_nat(wide), wide_chars_per_token()),
                fl_div(fl_nat(others), other_chars_per_token()),
            ),
        ),
    )
}

/// The estimate for a text: none for a blank one, else that for the numbers of its characters.
pub open spec fn text_tokens(s: Seq<char>) -> nat {
    if is_blank(s) {
        0
    } else {
        counts_tokens(wide_count(s), (s.len() - wide_count(s)) as nat)
    }
}

/// The estimate for a text that may be missing.
pub open spec fn optional_tokens(o: Option<Seq<char>>) -> nat {
    match o {
        Some(s) => text_tokens(s),
        None => 0,
    }
}

/// The estimate for tool calls: their identifiers, names and arguments.
pub open spec fn calls_tokens(calls: Seq<ToolCallView>) -> nat
    decreases calls.len(),
{
    if calls.len() == 0 {
        0
    } else {
        let c = calls.last();
        calls_tokens(calls.drop_last()) + optional_tokens(c.id) + text_tokens(c.name)
            + text_tokens(c.arguments)
    }
}

/// The estimate for a message.
pub open spec fn message_tokens(m: MessageView) -> nat {
    MESSAGE_OVERHEAD_TOKENS as nat + optional_tokens(m.content) + optional_tokens(
        m.reasoning_content,
    ) + optional_tokens(m.tool_call_id) + match m.tool_calls {
        Some(calls) => calls_tokens(calls),
        None => 0,
    }
}

/// The estimate for messages.
pub open spec fn messages_tokens(s: Seq<MessageView>) -> nat
    decreases s.len(),
{
    if s.len() == 0 {
        0
    } else {
        messages_tokens(s.drop_last()) + message_tokens(s.last())
    }
}

/// The estimate for texts.
pub open spec fn texts_tokens(s: Seq<Seq<char>>) -> nat
    decreases s.len(),
{
    if s.len() == 0 {
        0
    } else {
        texts_tokens(s.drop_last()) + text_tokens(s.last())
    }
}

/// The texts of tool descriptions.
pub open spec fn tool_texts(s: Seq<JsonView>) -> Seq<Seq<char>> {
    Seq::new(s.len(), |i: int| json_text(s[i]))
}

/// The estimate for a request: its messages, and its tool descriptions as texts.
pub open spec fn request_tokens(r: RequestView) -> nat {
    capped(
        messages_tokens(r.messages) + texts_tokens(
            match r.tools {
                Some(tools) => tool_texts(tools),
                None => Seq::empty(),
            },
        ),
    )
}

/// A calibration factor within its bounds.
pub open spec fn normalized(factor: Real) -> Fl {
    factor.clamped(half(), two(), one())
}

/// An estimate times a factor, rounded up.
pub open spec fn scaled(estimated: nat, factor: Fl) -> nat {
    capped(fl_ceil(fl_mul(fl_nat(estimated), factor)))
}

proof fn lemma_wide_count_of_sum(a: Seq<char>, b: Seq<char>)
    ensures
        wide_count(a + b) == wide_count(a) + wide_count(b),
        wide_count(a) <= a.len(),
    decreases a.len() + b.len(),
{
    if b.len() > 0 {
        assert((a + b).drop_last() =~= a + b.drop_last());
        lemma_wide_count_of_sum(a, b.drop_last());
    } else {
        assert(a + b =~= a);
        if a.len() > 0 {
            assert(a.drop_last() + b =~= a.drop_last());
            lemma_wide_count_of_sum(a.drop_last(), b);
        }
    }
}

/// More characters of either kind never take fewer tokens, and any character takes some.
proof fn lemma_counts_order(w1: nat, o1: nat, w2: nat, o2: nat)
    requires
        w1 <= w2,
        o1 <= o2,
    ensures
        counts_tokens(w1, o1) <= counts_tokens(w2, o2),
        counts_tokens(w1, o1) == 0 <==> w1 == 0 && o1 == 0,
{
    lemma_nat_order(w1, w2);
    lemma_nat_order(o1, o2);
    let (w, o) = (wide_chars_per_token(), other_chars_per_token());
    lemma_quotient_order(fl_nat(w1), fl_nat(w2), w);
    lemma_quotient_order(fl_nat(w2), fl_nat(w2), w);
    lemma_quotient_order(fl_nat(o1), fl_nat(o2), o);
    lemma_quotient_order(fl_nat(o2), fl_nat(o2), o);
    let (a1, b1) = (fl_div(fl_nat(w1), w), fl_div(fl_nat(o1), o));
    let (a2, b2) = (fl_div(fl_nat(w2), w), fl_div(fl_nat(o2), o));
    lemma_sum_order(a1, b1, a2, b2);
    lemma_sum_order(a2, b2, a2, b2);
    lemma_ceil_order(fl_add(a1, b1), fl_add(a2, b2));
}

/// The estimate is zero for blank texts and for no others.
pub proof fn lemma_only_blank_is_free(s: Seq<char>)
    ensures
        text_tokens(s) == 0 <==> is_blank(s),
        text_tokens(s) == 0 <==> trimmed(s).len() == 0,
{
    lemma_blank_is_trimmed_empty(s);
    if !is_blank(s) {
        let (w, o) = (wide_count(s), (s.len() - wide_count(s)) as nat);
        lemma_wide_count_of_sum(s, Seq::empty());
        lemma_counts_order(w, o, w, o);
        assert(s.len() > 0);
    }
}

/// A text takes at least as many tokens as either of two texts that it is put together from.
pub proof fn lemma_estimate_grows(a: Seq<char>, b: Seq<char>)
    ensures
        text_tokens(a + b) >= text_tokens(a),
        text_tokens(a + b) >= text_tokens(b),
{
    let s = a + b;
    lemma_wide_count_of_sum(a, b);
    lemma_wide_count_of_sum(b, Seq::empty());
    let (w, o) = (wide_count(s), (s.len() - wide_count(s)) as nat);
    if is_blank(s) {
        assert forall|i: int| 0 <= i < a.len() implies is_white(#[trigger] a[i]) by {
            assert(s[i] == a[i]);
        }
        assert forall|i: int| 0 <= i < b.len() implies is_white(#[trigger] b[i]) by {
            assert(s[a.len() + i] == b[i]);
        }
    } else {
        lemma_counts_order(wide_count(a), (a.len() - wide_count(a)) as nat, w, o);
        lemma_counts_order(wide_count(b), (b.len() - wide_count(b)) as nat, w, o);
    }
}

proof fn lemma_wide_count_of_characters(s: Seq<char>)
    ensures
        wide_count(s) == s.to_multiset().filter(|c: char| wide(c)).len(),
    decreases s.len(),
{
    let f = |c: char| wide(c);
    s.to_multiset_ensures();
    if s.len() == 0 {
        assert(s.to_multiset() =~= Multiset::empty());
        assert(s.to_multiset().filter(f) =~= Multiset::empty());
    } else {
        let t = s.drop_last();
        let c = s.last();
        lemma_wide_count_of_characters(t);
        t.to_multiset_ensures();
        assert(s =~= t.push(c));
        assert(s.to_multiset() =~= t.to_multiset().insert(c));
        let before = t.to_multiset().filter(f);
        if wide(c) {
            assert(s.to_multiset().filter(f) =~= before.insert(c));
        } else {
            assert(s.to_multiset().filter(f) =~= before);
        }
    }
}

/// The estimate does not depend on the order of the characters.
pub proof fn lemma_estimate_ignores_order(a: Seq<char>, b: Seq<char>)
    requires
        a.to_multiset() == b.to_multiset(),
    ensures
        text_tokens(a) == text_tokens(b),
{
    lemma_wide_count_of_characters(a);
    lemma_wide_count_of_characters(b);
    a.to_multiset_ensures();
    b.to_multiset_ensures();
    if is_blank(a) {
        lemma_blank_together(a, b);
    }
    if is_blank(b) {
        lemma_blank_together(b, a);
    }
}

proof fn lemma_blank_together(a: Seq<char>, b: Seq<char>)
    requires
        a.to_multiset() == b.to_multiset(),
        is_blank(a),
    ensures
        is_blank(b),
{
    a.to_multiset_ensures();
    b.to_multiset_ensures();
    assert forall|i: int| 0 <= i < b.len() implies is_white(#[trigger] b[i]) by {
        assert(b.contains(b[i]));
        assert(b.to_multiset().count(b[i]) > 0);
        assert(a.contains(b[i]));
    }
}

/// Whether a character belongs to the scripts that take more tokens.
pub fn is_cjk(c: char) -> (r: bool)
    ensures
        r == wide(c),
{
    ('\u{3000}' <= c && c <= '\u{303f}') || ('\u{3040}' <= c && c <= '\u{30ff}') || ('\u{3400}'
        <= c && c <= '\u{4dbf}') || ('\u{4e00}' <= c && c <= '\u{9fff}') || ('\u{ac00}' <= c && c
        <= '\u{d7af}') || ('\u{f900}' <= c && c <= '\u{faff}') || ('\u{ff00}' <= c && c
        <= '\u{ffef}') || ('\u{20000}' <= c && c <= '\u{2fa1f}')
}

/// Estimates a text by the kinds of its characters.
pub fn estimate_text_tokens(text: &str) -> (r: u64)
    ensures
        r == text_tokens(text@),
{
    if blank(text) {
        return 0;
    }
    let n: usize = text.unicode_len();
    let mut cjk: u64 = 0;
    let mut other: u64 = 0;
    for c in it: text.chars()
        invariant
            it.seq() == text@,
            n == text@.len(),
            cjk + other == it.index(),
            cjk == wide_count(text@.take(it.index() as int)),
    {
        assert(text@.take(it.index() + 1).drop_last() =~= text@.take(it.index() as int));
        if is_cjk(c) {
            cjk = cjk + 1;
        } else {
            other = other + 1;
        }
    }
    assert(text@.take(n as int) =~= text@);
    let x: Double = Double::from_u64(cjk).div(Double { m: 0x18_0000_0000_0000, e: -52 });
    let y: Double = Double::from_u64(other).div(Double { m: 0x1e_6666_6666_6666, e: -51 });
    x.add(y).ceil()
}

fn optional_estimate(o: &Option<String>) -> (r: u64)
    ensures
        r == optional_tokens(crate::model::view_opt(*o)),
{
    match o {
        Some(s) => estimate_text_tokens(s.as_str()),
        None => 0,
    }
}

fn calls_estimate(calls: &Vec<ToolCall>) -> (r: u64)
    ensures
        r == capped(calls_tokens(views(calls@))),
{
    let mut tokens: u64 = 0;
    let mut i: usize = 0;
    while i < calls.len()
        invariant
            i <= calls@.len(),
            tokens == capped(calls_tokens(views(calls@).take(i as int))),
        decreases calls@.len() - i,
    {
        let call: &ToolCall = &calls[i];
        proof {
            let v = views(calls@);
            assert(v.take(i + 1).drop_last() =~= v.take(i as int));
            assert(v.take(i + 1).last() == call@);
        }
        tokens = tokens.saturating_add(optional_estimate(&call.id)).saturating_add(
            estimate_text_tokens(call.function.name.as_str()),
        ).saturating_add(estimate_text_tokens(call.function.arguments.as_str()));
        i = i + 1;
    }
    assert(views(calls@).take(i as int) =~= views(calls@));
    tokens
}

/// Estimates a message: its texts, its tool calls and a fixed overhead.
pub fn estimate_message_tokens(message: &Message) -> (r: u64)
    ensures
        r == capped(message_tokens(message@)),
{
    let calls: u64 = match &message.tool_calls {
        Some(calls) => calls_estimate(calls),
        None => 0,
    };
    MESSAGE_OVERHEAD_TOKENS.saturating_add(optional_estimate(&message.content)).saturating_add(
        optional_estimate(&message.reasoning_content),
    ).saturating_add(optional_estimate(&message.tool_call_id)).saturating_add(calls)
}

/// Estimates messages.
pub fn estimate_messages_tokens(messages: &[Message]) -> (r: u64)
    ensures
        r == capped(messages_tokens(views(messages@))),
{
    let mut tokens: u64 = 0;
    let mut i: usize = 0;
    while i < messages.len()
        invariant
            i <= messages@.len(),
            tokens == capped(messages_tokens(views(messages@).take(i as int))),
        decreases messages@.len() - i,
    {
        proof {
            let v = views(messages@);
            assert(v.take(i + 1).drop_last() =~= v.take(i as int));
            assert(v.take(i + 1).last() == messages@[i as int]@);
        }
        tokens = tokens.saturating_add(estimate_message_tokens(&messages[i]));
        i = i + 1;
    }
    assert(views(messages@).take(i as int) =~= views(messages@));
    tokens
}

/// Estimates messages together with the texts of tool descriptions.
pub fn estimate_with_tool_texts(messages: &[Message], texts: &[String]) -> (r: u64)
    ensures
        r == capped(messages_tokens(views(messages@)) + texts_tokens(views(texts@))),
{
    let mut tokens: u64 = 0;
    let mut i: usize = 0;
    while i < texts.len()
        invariant
            i <= texts@.len(),
            tokens == capped(texts_tokens(views(texts@).take(i as int))),
        decreases texts@.len() - i,
    {
        proof {
            let v = views(texts@);
            assert(v.take(i + 1).drop_last() =~= v.take(i as int));
            assert(v.take(i + 1).last() == texts@[i as int]@);
        }
        tokens = tokens.saturating_add(estimate_text_tokens(texts[i].as_str()));
        i = i + 1;
    }
    assert(views(texts@).take(i as int) =~= views(texts@));
    estimate_messages_tokens(messages).saturating_add(tokens)
}

/// Estimates a request: its messages and the texts of its tool descriptions.
pub fn estimate_request_tokens(request: &ChatRequest) -> (r: u64)
    ensures
        r == request_tokens(request@),
{
    let mut texts: Vec<String> = Vec::new();
    assert(views(texts@) =~= tool_texts(Seq::empty()));
    match &request.tools {
        Some(tools) => {
            let mut i: usize = 0;
            let ghost v = views(tools@);
            assert(views(texts@) =~= tool_texts(v).take(0));
            while i < tools.len()
                invariant
                    i <= tools@.len(),
                    v == views(tools@),
                    views(texts@) == tool_texts(v).take(i as int),
                decreases tools@.len() - i,
            {
                let text: String = tools[i].print();
                let ghost before = texts@;
                texts.push(text);
                proof {
                    lemma_views_push(before, text);
                    assert(v[i as int] == tools@[i as int]@);
                    assert(tool_texts(v).take(i + 1) =~= tool_texts(v).take(i as int).push(text@));
                }
                i = i + 1;
            }
            assert(tool_texts(v).take(i as int) =~= tool_texts(v));
        },
        None => {},
    }
    estimate_with_tool_texts(request.messages.as_slice(), texts.as_slice())
}

/// A calibration factor between one half and two, or one where it is no number.
pub fn normalize_factor(factor: Real) -> (r: Double)
    ensures
        r@ == normalized(factor),
        r.wf(),
        in_bounds(r@),
        r.m != 0,
{
    factor.clamp(
        Double { m: HIDDEN, e: -53 },
        Double { m: HIDDEN, e: -51 },
        Double { m: HIDDEN, e: -52 },
    )
}

/// Whether a factor lies between one half and two.
pub open spec fn in_bounds(f: Fl) -> bool {
    fl_le(half(), f) && fl_le(f, two())
}

fn scale_by(estimated: u64, factor: Double) -> (r: u64)
    requires
        factor.wf(),
        in_bounds(factor@),
    ensures
        r == scaled(estimated as nat, factor@),
{
    Double::from_u64(estimated).mul(factor).ceil()
}

/// Applies a calibration factor to an estimate.
pub fn estimate_with_factor(estimated: u64, factor: Real) -> (r: u64)
    ensures
        r == scaled(estimated as nat, normalized(factor)),
{
    scale_by(estimated, normalize_factor(factor))
}

/// The fingerprint of bytes: the default hash of the standard library.
pub open spec fn fingerprint(bytes: Seq<u8>) -> u64 {
    DefaultHasher::spec_finish(seq![little_endian(bytes.len(), 8), bytes])
}

/// The fingerprint of bytes.
pub fn fingerprint_of(bytes: &[u8]) -> (r: u64)
    ensures
        r == fingerprint(bytes@),
{
    let mut hasher: DefaultHasher = DefaultHasher::new();
    let mut prefix: Vec<u8> = Vec::new();
    push_little_endian(&mut prefix, bytes.len() as u64, 8);
    assert(prefix@ =~= little_endian(bytes@.len(), 8));
    hasher.write(prefix.as_slice());
    hasher.write(bytes);
    assert(hasher@ =~= seq![little_endian(bytes@.len(), 8), bytes@]);
    hasher.finish()
}

/// Tool descriptions as one JSON value.
pub open spec fn tools_value(tools: Option<Seq<JsonView>>) -> JsonView {
    match tools {
        Some(t) => JsonView::Array(t),
        None => JsonView::Null,
    }
}

/// The fingerprint of tool descriptions: that of their JSON text.
pub open spec fn tools_print(tools: Option<Seq<JsonView>>) -> u64 {
    fingerprint(encode_utf8(json_text(tools_value(tools))))
}

/// The fingerprint of the tool descriptions of a request.
pub fn tools_fingerprint(request: &ChatRequest) -> (r: u64)
    ensures
        r == tools_print(request@.tools),
{
    let value: Json = match &request.tools {
        Some(tools) => {
            let copy: Vec<Json> = duplicate_all(tools);
            proof {
                lemma_trees(copy@);
            }
            Json::Array(copy)
        },
        None => Json::Null,
    };
    let text: String = value.print();
    fingerprint_of(text.as_str().as_bytes())
}

/// The fingerprint of a whole request, given as its serialized bytes.
pub fn request_fingerprint(serialized: &[u8]) -> (r: u64)
    ensures
        r == fingerprint(serialized@),
{
    fingerprint_of(serialized)
}

/// The count that the service reported for an earlier request, from which later estimates start.
///
/// It serves as long as the conversation grows from the same point with the same model and tools.
#[derive(Debug)]
pub struct RequestBaseline {
    pub prompt_tokens: u64,
    pub base_estimate: u64,
    pub message_count: usize,
    pub head_node_id: u64,
    pub tools_fingerprint: u64,
    pub model: String,
}

/// What a baseline says.
#[verifier::ext_equal]
pub struct BaselineView {
    pub prompt_tokens: nat,
    pub base_estimate: nat,
    pub message_count: nat,
    pub head_node_id: u64,
    pub tools_fingerprint: u64,
    pub model: Seq<char>,
}

impl View for RequestBaseline {
    type V = BaselineView;

    open spec fn view(&self) -> BaselineView {
        BaselineView {
            prompt_tokens: self.prompt_tokens as nat,
            base_estimate: self.base_estimate as nat,
            message_count: self.message_count as nat,
            head_node_id: self.head_node_id,
            tools_fingerprint: self.tools_fingerprint,
            model: self.model@,
        }
    }
}

impl Clone for RequestBaseline {
    fn clone(&self) -> (r: Self)
        ensures
            r@ == self@,
    {
        RequestBaseline {
            prompt_tokens: self.prompt_tokens,
            base_estimate: self.base_estimate,
            message_count: self.message_count,
            head_node_id: self.head_node_id,
            tools_fingerprint: self.tools_fingerprint,
            model: self.model.clone(),
        }
    }
}

/// Whether a reported count agrees with the estimate closely enough: neither less than half of it
/// nor more than twice.
pub open spec fn plausible(prompt_tokens: int, estimate: nat) -> bool {
    prompt_tokens > 0 && estimate > 0 && in_bounds(
        fl_div(fl_nat(prompt_tokens as nat), fl_nat(estimate)),
    )
}

impl BaselineView {
    /// The baseline of a request for which a count was reported.
    pub open spec fn of(prompt_tokens: int, r: RequestView, head_node_id: u64) -> Option<
        BaselineView,
    > {
        if plausible(prompt_tokens, request_tokens(r)) {
            Some(
                BaselineView {
                    prompt_tokens: prompt_tokens as nat,
                    base_estimate: request_tokens(r),
                    message_count: r.messages.len(),
                    head_node_id,
                    tools_fingerprint: tools_print(r.tools),
                    model: r.model,
                },
            )
        } else {
            None
        }
    }

    /// Whether a request grew from the one of the baseline.
    pub open spec fn extended_by(
        self,
        r: RequestView,
        current_head: Option<u64>,
        head_path: Seq<u64>,
    ) -> bool {
        &&& r.messages.len() > self.message_count
        &&& current_head is Some && current_head->0 != self.head_node_id
        &&& head_path.contains(self.head_node_id)
        &&& r.model == self.model
        &&& tools_print(r.tools) == self.tools_fingerprint
    }

    /// The reported count, corrected by the estimated difference of the two requests.
    pub open spec fn tokens(self, r: RequestView, factor: Fl) -> nat {
        let current = request_tokens(r);
        if current >= self.base_estimate {
            capped(self.prompt_tokens + scaled((current - self.base_estimate) as nat, factor))
        } else {
            let less = scaled((self.base_estimate - current) as nat, factor);
            if self.prompt_tokens >= less {
                (self.prompt_tokens - less) as nat
            } else {
                0
            }
        }
    }
}

impl RequestBaseline {
    /// The baseline of a request for which the service reported a count, unless the count departs
    /// too far from the estimate to be believed.
    pub fn new(prompt_tokens: i64, request: &ChatRequest, head_node_id: u64) -> (r: Option<
        RequestBaseline,
    >)
        ensures
            match r {
                Some(b) => BaselineView::of(prompt_tokens as int, request@, head_node_id) == Some(
                    b@,
                ),
                None => BaselineView::of(prompt_tokens as int, request@, head_node_id) is None,
            },
    {
        if prompt_tokens <= 0 {
            return None;
        }
        let base_estimate: u64 = estimate_request_tokens(request);
        if base_estimate == 0 {
            return None;
        }
        let ratio: Double = Double::from_u64(prompt_tokens as u64).div(
            Double::from_u64(base_estimate),
        );
        let low: Double = Double { m: HIDDEN, e: -53 };
        let high: Double = Double { m: HIDDEN, e: -51 };
        if !low.le(ratio) || !ratio.le(high) {
            return None;
        }
        Some(
            RequestBaseline {
                prompt_tokens: prompt_tokens as u64,
                base_estimate,
                message_count: request.messages.len(),
                head_node_id,
                tools_fingerprint: tools_fingerprint(request),
                model: request.model.clone(),
            },
        )
    }

    /// Whether a request grew from the one of the baseline.
    pub fn extends_request(
        &self,
        request: &ChatRequest,
        current_head: Option<u64>,
        head_path: &[u64],
    ) -> (r: bool)
        ensures
            r == self@.extended_by(request@, current_head, head_path@),
    {
        let moved: bool = match current_head {
            Some(head) => head != self.head_node_id,
            None => false,
        };
        if request.messages.len() <= self.message_count || !moved {
            return false;
        }
        let mut i: usize = 0;
        let mut found: bool = false;
        while i < head_path.len()
            invariant
                i <= head_path@.len(),
                found == head_path@.take(i as int).contains(self.head_node_id),
            decreases head_path@.len() - i,
        {
            proof {
                let id = self.head_node_id;
                let seen = head_path@.take(i as int);
                let more = head_path@.take(i + 1);
                assert(more =~= seen.push(head_path@[i as int]));
                if seen.contains(id) {
                    let k = choose|k: int| 0 <= k < seen.len() && seen[k] == id;
                    assert(more[k] == id);
                }
                if head_path@[i as int] == id {
                    assert(more[i as int] == id);
                }
            }
            if head_path[i] == self.head_node_id {
                found = true;
            }
            i = i + 1;
        }
        assert(head_path@.take(i as int) =~= head_path@);
        found && same_text(request.model.as_str(), self.model.as_str()) && tools_fingerprint(
            request,
        ) == self.tools_fingerprint
    }

    /// Estimates a request from the reported count.
    pub fn estimate(&self, request: &ChatRequest, calibration_factor: Real) -> (r: u64)
        ensures
            r == self@.tokens(request@, normalized(calibration_factor)),
    {
        let current: u64 = estimate_request_tokens(request);
        if current >= self.base_estimate {
            self.prompt_tokens.saturating_add(
                estimate_with_factor(current - self.base_estimate, calibration_factor),
            )
        } else {
            self.prompt_tokens.saturating_sub(
                estimate_with_factor(self.base_estimate - current, calibration_factor),
            )
        }
    }
}

/// Calibrates estimates within one session by the counts that the service reports.
#[derive(Debug)]
pub struct TokenCalibrator {
    factor: Double,
}

/// The factor after a report, which counts for a fifth.
pub open spec fn observed_factor(factor: Fl, prompt_tokens: nat, base_estimate: nat) -> Fl {
    let seen = fl_clamp(fl_div(fl_nat(prompt_tokens), fl_nat(base_estimate)), half(), two());
    fl_clamp(fl_add(fl_mul(old_weight(), factor), fl_mul(new_weight(), seen)), half(), two())
}

impl TokenCalibrator {
    /// The current factor.
    pub closed spec fn value(self) -> Fl {
        self.factor@
    }

    #[verifier::type_invariant]
    closed spec fn valid(self) -> bool {
        self.factor.wf() && self.factor.m != 0 && in_bounds(self.factor@)
    }

    /// Starts from a given factor, or from one.
    pub fn new(factor: Option<Real>) -> (r: TokenCalibrator)
        ensures
            r.value() == match factor {
                Some(f) => normalized(f),
                None => one(),
            },
    {
        let factor: Double = match factor {
            Some(f) => normalize_factor(f),
            None => Double { m: HIDDEN, e: -52 },
        };
        TokenCalibrator { factor }
    }

    /// The current factor, which lies between one half and two.
    pub fn factor(&self) -> (r: Real)
        ensures
            r.finite(),
            !r.negative(),
            r.magnitude() == self.value(),
            in_bounds(self.value()),
            normalized(r) == self.value(),
    {
        proof {
            use_type_invariant(self);
        }
        self.factor.to_real()
    }

    /// Applies the current factor to an estimate.
    pub fn estimate(&self, base_estimate: u64) -> (r: u64)
        ensures
            r == scaled(base_estimate as nat, self.value()),
    {
        proof {
            use_type_invariant(self);
        }
        scale_by(base_estimate, self.factor)
    }

    /// Takes in a report of the service; one that says nothing changes nothing.
    pub fn observe(&mut self, prompt_tokens: i64, base_estimate: u64) -> (r: Option<Real>)
        ensures
            prompt_tokens <= 0 || base_estimate == 0 ==> r is None && *final(self) == *old(self),
            prompt_tokens > 0 && base_estimate > 0 ==> {
                &&& final(self).value() == observed_factor(
                    old(self).value(),
                    prompt_tokens as nat,
                    base_estimate as nat,
                )
                &&& r is Some
                &&& r->0.finite() && !r->0.negative()
                &&& r->0.magnitude() == final(self).value()
            },
    {
        if prompt_tokens <= 0 || base_estimate == 0 {
            return None;
        }
        proof {
            use_type_invariant(&*self);
        }
        let low: Double = Double { m: HIDDEN, e: -53 };
        let high: Double = Double { m: HIDDEN, e: -51 };
        let observed: Double = Double::from_u64(prompt_tokens as u64).div(
            Double::from_u64(base_estimate),
        ).clamp(low, high);
        let old_part: Double = Double { m: 0x19_9999_9999_999a, e: -53 }.mul(self.factor);
        let new_part: Double = Double { m: 0x19_9999_9999_9998, e: -55 }.mul(observed);
        let factor: Double = old_part.add(new_part).clamp(low, high);
        self.factor = factor;
        Some(factor.to_real())
    }
}

impl Default for TokenCalibrator {
    fn default() -> (r: Self)
        ensures
            r.value() == one(),
    {
        TokenCalibrator::new(None)
    }
}

/// A message takes four tokens besides its texts, and every text that it holds counts in full: its
/// content, its thoughts and the identifier of the call that it answers. Its role does not count.
pub proof fn lemma_message_counts_its_texts(m: MessageView, role: Seq<char>, s: Seq<char>)
    ensures
        m.content is None && m.reasoning_content is None && m.tool_call_id is None
            && m.tool_calls is None ==> message_tokens(m) == 4,
        message_tokens(MessageView { content: Some(s), ..m }) == message_tokens(
            MessageView { content: None, ..m },
        ) + text_tokens(s),
        message_tokens(MessageView { reasoning_content: Some(s), ..m }) == message_tokens(
            MessageView { reasoning_content: None, ..m },
        ) + text_tokens(s),
        message_tokens(MessageView { tool_call_id: Some(s), ..m }) == message_tokens(
            MessageView { tool_call_id: None, ..m },
        ) + text_tokens(s),
        message_tokens(MessageView { role, ..m }) == message_tokens(m),
{
}

/// Every tool call of a message counts in full: its name, its arguments, and its identifier where it
/// has one. Its number and its type do not count.
pub proof fn lemma_message_counts_its_calls(
    m: MessageView,
    calls: Seq<ToolCallView>,
    c: ToolCallView,
)
    ensures
        message_tokens(MessageView { tool_calls: Some(Seq::empty()), ..m }) == message_tokens(
            MessageView { tool_calls: None, ..m },
        ),
        c.id is None ==> message_tokens(
            MessageView { tool_calls: Some(calls.push(c)), ..m },
        ) == message_tokens(MessageView { tool_calls: Some(calls), ..m }) + text_tokens(c.name)
            + text_tokens(c.arguments),
        c.id is Some ==> message_tokens(
            MessageView { tool_calls: Some(calls.push(c)), ..m },
        ) == message_tokens(MessageView { tool_calls: Some(calls), ..m }) + text_tokens(c.id->0)
            + text_tokens(c.name) + text_tokens(c.arguments),
{
    assert(calls.push(c).drop_last() =~= calls);
}

proof fn lemma_calls_replaced(calls: Seq<ToolCallView>, k: int, c: ToolCallView)
    requires
        0 <= k < calls.len(),
    ensures
        calls_tokens(calls.update(k, c)) + optional_tokens(calls[k].id) + text_tokens(calls[k].name)
            + text_tokens(calls[k].arguments) == calls_tokens(calls) + optional_tokens(c.id)
            + text_tokens(c.name) + text_tokens(c.arguments),
        calls_tokens(calls) >= optional_tokens(calls[k].id) + text_tokens(calls[k].name)
            + text_tokens(calls[k].arguments),
    decreases calls.len(),
{
    let u = calls.update(k, c);
    if k == calls.len() - 1 {
        assert(u.drop_last() =~= calls.drop_last());
    } else {
        assert(u.drop_last() =~= calls.drop_last().update(k, c));
        assert(u.last() == calls.last());
        lemma_calls_replaced(calls.drop_last(), k, c);
    }
}

/// The estimate of a message is at least that of any text in it; and other arguments in one of its
/// calls change it by the difference of the estimates of the two texts.
pub proof fn lemma_message_covers_its_texts(m: MessageView, k: int, arguments: Seq<char>)
    ensures
        m.content is Some ==> message_tokens(m) >= text_tokens(m.content->0),
        m.reasoning_content is Some ==> message_tokens(m) >= text_tokens(m.reasoning_content->0),
        m.tool_call_id is Some ==> message_tokens(m) >= text_tokens(m.tool_call_id->0),
        m.tool_calls is Some && 0 <= k < m.tool_calls->0.len() ==> {
            let calls = m.tool_calls->0;
            let other = MessageView {
                tool_calls: Some(calls.update(k, ToolCallView { arguments, ..calls[k] })),
                ..m
            };
            &&& message_tokens(m) >= text_tokens(calls[k].arguments)
            &&& message_tokens(m) >= text_tokens(calls[k].name)
            &&& calls[k].id is Some ==> message_tokens(m) >= text_tokens(calls[k].id->0)
            &&& message_tokens(other) - message_tokens(m) == text_tokens(arguments) - text_tokens(
                calls[k].arguments,
            )
        },
{
    if m.tool_calls is Some && 0 <= k < m.tool_calls->0.len() {
        let calls = m.tool_calls->0;
        lemma_calls_replaced(calls, k, ToolCallView { arguments, ..calls[k] });
    }
}

/// Messages take together what each of them takes.
pub proof fn lemma_messages_add_up(a: Seq<MessageView>, b: Seq<MessageView>, m: MessageView)
    ensures
        messages_tokens(Seq::empty()) == 0,
        messages_tokens(seq![m]) == message_tokens(m),
        messages_tokens(a + b) == messages_tokens(a) + messages_tokens(b),
    decreases b.len(),
{
    assert(seq![m].drop_last() =~= Seq::<MessageView>::empty());
    if b.len() == 0 {
        assert(a + b =~= a);
    } else {
        lemma_messages_add_up(a, b.drop_last(), m);
        assert((a + b).drop_last() =~= a + b.drop_last());
        assert((a + b).last() == b.last());
    }
}

/// A request takes what its messages and its tool descriptions take, up to the greatest number that
/// can be told: each description counts as its JSON text, and nothing else of the request counts.
pub proof fn lemma_request_counts_messages_and_tools(
    r: RequestView,
    other: RequestView,
    tools: Seq<JsonView>,
    tool: JsonView,
)
    ensures
        r.tools is None || r.tools == Some(Seq::<JsonView>::empty()) ==> request_tokens(r) == if (
        messages_tokens(r.messages) <= u64::MAX) {
            messages_tokens(r.messages)
        } else {
            u64::MAX as nat
        },
        ({
            let without = request_tokens(RequestView { tools: Some(tools), ..r });
            let with = request_tokens(RequestView { tools: Some(tools.push(tool)), ..r });
            let cost = text_tokens(json_text(tool));
            with == if without + cost <= u64::MAX {
                without + cost
            } else {
                u64::MAX as nat
            }
        }),
        r.messages == other.messages && r.tools == other.tools ==> request_tokens(r)
            == request_tokens(other),
{
    let e = Seq::<JsonView>::empty();
    assert(tool_texts(e) =~= Seq::<Seq<char>>::empty());
    let more = tool_texts(tools.push(tool));
    assert(more.drop_last() =~= tool_texts(tools));
    assert(more.last() == json_text(tool));
}

/// The scripts of East Asia take more tokens than others: Chinese characters, Japanese syllables,
/// Korean syllables, and the marks and wide forms that go with them.
pub proof fn lemma_scripts(c: char)
    ensures
        wide(c) <==> (0x3000 <= c as u32 <= 0x30ff || 0x3400 <= c as u32 <= 0x4dbf || 0x4e00 <= c
            as u32 <= 0x9fff || 0xac00 <= c as u32 <= 0xd7af || 0xf900 <= c as u32 <= 0xfaff
            || 0xff00 <= c as u32 <= 0xffef || 0x20000 <= c as u32 <= 0x2fa1f),
{
}

proof fn lemma_nothing_scaled(factor: Fl)
    ensures
        scaled(0, factor) == 0,
{
    lemma_nat_order(0, 0);
    assert(fl_nat(0).m == 0);
    assert(fl_nat(0).m * factor.m == 0) by (nonlinear_arith)
        requires
            fl_nat(0).m == 0,
    ;
    let z = fl_mul(fl_nat(0), factor);
    assert(z == (Fl { m: 0, e: 0 }));
    vstd::arithmetic::power2::lemma2_to64();
    assert(fl_ceil(z) == 0);
}

/// A factor keeps the order of estimates: nothing stays nothing, something stays something, and more
/// never becomes less.
pub proof fn lemma_factor_keeps_order(a: nat, b: nat, factor: Fl)
    requires
        a <= b,
        factor.m > 0,
    ensures
        scaled(a, factor) <= scaled(b, factor),
        scaled(a, factor) == 0 <==> a == 0,
{
    lemma_nat_order(a, b);
    lemma_nat_order(b, b);
    lemma_product_order(fl_nat(a), fl_nat(b), factor);
    lemma_product_order(fl_nat(b), fl_nat(b), factor);
    lemma_ceil_order(fl_mul(fl_nat(a), factor), fl_mul(fl_nat(b), factor));
}

/// A count that the service reported for a request is believed between half and twice the estimate
/// and stands for that request whatever the factor: the estimate from it is the count itself.
pub proof fn lemma_baseline_stands_for_its_request(
    prompt_tokens: int,
    r: RequestView,
    head_node_id: u64,
    factor: Fl,
)
    requires
        prompt_tokens <= u64::MAX,
        BaselineView::of(prompt_tokens, r, head_node_id) is Some,
    ensures
        prompt_tokens > 0,
        BaselineView::of(prompt_tokens, r, head_node_id)->0.tokens(r, factor) == prompt_tokens,
        BaselineView::of(prompt_tokens, r, head_node_id)->0.head_node_id == head_node_id,
{
    lemma_nothing_scaled(factor);
}

/// A request that grew from one with a reported count is estimated at least at that count; and the
/// estimate grows with the request.
pub proof fn lemma_baseline_grows(b: BaselineView, r: RequestView, more: RequestView, factor: Fl)
    requires
        b.prompt_tokens <= u64::MAX,
        factor.m > 0,
        request_tokens(r) <= request_tokens(more),
    ensures
        b.tokens(r, factor) <= b.tokens(more, factor),
        request_tokens(r) == b.base_estimate ==> b.tokens(r, factor) == b.prompt_tokens,
        request_tokens(r) > b.base_estimate && b.prompt_tokens < u64::MAX ==> b.tokens(r, factor)
            > b.prompt_tokens,
        request_tokens(r) < b.base_estimate && b.prompt_tokens > 0 ==> b.tokens(r, factor)
            < b.prompt_tokens,
{
    let (x, y) = (request_tokens(r), request_tokens(more));
    let base = b.base_estimate;
    lemma_nothing_scaled(factor);
    if x >= base {
        lemma_factor_keeps_order((x - base) as nat, (y - base) as nat, factor);
    } else {
        lemma_factor_keeps_order((base - x) as nat, (base - x) as nat, factor);
        if y < base {
            lemma_factor_keeps_order((base - y) as nat, (base - x) as nat, factor);
        }
    }
}

/// A reported count serves exactly as long as the conversation goes on from where it was reported:
/// there are more messages, the head has moved on, it still stands behind the old one, and neither
/// the model nor the tools are others.
pub proof fn lemma_when_a_baseline_serves(
    prompt_tokens: int,
    r: RequestView,
    head_node_id: u64,
    more: RequestView,
    current_head: Option<u64>,
    head_path: Seq<u64>,
)
    requires
        BaselineView::of(prompt_tokens, r, head_node_id) is Some,
    ensures
        ({
            let b = BaselineView::of(prompt_tokens, r, head_node_id)->0;
            let serves = b.extended_by(more, current_head, head_path);
            &&& more.messages.len() > r.messages.len() && current_head is Some && current_head->0
                != head_node_id && head_path.contains(head_node_id) && more.model == r.model
                && more.tools == r.tools ==> serves
            &&& serves ==> more.messages.len() > r.messages.len() && current_head is Some
                && current_head->0 != head_node_id && head_path.contains(head_node_id)
                && more.model == r.model
            &&& serves ==> fingerprint(encode_utf8(json_text(tools_value(more.tools))))
                == fingerprint(encode_utf8(json_text(tools_value(r.tools))))
        }),
{
}

/// A factor that was calibrated lies between one half and two, and a report of more tokens never
/// gives a smaller factor.
pub proof fn lemma_calibration_follows_reports(
    factor: Fl,
    other: Fl,
    fewer: nat,
    more: nat,
    base_estimate: nat,
)
    requires
        normal(factor),
        normal(other),
        factor.m > 0,
        fl_le(factor, other),
        0 < fewer <= more,
        base_estimate > 0,
    ensures
        fl_le(half(), observed_factor(factor, fewer, base_estimate)),
        fl_le(observed_factor(factor, fewer, base_estimate), two()),
        fl_le(
            observed_factor(factor, fewer, base_estimate),
            observed_factor(factor, more, base_estimate),
        ),
        fl_le(
            observed_factor(factor, fewer, base_estimate),
            observed_factor(other, fewer, base_estimate),
        ),
{
    let d = fl_nat(base_estimate);
    lemma_nat_order(base_estimate, base_estimate);
    lemma_nat_order(fewer, more);
    lemma_quotient_order(fl_nat(fewer), fl_nat(more), d);
    lemma_quotient_order(fl_nat(more), fl_nat(more), d);
    let s1 = fl_clamp(fl_div(fl_nat(fewer), d), half(), two());
    let s2 = fl_clamp(fl_div(fl_nat(more), d), half(), two());
    assert(fl_le(s1, s2) && normal(s1) && normal(s2));
    lemma_product_order(s1, s2, new_weight());
    lemma_product_order(s2, s2, new_weight());
    lemma_product_order(factor, other, old_weight());
    lemma_product_order(factor, factor, old_weight());
    lemma_product_order(other, other, old_weight());
    lemma_commuted(factor, old_weight());
    lemma_commuted(other, old_weight());
    lemma_commuted(s1, new_weight());
    lemma_commuted(s2, new_weight());
    let (f, g) = (fl_mul(factor, old_weight()), fl_mul(other, old_weight()));
    let (x1, x2) = (fl_mul(s1, new_weight()), fl_mul(s2, new_weight()));
    lemma_sum_order(f, x1, f, x2);
    lemma_sum_order(f, x1, g, x1);
}

proof fn lemma_commuted(a: Fl, b: Fl)
    ensures
        fl_mul(a, b) == fl_mul(b, a),
{
    let (x, y) = (a.m, b.m);
    assert(x * y == y * x) by (nonlinear_arith);
}

/// The factor one leaves an estimate as it is.
pub proof fn lemma_factor_one(n: nat)
    requires
        n < 0x20_0000_0000_0000,
    ensures
        scaled(n, one()) == n,
{
    lemma_nat_order(n, n);
    lemma_times_one(fl_nat(n));
    lemma_integers_are_exact(n);
}

/// A count that a service reports is believed where it is between half of the estimate and twice the
/// estimate, and not where it is a quarter of it or less, or four times it or more.
pub proof fn lemma_when_a_count_is_believed(prompt_tokens: nat, r: RequestView, head_node_id: u64)
    requires
        prompt_tokens > 0,
        request_tokens(r) > 0,
    ensures
        prompt_tokens <= 2 * request_tokens(r) && request_tokens(r) <= 2 * prompt_tokens
            ==> BaselineView::of(prompt_tokens as int, r, head_node_id) is Some,
        prompt_tokens >= 4 * request_tokens(r) || request_tokens(r) >= 4 * prompt_tokens
            ==> BaselineView::of(prompt_tokens as int, r, head_node_id) is None,
        BaselineView::of(0, r, head_node_id) is None,
{
    let n = prompt_tokens;
    let estimate = request_tokens(r);
    let p = fl_nat(n);
    let e = fl_nat(estimate);
    lemma_nat_order(n, n);
    lemma_nat_order(estimate, estimate);
    lemma_integer_doubled(n);
    lemma_integer_doubled(2 * n);
    lemma_integer_doubled(estimate);
    lemma_integer_doubled(2 * estimate);
    lemma_quotient_of_equals(e, e, 0);
    lemma_quotient_of_equals(e, e, 1);
    lemma_quotient_of_equals(e, e, 2);
    lemma_quotient_of_equals(p, e, 1);
    lemma_quotient_of_equals(p, e, 2);
    lemma_quotient_order(p, p, e);
    let double = fl_nat(2 * n);
    let fourfold = fl_nat(2 * (2 * n));
    assert(double == (Fl { m: p.m, e: p.e + 1 }));
    assert(fourfold == (Fl { m: p.m, e: p.e + 2 }));
    assert(fl_nat(2 * estimate) == (Fl { m: e.m, e: e.e + 1 }));
    assert(fl_nat(2 * (2 * estimate)) == (Fl { m: e.m, e: e.e + 2 }));
    assert(Fl { m: e.m, e: e.e + 0 } == e);
    if n <= 2 * estimate {
        lemma_nat_order(n, 2 * estimate);
        lemma_quotient_order(p, fl_nat(2 * estimate), e);
    }
    if estimate <= 2 * n {
        lemma_nat_order(estimate, 2 * n);
        lemma_quotient_order(e, double, e);
    }
    if n >= 4 * estimate {
        lemma_nat_order(2 * (2 * estimate), n);
        lemma_quotient_order(fl_nat(2 * (2 * estimate)), p, e);
    }
    if estimate >= 4 * n {
        lemma_nat_order(2 * (2 * n), estimate);
        lemma_quotient_order(fourfold, e, e);
    }
}

/// Three characters of the scripts that take more tokens take two.
pub proof fn lemma_rate_of_wide_texts(s: Seq<char>, k: nat)
    requires
        wide_count(s) == s.len(),
        s.len() == 3 * k,
        3 * k < 0x20_0000_0000_0000,
    ensures
        !is_blank(s) ==> text_tokens(s) == 2 * k,
{
    if k > 0 {
        lemma_three_halves(k);
        assert(fl_nat(0) == (Fl { m: 0, e: 0 }));
    } else {
        assert(is_blank(s));
    }
}

} // verus!
