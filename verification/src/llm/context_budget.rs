//! The budget of a request: what of the context window it may use, what it uses, and which of its
//! texts could be shortened.

use crate::arrange::Ranked;
use crate::double::{fl_floor, fl_le, fl_mul, fl_nat, lemma_grown_bounds, Double, Fl, Real, HIDDEN};
use crate::llm::context_snapshot::USER_REQUEST_HEADING;
use crate::llm::token_estimate::{
    capped, estimate_request_tokens, estimate_with_factor, lemma_factor_keeps_order,
    lemma_factor_one, normalized, one, request_tokens, scaled, BaselineView, RequestBaseline,
};
use crate::llm::truncation::{visible, visible_text_chars, MIN_KEEP_CHARS, MIN_TRUNCATE_CHARS};
use crate::llm::types::{borrowed, ChatRequest, Message, MessageView, RequestView};
use crate::model::views;
use crate::rounding::{
    lemma_floor_order, lemma_integers_are_exact, lemma_nat_order, lemma_product_order,
    lemma_times_one, normal,
};
use crate::text::{chars_of, occurs, occurs_at, same_text, text_of};
use vstd::prelude::*;

verus! {

/// The share of the window kept for the answer, where the request does not say.
pub const DEFAULT_OUTPUT_RESERVE_PERCENT: u64 = 15;

/// The share of the window kept for errors of the estimate.
pub const SAFETY_RESERVE_PERCENT: u64 = 3;

/// The least that is kept for errors of the estimate.
pub const MIN_SAFETY_RESERVE: u64 = 1024;

/// The share kept where the estimate starts from a reported count.
pub const BASELINE_SAFETY_RESERVE_PERCENT: u64 = 1;

/// The least that is kept where the estimate starts from a reported count.
pub const MIN_BASELINE_SAFETY_RESERVE: u64 = 512;

/// How many rounds are never dropped, unless one must be.
pub const RECENT_ROUNDS_TO_KEEP: usize = 3;

/// What an estimate starts from.
#[derive(Clone, Copy, Debug, PartialEq, Eq, Structural)]
pub enum EstimateSource {
    /// A count that the service reported.
    Baseline,
    /// Nothing: the whole request is estimated.
    Full,
}

impl Default for EstimateSource {
    fn default() -> (r: Self)
        ensures
            r == EstimateSource::Full,
    {
        EstimateSource::Full
    }
}

impl EstimateSource {
    /// The name of the source.
    pub open spec fn name(self) -> Seq<char> {
        match self {
            EstimateSource::Baseline => "baseline"@,
            EstimateSource::Full => "full"@,
        }
    }

    /// The name of the source.
    pub fn as_str(self) -> (r: &'static str)
        ensures
            r@ == self.name(),
    {
        match self {
            EstimateSource::Baseline => "baseline",
            EstimateSource::Full => "full",
        }
    }
}

/// What was done to make a request fit.
#[derive(Clone, Copy, Debug, PartialEq, Eq, Structural)]
pub struct ContextTrimReport {
    pub dropped_rounds: usize,
    pub truncated_messages: usize,
    pub before: u64,
    pub after: u64,
    pub budget: u64,
    pub suggest_compaction: bool,
    pub estimate_source: EstimateSource,
}

/// How a request is made to fit.
#[derive(Clone, Copy, Debug)]
pub struct TrimOptions {
    pub budget_scale: Real,
    pub force_drop_oldest_round: bool,
}

impl TrimOptions {
    /// Uses the whole budget, and drops a round only where it must.
    pub fn normal() -> (r: TrimOptions)
        ensures
            r.budget_scale.bits == 0x3ff0_0000_0000_0000,
            !r.force_drop_oldest_round,
    {
        TrimOptions {
            budget_scale: Real { bits: 0x3ff0_0000_0000_0000 },
            force_drop_oldest_round: false,
        }
    }

    /// Uses seven tenths of the budget, and drops a round in any case: for a request that the
    /// service found too long.
    pub fn overflow_retry() -> (r: TrimOptions)
        ensures
            r.budget_scale.bits == 0x3fe6_6666_6666_6666,
            r.force_drop_oldest_round,
    {
        TrimOptions {
            budget_scale: Real { bits: 0x3fe6_6666_6666_6666 },
            force_drop_oldest_round: true,
        }
    }
}

/// What an estimate starts from, given whether there is a reported count.
pub open spec fn source_of<T>(baseline: Option<T>) -> EstimateSource {
    match baseline {
        Some(_) => EstimateSource::Baseline,
        None => EstimateSource::Full,
    }
}

/// What an estimate starts from, given whether there is a reported count.
pub fn estimate_source(baseline: Option<&RequestBaseline>) -> (r: EstimateSource)
    ensures
        r == source_of(baseline),
{
    if baseline.is_some() {
        EstimateSource::Baseline
    } else {
        EstimateSource::Full
    }
}

/// A share of a number, rounded up.
pub open spec fn share(value: nat, percent: nat) -> nat {
    capped(capped(value * percent) + 99) / 100
}

/// A share of a number, rounded up.
pub fn percent_ceil(value: u64, percent: u64) -> (r: u64)
    ensures
        r == share(value as nat, percent as nat),
{
    proof {
        let v = value as int;
        let p = percent as int;
        assert(0 <= v * p) by (nonlinear_arith)
            requires
                0 <= v,
                0 <= p,
        ;
    }
    let product: u64 = match value.checked_mul(percent) {
        Some(x) => x,
        None => u64::MAX,
    };
    product.saturating_add(99) / 100
}

/// The greater of two numbers.
pub open spec fn at_least(a: nat, b: nat) -> nat {
    if a < b {
        b
    } else {
        a
    }
}

/// A difference, or zero.
pub open spec fn less(a: nat, b: nat) -> nat {
    if a >= b {
        (a - b) as nat
    } else {
        0
    }
}

/// What is kept for the answer.
pub open spec fn output_reserve(max_tokens: Option<i64>, window: nat) -> nat {
    match max_tokens {
        Some(n) if n > 0 => n as nat,
        _ => share(window, DEFAULT_OUTPUT_RESERVE_PERCENT as nat),
    }
}

/// What is kept for errors of the estimate.
pub open spec fn safety_reserve(window: nat, source: EstimateSource) -> nat {
    match source {
        EstimateSource::Baseline => at_least(
            share(window, BASELINE_SAFETY_RESERVE_PERCENT as nat),
            MIN_BASELINE_SAFETY_RESERVE as nat,
        ),
        EstimateSource::Full => at_least(
            share(window, SAFETY_RESERVE_PERCENT as nat),
            MIN_SAFETY_RESERVE as nat,
        ),
    }
}

/// What is left of the window for the request.
pub open spec fn available(max_tokens: Option<i64>, window: nat, source: EstimateSource) -> nat {
    less(less(window, output_reserve(max_tokens, window)), safety_reserve(window, source))
}

/// What of the window may be used, given a scale between zero and one.
pub open spec fn budget_of(
    max_tokens: Option<i64>,
    window: nat,
    scale: Real,
    source: EstimateSource,
) -> nat {
    capped(
        fl_floor(
            fl_mul(
                fl_nat(available(max_tokens, window, source)),
                scale.clamped(Fl { m: 0, e: 0 }, one(), one()),
            ),
        ),
    )
}

/// How the window is divided: for the answer, for errors of the estimate, and for the request.
pub fn context_budget_breakdown(
    request: &ChatRequest,
    context_window_tokens: u64,
    estimate_source: EstimateSource,
) -> (r: (u64, u64, u64))
    ensures
        r.0 == output_reserve(request.max_tokens, context_window_tokens as nat),
        r.1 == safety_reserve(context_window_tokens as nat, estimate_source),
        r.2 == available(request.max_tokens, context_window_tokens as nat, estimate_source),
{
    let output: u64 = match request.max_tokens {
        Some(n) => if n > 0 {
            n as u64
        } else {
            percent_ceil(context_window_tokens, DEFAULT_OUTPUT_RESERVE_PERCENT)
        },
        None => percent_ceil(context_window_tokens, DEFAULT_OUTPUT_RESERVE_PERCENT),
    };
    let safety: u64 = match estimate_source {
        EstimateSource::Baseline => {
            let s: u64 = percent_ceil(context_window_tokens, BASELINE_SAFETY_RESERVE_PERCENT);
            if s < MIN_BASELINE_SAFETY_RESERVE {
                MIN_BASELINE_SAFETY_RESERVE
            } else {
                s
            }
        },
        EstimateSource::Full => {
            let s: u64 = percent_ceil(context_window_tokens, SAFETY_RESERVE_PERCENT);
            if s < MIN_SAFETY_RESERVE {
                MIN_SAFETY_RESERVE
            } else {
                s
            }
        },
    };
    let rest: u64 = context_window_tokens.saturating_sub(output).saturating_sub(safety);
    (output, safety, rest)
}

/// What of the window the request may use.
pub fn context_budget(
    request: &ChatRequest,
    context_window_tokens: u64,
    scale: Real,
    estimate_source: EstimateSource,
) -> (r: u64)
    ensures
        r == budget_of(request.max_tokens, context_window_tokens as nat, scale, estimate_source),
{
    let (_, _, rest): (u64, u64, u64) = context_budget_breakdown(
        request,
        context_window_tokens,
        estimate_source,
    );
    let zero: Double = Double { m: 0, e: 0 };
    let whole: Double = Double { m: HIDDEN, e: -52 };
    let used: Double = scale.clamp(zero, whole, whole);
    Double::from_u64(rest).mul(used).floor()
}

/// The size of a request: from a reported count where there is one, else as estimated.
pub open spec fn calibrated(r: RequestView, factor: Fl, baseline: Option<BaselineView>) -> nat {
    match baseline {
        Some(b) => b.tokens(r, factor),
        None => scaled(request_tokens(r), factor),
    }
}

/// The view of an optional baseline.
pub open spec fn baseline_view(b: Option<&RequestBaseline>) -> Option<BaselineView> {
    match b {
        Some(x) => Some(x@),
        None => None,
    }
}

/// The size of a request: from a reported count where there is one, else as estimated.
pub fn calibrated_request_tokens(
    request: &ChatRequest,
    calibration_factor: Real,
    baseline: Option<&RequestBaseline>,
) -> (r: u64)
    ensures
        r == calibrated(request@, normalized(calibration_factor), baseline_view(baseline)),
{
    match baseline {
        Some(b) => b.estimate(request, calibration_factor),
        None => estimate_with_factor(estimate_request_tokens(request), calibration_factor),
    }
}

/// A text of a message that can be shortened.
#[derive(Clone, Copy, Debug, PartialEq, Eq, Structural)]
pub enum TextField {
    Content,
    Reasoning,
}

/// A text that could be shortened: tool results have priority zero, others one.
#[derive(Clone, Copy, Debug)]
pub struct Candidate {
    pub priority: usize,
    pub chars: usize,
    pub index: usize,
    pub field: TextField,
}

impl Ranked for Candidate {
    /// Tool results first, then longer texts, then earlier messages, then contents.
    open spec fn before(self, other: Self) -> bool {
        self.priority < other.priority || (self.priority == other.priority && (self.chars
            > other.chars || (self.chars == other.chars && (self.index < other.index || (self.index
            == other.index && self.field == TextField::Content && other.field
            == TextField::Reasoning)))))
    }

    fn ranks_before(&self, other: &Self) -> (r: bool) {
        self.priority < other.priority || (self.priority == other.priority && (self.chars
            > other.chars || (self.chars == other.chars && (self.index < other.index || (self.index
            == other.index && self.field == TextField::Content && other.field
            == TextField::Reasoning)))))
    }
}

/// A text of a message.
pub open spec fn field_text(m: MessageView, field: TextField) -> Option<Seq<char>> {
    match field {
        TextField::Content => m.content,
        TextField::Reasoning => m.reasoning_content,
    }
}

/// A message with another text.
pub open spec fn with_field(m: MessageView, field: TextField, text: Seq<char>) -> MessageView {
    match field {
        TextField::Content => MessageView { content: Some(text), ..m },
        TextField::Reasoning => MessageView { reasoning_content: Some(text), ..m },
    }
}

/// How many characters at the front of a text stay as they are: material that must stay, with the
/// heading of what the user wrote where it follows; the whole text where that is locked.
pub open spec fn fixed_front(
    text: Seq<char>,
    field: TextField,
    required: Option<Seq<char>>,
    locked: bool,
) -> int {
    match required {
        Some(q) if field == TextField::Content && occurs_at(text, q, 0) => if locked {
            text.len() as int
        } else if occurs_at(
            text,
            USER_REQUEST_HEADING@,
            q.len() as int,
        ) {
            (q.len() + USER_REQUEST_HEADING@.len()) as int
        } else {
            q.len() as int
        },
        _ => 0,
    }
}

/// The part of a text that may be shortened.
pub open spec fn loose_part(
    text: Seq<char>,
    field: TextField,
    required: Option<Seq<char>>,
    locked: bool,
) -> Seq<char> {
    text.skip(fixed_front(text, field, required, locked))
}

/// Parts a text into what stays as it is and what may be shortened.
pub fn split_fixed(text: &str, field: TextField, required: Option<&str>, locked: bool) -> (r: (
    String,
    String,
))
    ensures
        r.0@ == text@.take(fixed_front(text@, field, borrowed(required), locked)),
        r.1@ == loose_part(text@, field, borrowed(required), locked),
        0 <= fixed_front(text@, field, borrowed(required), locked) <= text@.len(),
{
    let chars: Vec<char> = chars_of(text);
    let n: usize = chars.len();
    let mut front: usize = 0;
    match (field, required) {
        (TextField::Content, Some(q)) => {
            let wanted: Vec<char> = chars_of(q);
            if occurs(&chars, &wanted, 0) {
                front = wanted.len();
                let heading: Vec<char> = chars_of(USER_REQUEST_HEADING);
                if locked {
                    front = n;
                } else if occurs(&chars, &heading, front) {
                    front = front + heading.len();
                }
            }
        },
        _ => {},
    }
    proof {
        assert(text@.subrange(0, front as int) =~= text@.take(front as int));
        assert(text@.subrange(front as int, n as int) =~= text@.skip(front as int));
    }
    (text_of(&chars, 0, front), text_of(&chars, front, n))
}

/// The text as a candidate, if what may be shortened of it is long enough.
pub open spec fn text_candidate(
    m: MessageView,
    index: int,
    field: TextField,
    required: Option<Seq<char>>,
    locked: bool,
) -> Seq<Candidate> {
    match field_text(m, field) {
        Some(text) => {
            let part = loose_part(text, field, required, locked);
            if less(visible(part).len(), MIN_KEEP_CHARS as nat) >= MIN_TRUNCATE_CHARS {
                seq![
                    Candidate {
                        priority: if m.role == "tool"@ {
                            0
                        } else {
                            1
                        },
                        chars: visible(part).len() as usize,
                        index: index as usize,
                        field,
                    },
                ]
            } else {
                Seq::empty()
            }
        },
        None => Seq::empty(),
    }
}

/// The candidates among messages, in their order: neither instructions nor the protected message.
pub open spec fn candidates(
    s: Seq<MessageView>,
    protected: Option<int>,
    required: Option<Seq<char>>,
    locked: bool,
) -> Seq<Candidate>
    decreases s.len(),
{
    if s.len() == 0 {
        Seq::empty()
    } else {
        let i = s.len() - 1;
        let earlier = candidates(s.drop_last(), protected, required, locked);
        if s.last().role == "system"@ || protected == Some(i) {
            earlier
        } else {
            earlier + text_candidate(s.last(), i, TextField::Content, required, locked)
                + text_candidate(s.last(), i, TextField::Reasoning, required, locked)
        }
    }
}

fn push_candidate(
    out: &mut Vec<Candidate>,
    message: &Message,
    index: usize,
    field: TextField,
    required_user_context: Option<&str>,
    locked: bool,
)
    ensures
        final(out)@ == old(out)@ + text_candidate(
            message@,
            index as int,
            field,
            borrowed(required_user_context),
            locked,
        ),
{
    let text: &Option<String> = match field {
        TextField::Content => &message.content,
        TextField::Reasoning => &message.reasoning_content,
    };
    match text {
        Some(t) => {
            let (_, part): (String, String) = split_fixed(
                t.as_str(),
                field,
                required_user_context,
                locked,
            );
            let chars: usize = visible_text_chars(part.as_str());
            if chars.saturating_sub(MIN_KEEP_CHARS) >= MIN_TRUNCATE_CHARS {
                let priority: usize = if same_text(message.role.as_str(), "tool") {
                    0
                } else {
                    1
                };
                out.push(Candidate { priority, chars, index, field });
            }
        },
        None => {},
    }
    assert(out@ =~= old(out)@ + text_candidate(
        message@,
        index as int,
        field,
        borrowed(required_user_context),
        locked,
    ));
}

/// The places of messages as the model has them.
pub open spec fn place_opt(o: Option<usize>) -> Option<int> {
    match o {
        Some(i) => Some(i as int),
        None => None,
    }
}

/// The candidates among messages.
pub fn truncation_candidates(
    messages: &[Message],
    last_user: Option<usize>,
    required_user_context: Option<&str>,
    locked: bool,
) -> (r: Vec<Candidate>)
    ensures
        r@ == candidates(
            views(messages@),
            place_opt(last_user),
            borrowed(required_user_context),
            locked,
        ),
{
    let mut out: Vec<Candidate> = Vec::new();
    let ghost s = views(messages@);
    let ghost p = place_opt(last_user);
    let ghost q = borrowed(required_user_context);
    let mut i: usize = 0;
    assert(out@ =~= candidates(s.take(0), p, q, locked));
    while i < messages.len()
        invariant
            i <= messages@.len(),
            s == views(messages@),
            p == place_opt(last_user),
            q == borrowed(required_user_context),
            out@ == candidates(s.take(i as int), p, q, locked),
        decreases messages@.len() - i,
    {
        let message: &Message = &messages[i];
        proof {
            assert(s.take(i + 1).drop_last() =~= s.take(i as int));
            assert(s.take(i + 1).last() == message@);
        }
        let protected: bool = match last_user {
            Some(u) => u == i,
            None => false,
        };
        if !same_text(message.role.as_str(), "system") && !protected {
            push_candidate(
                &mut out,
                message,
                i,
                TextField::Content,
                required_user_context,
                locked,
            );
            push_candidate(
                &mut out,
                message,
                i,
                TextField::Reasoning,
                required_user_context,
                locked,
            );
        }
        i = i + 1;
    }
    assert(s.take(i as int) =~= s);
    out
}

/// How the window is divided. The answer gets what the request says, or 15 percent of the window,
/// rounded up. For errors of the estimate 3 percent are kept and 1024 at least, or 1 percent and 512
/// at least where the estimate starts from a reported count. The request gets the rest.
pub proof fn lemma_window_is_divided(max_tokens: Option<i64>, window: nat)
    requires
        window <= 0x0fff_ffff_ffff_ffff,
    ensures
        max_tokens is Some && max_tokens->0 > 0 ==> output_reserve(max_tokens, window)
            == max_tokens->0,
        max_tokens is None || max_tokens->0 <= 0 ==> window * 15 <= output_reserve(
            max_tokens,
            window,
        ) * 100 < window * 15 + 100,
        ({
            let kept = safety_reserve(window, EstimateSource::Full);
            &&& kept >= 1024 && kept * 100 >= window * 3
            &&& kept == 1024 || kept * 100 < window * 3 + 100
        }),
        ({
            let kept = safety_reserve(window, EstimateSource::Baseline);
            &&& kept >= 512 && kept * 100 >= window
            &&& kept == 512 || kept * 100 < window + 100
        }),
        forall|source: EstimateSource| #[trigger]
            available(max_tokens, window, source) == if output_reserve(max_tokens, window)
                + safety_reserve(window, source) <= window {
                window - output_reserve(max_tokens, window) - safety_reserve(window, source)
            } else {
                0
            },
{
}

/// A request may use the whole of what is left for it, or the share that a scale says, and never
/// more: a scale of one leaves it as it is, and a greater scale never gives less.
pub proof fn lemma_budget_is_a_share(
    max_tokens: Option<i64>,
    window: nat,
    scale: Real,
    other: Real,
    source: EstimateSource,
)
    requires
        window < 0x20_0000_0000_0000,
    ensures
        budget_of(max_tokens, window, Real { bits: 0x3ff0_0000_0000_0000 }, source) == available(
            max_tokens,
            window,
            source,
        ),
        budget_of(max_tokens, window, scale, source) <= available(max_tokens, window, source),
        scale.finite() && scale.negative() ==> budget_of(max_tokens, window, scale, source) == 0,
        scale.finite() && !scale.negative() && other.finite() && !other.negative() && fl_le(
            scale.magnitude(),
            other.magnitude(),
        ) ==> budget_of(max_tokens, window, scale, source) <= budget_of(
            max_tokens,
            window,
            other,
            source,
        ),
{
    let n = available(max_tokens, window, source);
    let zero = Fl { m: 0, e: 0 };
    assert(n <= window);
    lemma_nat_order(n, n);
    lemma_times_one(fl_nat(n));
    lemma_integers_are_exact(n);
    let whole = Real { bits: 0x3ff0_0000_0000_0000 };
    assert(whole.exponent() == 1023);
    assert(whole.fraction() == 0);
    assert(whole.magnitude() == one());
    assert(whole.clamped(zero, one(), one()) == one());
    let x = scale.clamped(zero, one(), one());
    let y = other.clamped(zero, one(), one());
    lemma_magnitude_normal(scale);
    lemma_magnitude_normal(other);
    lemma_scale_order(n, x, one());
    if scale.finite() && !scale.negative() && other.finite() && !other.negative() && fl_le(
        scale.magnitude(),
        other.magnitude(),
    ) {
        lemma_scale_order(n, x, y);
    }
    if scale.finite() && scale.negative() {
        assert(fl_nat(n).m * 0 == 0) by (nonlinear_arith);
        assert(fl_mul(fl_nat(n), zero) == zero);
        vstd::arithmetic::power2::lemma2_to64();
    }
}

proof fn lemma_magnitude_normal(x: Real)
    ensures
        normal(x.magnitude()),
{
    if x.exponent() == 0 && x.fraction() > 0 {
        lemma_grown_bounds(x.fraction(), -1074);
    }
}

proof fn lemma_scale_order(n: nat, x: Fl, y: Fl)
    requires
        x.m == 0 || normal(x),
        y.m == 0 || normal(y),
        fl_le(x, y),
    ensures
        capped(fl_floor(fl_mul(fl_nat(n), x))) <= capped(fl_floor(fl_mul(fl_nat(n), y))),
{
    let a = fl_nat(n);
    lemma_nat_order(n, n);
    let (p, q, m) = (x.m, y.m, a.m);
    assert(m * p == p * m && m * q == q * m) by (nonlinear_arith);
    assert(fl_mul(a, x) == fl_mul(x, a));
    assert(fl_mul(a, y) == fl_mul(y, a));
    vstd::arithmetic::power2::lemma2_to64();
    if x.m == 0 || m == 0 {
        assert(p * m == 0) by (nonlinear_arith)
            requires
                p == 0 || m == 0,
        ;
        assert(fl_mul(x, a) == (Fl { m: 0, e: 0 }));
        assert(fl_floor(Fl { m: 0, e: 0 }) == 0);
    } else {
        lemma_product_order(x, y, a);
        lemma_product_order(y, y, a);
        lemma_floor_order(fl_mul(x, a), fl_mul(y, a));
    }
}

/// The size of a request that starts from no reported count is its estimate, with the factor
/// applied; else it is told by that count.
pub proof fn lemma_size_of_a_request(r: RequestView, more: RequestView, factor: Fl)
    requires
        factor.m > 0,
        request_tokens(r) <= request_tokens(more),
    ensures
        calibrated(r, factor, None) <= calibrated(more, factor, None),
        calibrated(r, factor, None) == 0 <==> request_tokens(r) == 0,
        request_tokens(r) < 0x20_0000_0000_0000 ==> calibrated(r, one(), None) == request_tokens(r),
        forall|b: BaselineView| #[trigger]
            calibrated(r, factor, Some(b)) == b.tokens(r, factor),
{
    lemma_factor_keeps_order(request_tokens(r), request_tokens(more), factor);
    if request_tokens(r) < 0x20_0000_0000_0000 {
        lemma_factor_one(request_tokens(r));
    }
}

} // verus!
