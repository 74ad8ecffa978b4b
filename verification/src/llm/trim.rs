//! Making requests fit the context window of the model.
//!
//! Only the copy that is sent is worked on. First long texts are shortened, then the earliest
//! rounds are dropped as wholes. Instructions, the last user message and the arguments of tool
//! calls are left alone.

use crate::arrange::{arrange, arranged, lemma_arranged_from, lemma_arranged_items, Ranked};
use crate::double::{Fl, Real};
use crate::error::{ClientError, ErrorCode, ErrorView};
use crate::json::{lemma_trees, Json, JsonView};
use crate::llm::context_budget::{
    baseline_view, budget_of, calibrated, calibrated_request_tokens, candidates, context_budget,
    estimate_source, field_text, fixed_front, loose_part, place_opt, source_of, split_fixed,
    truncation_candidates, with_field, Candidate, ContextTrimReport, TextField, TrimOptions,
    RECENT_ROUNDS_TO_KEEP,
};
use crate::llm::context_snapshot::{join_reference, with_reference};
use crate::llm::rounds::{
    conversation_rounds, find_last_user, first_round_end, front_instructions, instructions,
    last_user, leading_instructions, leave_out, lemma_first_round, lemma_last_user,
    lemma_second_start, lemma_without_first_round, noted, omission_note, omission_text, place_lists,
    places, rounds, size_capped, spoken, take_notes, without_first_round, without_notes,
};
use crate::llm::token_estimate::{
    capped, estimate_message_tokens, estimate_with_factor, message_tokens, normalized, scaled,
    BaselineView, RequestBaseline,
};
use crate::llm::truncation::{target_chars, truncate_text_to, truncated, truncation_target_chars};
use crate::llm::types::{borrowed, ChatRequest, Message, MessageView, RequestView};
use crate::model::{
    duplicate_option, lemma_views_insert, lemma_views_update, text_or_default, text_or_empty, views,
};
use crate::text::{begins_with, occurs_at, same_text};
use vstd::prelude::*;

verus! {

/// A message with its estimated size.
#[derive(Clone, Copy, Debug)]
pub struct SizedMessage {
    pub tokens: u64,
    pub index: usize,
}

impl Ranked for SizedMessage {
    /// Larger messages first.
    open spec fn before(self, other: Self) -> bool {
        self.tokens > other.tokens
    }

    fn ranks_before(&self, other: &Self) -> (r: bool) {
        self.tokens > other.tokens
    }
}

/// The messages with their estimated sizes.
pub open spec fn sized(s: Seq<MessageView>, factor: Fl) -> Seq<SizedMessage> {
    Seq::new(
        s.len(),
        |i: int|
            SizedMessage {
                tokens: scaled(capped(message_tokens(s[i])), factor) as u64,
                index: i as usize,
            },
    )
}

/// What an error tells of a message.
pub open spec fn sized_value(s: Seq<MessageView>, m: SizedMessage) -> JsonView {
    JsonView::Object(
        Map::empty().insert("index"@, JsonView::Int(m.index as int)).insert(
            "role"@,
            JsonView::Text(s[m.index as int].role),
        ).insert("tokens"@, JsonView::Int(m.tokens as int)),
    )
}

/// How many of the largest messages an error tells of.
pub open spec fn top_count(n: nat) -> nat {
    if n < 3 {
        n
    } else {
        3
    }
}

/// What an error tells of the largest messages.
pub open spec fn largest_values(s: Seq<MessageView>, factor: Fl) -> Seq<JsonView> {
    let order = arranged(sized(s, factor));
    Seq::new(top_count(s.len()), |k: int| sized_value(s, order[k]))
}

/// The error for a request that does not fit.
pub open spec fn budget_error(
    r: RequestView,
    budget: nat,
    factor: Fl,
    baseline: Option<BaselineView>,
) -> ErrorView {
    ErrorView::bare(
        ErrorCode::ContextBudgetExceeded,
        "上下文仍超过模型可用预算，请压缩对话、缩短附件或降低最大输出长度后重试"@,
    ).with("budget"@, JsonView::Int(budget as int)).with(
        "actual"@,
        JsonView::Int(calibrated(r, factor, baseline) as int),
    ).with(
        "top_3_largest_messages"@,
        JsonView::Array(largest_values(r.messages, factor)),
    )
}

/// The error for a request that does not fit: how far it is off, and what is largest in it.
pub fn context_budget_error_with_baseline(
    request: &ChatRequest,
    budget: u64,
    calibration_factor: Real,
    baseline: Option<&RequestBaseline>,
) -> (r: ClientError)
    ensures
        r@ == budget_error(
            request@,
            budget as nat,
            normalized(calibration_factor),
            baseline_view(baseline),
        ),
{
    let actual: u64 = calibrated_request_tokens(request, calibration_factor, baseline);
    let ghost s = request@.messages;
    let ghost f = normalized(calibration_factor);
    let n: usize = request.messages.len();
    let mut largest: Vec<SizedMessage> = Vec::new();
    let mut i: usize = 0;
    while i < n
        invariant
            i <= n == request.messages@.len(),
            s == request@.messages,
            f == normalized(calibration_factor),
            largest@ == sized(s, f).take(i as int),
        decreases n - i,
    {
        let tokens: u64 = estimate_with_factor(
            estimate_message_tokens(&request.messages[i]),
            calibration_factor,
        );
        assert(s[i as int] == request.messages@[i as int]@);
        largest.push(SizedMessage { tokens, index: i });
        i = i + 1;
        assert(largest@ =~= sized(s, f).take(i as int));
    }
    assert(largest@ =~= sized(s, f));
    let order: Vec<SizedMessage> = arrange(&largest);
    proof {
        lemma_arranged_items(largest@);
    }
    let top: usize = if n < 3 {
        n
    } else {
        3
    };
    let mut values: Vec<Json> = Vec::new();
    let mut k: usize = 0;
    while k < top
        invariant
            k <= top <= order@.len(),
            top == top_count(s.len()),
            n == request.messages@.len() == s.len(),
            s == request@.messages,
            largest@ == sized(s, f),
            order@ == arranged(sized(s, f)),
            views(values@) == largest_values(s, f).take(k as int),
        decreases top - k,
    {
        proof {
            lemma_arranged_from(largest@, k as int);
            let j = choose|j: int| 0 <= j < largest@.len() && largest@[j] == order@[k as int];
            assert(sized(s, f)[j].index == j);
            assert(s[order@[k as int].index as int] == request.messages@[order@[k as int].index as int]@);
        }
        let m: SizedMessage = order[k];
        let value: Json = Json::object().with("index", Json::Unsigned(m.index as u64)).with(
            "role",
            Json::text(request.messages[m.index].role.as_str()),
        ).with("tokens", Json::Unsigned(m.tokens));
        let ghost before = values@;
        values.push(value);
        proof {
            crate::model::lemma_views_push(before, value);
            assert(value@ == sized_value(s, m));
            assert(largest_values(s, f).take(k + 1) =~= largest_values(s, f).take(k as int).push(
                value@,
            ));
        }
        k = k + 1;
    }
    proof {
        assert(largest_values(s, f).take(k as int) =~= largest_values(s, f));
        lemma_trees(values@);
    }
    ClientError::new(
        ErrorCode::ContextBudgetExceeded,
        "上下文仍超过模型可用预算，请压缩对话、缩短附件或降低最大输出长度后重试",
    ).with_kv("budget", Json::Unsigned(budget)).with_kv("actual", Json::Unsigned(actual)).with_kv(
        "top_3_largest_messages",
        Json::Array(values),
    )
}

/// Whether a user message begins with given material.
pub open spec fn has_reference(s: Seq<MessageView>, required: Seq<char>) -> bool {
    exists|i: int| #![trigger s[i]]
        0 <= i < s.len() && s[i].role == "user"@ && s[i].content is Some && occurs_at(
            s[i].content->0,
            required,
            0,
        )
}

/// The messages after given material was given to the last user message, where no user message
/// begins with it; and whether that was done.
pub open spec fn with_required(s: Seq<MessageView>, required: Seq<char>) -> (
    Seq<MessageView>,
    bool,
) {
    match last_user(s) {
        Some(u) if !has_reference(s, required) => (
            s.update(
                u,
                MessageView {
                    content: Some(with_reference(required, text_or_empty(s[u].content))),
                    ..s[u]
                },
            ),
            true,
        ),
        _ => (s, false),
    }
}

/// Gives material to the last user message, where no user message begins with it.
pub fn ensure_required_user_context(messages: &mut Vec<Message>, required: &str) -> (r: bool)
    ensures
        (views(final(messages)@), r) == with_required(views(old(messages)@), required@),
{
    let ghost s = views(messages@);
    let mut i: usize = 0;
    while i < messages.len()
        invariant
            i <= messages@.len(),
            s == views(messages@),
            s == views(old(messages)@),
            forall|j: int| #![trigger s[j]]
                0 <= j < i ==> !(s[j].role == "user"@ && s[j].content is Some && occurs_at(
                    s[j].content->0,
                    required@,
                    0,
                )),
        decreases messages@.len() - i,
    {
        assert(s[i as int] == messages@[i as int]@);
        let found: bool = match &messages[i].content {
            Some(c) => same_text(messages[i].role.as_str(), "user") && begins_with(
                c.as_str(),
                required,
            ),
            None => false,
        };
        if found {
            assert(has_reference(s, required@));
            return false;
        }
        i = i + 1;
    }
    match find_last_user(messages.as_slice()) {
        Some(u) => {
            assert(s[u as int] == messages@[u as int]@);
            let content: String = text_or_default(&messages[u].content);
            let joined: String = join_reference(required, content.as_str());
            let ghost before = messages@;
            messages[u].content = Some(joined);
            proof {
                lemma_views_update(before, u as int, messages@[u as int]);
                assert(messages@ =~= before.update(u as int, messages@[u as int]));
            }
            true
        },
        None => false,
    }
}

/// What trimming a request depends on.
#[verifier::ext_equal]
pub struct Trimming {
    pub request: RequestView,
    pub budget: nat,
    pub factor: Fl,
    pub baseline: Option<BaselineView>,
    /// The material that must stay.
    pub required: Option<Seq<char>>,
    /// Whether a message with that material stays whole.
    pub locked: bool,
}

/// The state of shortening texts: the messages, their size, the places of the messages that were
/// shortened, and whether any was in this pass.
#[verifier::ext_equal]
pub struct Shortening {
    pub messages: Seq<MessageView>,
    pub actual: nat,
    pub touched: Seq<int>,
    pub progress: bool,
}

/// The state of dropping rounds: the messages, their size, how many rounds were dropped, whether
/// one must be, and whether material was given to the last user message.
#[verifier::ext_equal]
pub struct Dropping {
    pub messages: Seq<MessageView>,
    pub actual: nat,
    pub dropped: nat,
    pub must: bool,
    pub carried: bool,
}

/// What trimming makes of the messages.
#[verifier::ext_equal]
pub struct Trimmed {
    pub messages: Seq<MessageView>,
    pub actual: nat,
    pub dropped: nat,
    pub truncated: nat,
    pub carried: bool,
}

/// Places with one more, once.
pub open spec fn marked(touched: Seq<int>, i: int) -> Seq<int> {
    if touched.contains(i) {
        touched
    } else {
        touched.push(i)
    }
}

impl Trimming {
    /// The size of the request with given messages.
    pub open spec fn size(self, messages: Seq<MessageView>) -> nat {
        calibrated(self.request.with_messages(messages), self.factor, self.baseline)
    }

    /// The texts that may be shortened.
    pub open spec fn shortenable(self, messages: Seq<MessageView>) -> Seq<Candidate> {
        candidates(messages, last_user(self.request.messages), self.required, self.locked)
    }

    /// Shortens one text as far as the excess asks, unless that does not make the request smaller.
    pub open spec fn attempt(self, st: Shortening, c: Candidate) -> Shortening {
        let i = c.index as int;
        if st.actual <= self.budget || i >= st.messages.len() {
            st
        } else {
            match field_text(st.messages[i], c.field) {
                Some(text) => match truncated(
                    loose_part(text, c.field, self.required, self.locked),
                    target_chars(
                        loose_part(text, c.field, self.required, self.locked),
                        (st.actual - self.budget) as nat,
                        self.factor,
                    ),
                ) {
                    Some(t) => {
                        let whole = text.take(
                            fixed_front(text, c.field, self.required, self.locked),
                        ) + t;
                        let shorter = st.messages.update(
                            i,
                            with_field(st.messages[i], c.field, whole),
                        );
                        if self.size(shorter) >= st.actual {
                            st
                        } else {
                            Shortening {
                                messages: shorter,
                                actual: self.size(shorter),
                                touched: marked(st.touched, i),
                                progress: true,
                            }
                        }
                    },
                    None => st,
                },
                None => st,
            }
        }
    }

    /// Goes through candidates in turn.
    pub open spec fn pass(self, st: Shortening, cs: Seq<Candidate>) -> Shortening
        decreases cs.len(),
    {
        if cs.len() == 0 {
            st
        } else {
            self.attempt(self.pass(st, cs.drop_last()), cs.last())
        }
    }

    /// One pass over all texts that can be shortened, the most suitable first.
    pub open spec fn full_pass(self, st: Shortening) -> Shortening {
        self.pass(
            Shortening { progress: false, ..st },
            arranged(self.shortenable(st.messages)),
        )
    }

    /// Passes over the texts until the request fits or a pass does not help.
    pub open spec fn shorten(self, st: Shortening) -> Shortening
        decreases st.actual,
    {
        proof {
            lemma_pass_shrinks(
                self,
                Shortening { progress: false, ..st },
                arranged(self.shortenable(st.messages)),
            );
        }
        let p = self.full_pass(st);
        if p.actual <= self.budget || !p.progress {
            p
        } else {
            self.shorten(p)
        }
    }

    /// The messages with the texts shortened, where they do not fit.
    pub open spec fn shortened(self) -> Shortening {
        let st = Shortening {
            messages: self.request.messages,
            actual: self.size(self.request.messages),
            touched: Seq::empty(),
            progress: false,
        };
        if st.actual > self.budget {
            self.shorten(st)
        } else {
            st
        }
    }

    /// Drops the first round; material that must stay goes to the last user message.
    pub open spec fn drop_one(self, st: Dropping) -> Dropping {
        let fewer = without_first_round(st.messages);
        let (messages, carried) = match self.required {
            Some(q) => with_required(fewer, q),
            None => (fewer, false),
        };
        Dropping {
            messages,
            actual: self.size(messages),
            dropped: st.dropped + 1,
            must: false,
            carried: st.carried || carried,
        }
    }

    /// Drops the earliest rounds until the request fits or only `keep` are left.
    pub open spec fn drop_rounds(self, keep: nat, st: Dropping) -> Dropping
        decreases st.messages.len(),
    {
        proof {
            lemma_drop_one_shrinks(self, st);
        }
        if rounds(st.messages).len() <= keep || (st.actual <= self.budget && !st.must) {
            st
        } else {
            self.drop_rounds(keep, self.drop_one(st))
        }
    }

    /// The messages with the texts shortened, without the notes on omitted rounds where rounds may
    /// be dropped.
    pub open spec fn unnoted(self, force: bool) -> (Seq<MessageView>, nat, nat) {
        let s = self.shortened();
        if s.actual > self.budget || force {
            (
                without_notes(s.messages),
                self.size(without_notes(s.messages)),
                size_capped(noted(s.messages)),
            )
        } else {
            (s.messages, s.actual, 0)
        }
    }

    /// The messages with the texts shortened and the earliest rounds dropped.
    pub open spec fn dropped(self, force: bool) -> Dropping {
        let (messages, actual, _) = self.unnoted(force);
        self.drop_rounds(
            if force {
                1
            } else {
                RECENT_ROUNDS_TO_KEEP as nat
            },
            Dropping { messages, actual, dropped: 0, must: force, carried: false },
        )
    }

    /// What trimming makes of the messages: texts shortened, rounds dropped, and a note on how many
    /// are missing behind the instructions at the front.
    pub open spec fn trimmed(self, force: bool) -> Trimmed {
        let d = self.dropped(force);
        let prior = self.unnoted(force).2;
        let messages = if d.dropped > 0 || prior > 0 {
            d.messages.insert(
                leading_instructions(d.messages),
                MessageView::plain("system"@, omission_note(size_capped(prior + d.dropped))),
            )
        } else {
            d.messages
        };
        Trimmed {
            messages,
            actual: if d.dropped > 0 || prior > 0 {
                self.size(messages)
            } else {
                d.actual
            },
            dropped: d.dropped,
            truncated: self.shortened().touched.len(),
            carried: d.carried,
        }
    }

    /// Whether the request is left as it is.
    pub open spec fn fits(self) -> bool {
        self.size(self.request.messages) <= self.budget
    }

    /// What trimming reports.
    pub open spec fn report(self, force: bool) -> ContextTrimReport {
        let t = self.trimmed(force);
        ContextTrimReport {
            dropped_rounds: t.dropped as usize,
            truncated_messages: t.truncated as usize,
            before: self.size(self.request.messages) as u64,
            after: t.actual as u64,
            budget: self.budget as u64,
            suggest_compaction: true,
            estimate_source: source_of(self.baseline),
        }
    }

    /// The request that one attempt at trimming leaves, and what it reports or why it failed.
    pub open spec fn tried(self, force: bool) -> (
        RequestView,
        Result<Option<ContextTrimReport>, ErrorView>,
    ) {
        let t = self.trimmed(force);
        let result = self.request.with_messages(t.messages);
        if self.fits() && !force {
            (self.request, Ok(None))
        } else if t.actual > self.budget || (force && !t.changed()) {
            (self.request, Err(budget_error(result, self.budget, self.factor, self.baseline)))
        } else if t.changed() {
            (result, Ok(Some(self.report(force))))
        } else {
            (result, Ok(None))
        }
    }

    /// The same, but the text behind material that must stay may be shortened.
    pub open spec fn unlocked(self) -> Trimming {
        Trimming { locked: false, ..self }
    }

    /// The attempt that counts. Where a request cannot be made to fit with the messages that hold
    /// material that must stay left whole, the text behind that material is shortened too.
    pub open spec fn taken(self, force: bool) -> Trimming {
        if self.tried(force).1 is Err && self.required is Some && self.unlocked().tried(
            force,
        ).1 is Ok {
            self.unlocked()
        } else {
            self
        }
    }

    /// The request that trimming leaves, and what it reports or why it failed.
    pub open spec fn outcome(self, force: bool) -> (
        RequestView,
        Result<Option<ContextTrimReport>, ErrorView>,
    ) {
        self.taken(force).tried(force)
    }
}

impl Trimmed {
    /// Whether anything was taken out or moved.
    pub open spec fn changed(self) -> bool {
        self.truncated > 0 || self.dropped > 0 || self.carried
    }
}

/// A pass never makes the request larger, and progress means that it became smaller.
pub proof fn lemma_pass_shrinks(t: Trimming, st: Shortening, cs: Seq<Candidate>)
    requires
        !st.progress,
    ensures
        t.pass(st, cs).actual <= st.actual,
        t.pass(st, cs).progress ==> t.pass(st, cs).actual < st.actual,
    decreases cs.len(),
{
    if cs.len() > 0 {
        lemma_pass_shrinks(t, st, cs.drop_last());
    }
}

/// Some messages are no instructions, so the instructions are fewer.
pub proof fn lemma_instructions_fewer(s: Seq<MessageView>)
    ensures
        instructions(s).len() <= s.len(),
        (exists|j: int| 0 <= j < s.len() && spoken(#[trigger] s[j])) ==> instructions(s).len()
            < s.len(),
    decreases s.len(),
{
    if s.len() > 0 {
        let t = s.drop_last();
        lemma_instructions_fewer(t);
        if exists|j: int| 0 <= j < s.len() && spoken(#[trigger] s[j]) {
            let j = choose|j: int| 0 <= j < s.len() && spoken(#[trigger] s[j]);
            if j < t.len() {
                assert(spoken(t[j]));
            }
        }
    }
}

/// Dropping a round leaves fewer messages.
pub proof fn lemma_drop_one_shrinks(t: Trimming, st: Dropping)
    ensures
        rounds(st.messages).len() > 0 ==> t.drop_one(st).messages.len() < st.messages.len(),
{
    let s = st.messages;
    if rounds(s).len() > 0 {
        lemma_first_round(s);
        lemma_second_start(s, 0, false);
        let e = first_round_end(s);
        assert(exists|j: int| 0 <= j < s.len() && spoken(#[trigger] s[j]));
        if e < s.len() {
            let j = choose|j: int| 0 <= j < e && #[trigger] spoken(s[j]);
            assert(spoken(s.take(e)[j]));
        } else {
            let j = choose|j: int| 0 <= j < s.len() && spoken(#[trigger] s[j]);
            assert(spoken(s.take(e)[j]));
        }
        lemma_instructions_fewer(s.take(e));
        assert(without_first_round(s).len() < s.len());
        lemma_last_user(without_first_round(s));
    }
}

fn mark(touched: &mut Vec<usize>, i: usize)
    ensures
        places(final(touched)@) == marked(places(old(touched)@), i as int),
{
    let ghost p = places(touched@);
    let mut k: usize = 0;
    while k < touched.len()
        invariant
            k <= touched@.len(),
            p == places(touched@),
            p == places(old(touched)@),
            forall|j: int| 0 <= j < k ==> p[j] != i,
        decreases touched@.len() - k,
    {
        if touched[k] == i {
            assert(p[k as int] == i);
            return ;
        }
        k = k + 1;
    }
    touched.push(i);
    assert(places(touched@) =~= p.push(i as int));
}

fn shorten_one(
    candidate: &mut ChatRequest,
    c: Candidate,
    actual: u64,
    budget: u64,
    calibration_factor: Real,
    baseline: Option<&RequestBaseline>,
    required_user_context: Option<&str>,
    locked: bool,
) -> (r: Option<u64>)
    requires
        actual > budget,
        c.index < old(candidate).messages@.len(),
    ensures
        ({
            let t = Trimming {
                request: old(candidate)@,
                budget: budget as nat,
                factor: normalized(calibration_factor),
                baseline: baseline_view(baseline),
                required: borrowed(required_user_context),
                locked,
            };
            let st = Shortening {
                messages: old(candidate)@.messages,
                actual: actual as nat,
                touched: Seq::empty(),
                progress: false,
            };
            let next = t.attempt(st, c);
            &&& final(candidate)@ == old(candidate)@.with_messages(next.messages)
            &&& match r {
                Some(n) => n == next.actual && next.progress,
                None => next == st,
            }
        }),
{
    let ghost start = *candidate;
    let ghost i = c.index as int;
    assert(start@.messages[i] == start.messages@[i]@);
    let original: Option<String> = match c.field {
        TextField::Content => duplicate_option(&candidate.messages[c.index].content),
        TextField::Reasoning => duplicate_option(&candidate.messages[c.index].reasoning_content),
    };
    let shorter: Option<String> = match &original {
        Some(text) => {
            let (front, part): (String, String) = split_fixed(
                text.as_str(),
                c.field,
                required_user_context,
                locked,
            );
            match truncate_text_to(
                part.as_str(),
                truncation_target_chars(part.as_str(), actual - budget, calibration_factor),
            ) {
                Some(t) => {
                    let mut whole: String = front;
                    whole.append(t.as_str());
                    Some(whole)
                },
                None => None,
            }
        },
        None => None,
    };
    let replacement: String = match shorter {
        Some(t) => t,
        None => {
            assert(start@.with_messages(start@.messages) =~= start@);
            return None;
        },
    };
    match c.field {
        TextField::Content => {
            candidate.messages[c.index].content = Some(replacement);
        },
        TextField::Reasoning => {
            candidate.messages[c.index].reasoning_content = Some(replacement);
        },
    }
    proof {
        lemma_views_update(start.messages@, i, candidate.messages@[i]);
        assert(candidate.messages@ =~= start.messages@.update(i, candidate.messages@[i]));
        assert(candidate@ =~= start@.with_messages(
            start@.messages.update(i, with_field(start@.messages[i], c.field, replacement@)),
        ));
    }
    let next: u64 = calibrated_request_tokens(candidate, calibration_factor, baseline);
    if next >= actual {
        let ghost mid = *candidate;
        match c.field {
            TextField::Content => {
                candidate.messages[c.index].content = original;
            },
            TextField::Reasoning => {
                candidate.messages[c.index].reasoning_content = original;
            },
        }
        proof {
            lemma_views_update(mid.messages@, i, candidate.messages@[i]);
            assert(candidate.messages@ =~= mid.messages@.update(i, candidate.messages@[i]));
            assert(candidate@.messages =~= start@.messages);
            assert(candidate@ =~= start@);
            assert(start@.with_messages(start@.messages) =~= start@);
        }
        return None;
    }
    Some(next)
}

/// An attempt depends on the texts and the size alone, not on what was done before.
proof fn lemma_attempt_afresh(t: Trimming, t1: Trimming, cur: Shortening, st: Shortening, c: Candidate)
    requires
        t1.request == t.request.with_messages(cur.messages),
        t1.budget == t.budget,
        t1.factor == t.factor,
        t1.baseline == t.baseline,
        t1.required == t.required,
        t1.locked == t.locked,
        st.messages == cur.messages,
        st.actual == cur.actual,
        !st.progress,
    ensures
        t.attempt(cur, c) == if t1.attempt(st, c).progress {
            Shortening {
                messages: t1.attempt(st, c).messages,
                actual: t1.attempt(st, c).actual,
                touched: marked(cur.touched, c.index as int),
                progress: true,
            }
        } else {
            cur
        },
        t.attempt(cur, c).messages.len() == cur.messages.len(),
{
    assert forall|m: Seq<MessageView>| #[trigger] t1.size(m) == t.size(m) by {
        assert(t1.request.with_messages(m) =~= t.request.with_messages(m));
    }
}

/// Shortens texts until the request fits or that does not help any more.
fn shorten_texts(
    candidate: &mut ChatRequest,
    before: u64,
    budget: u64,
    calibration_factor: Real,
    baseline: Option<&RequestBaseline>,
    required_user_context: Option<&str>,
    locked: bool,
) -> (r: (u64, Vec<usize>))
    requires
        before > budget,
    ensures
        ({
            let t = Trimming {
                request: old(candidate)@,
                budget: budget as nat,
                factor: normalized(calibration_factor),
                baseline: baseline_view(baseline),
                required: borrowed(required_user_context),
                locked,
            };
            let st = Shortening {
                messages: old(candidate)@.messages,
                actual: before as nat,
                touched: Seq::empty(),
                progress: false,
            };
            let done = t.shorten(st);
            &&& final(candidate)@ == old(candidate)@.with_messages(done.messages)
            &&& final(candidate)@.messages.len() == old(candidate)@.messages.len()
            &&& r.0 == done.actual
            &&& places(r.1@) == done.touched
        }),
{
    let ghost t = Trimming {
        request: candidate@,
        budget: budget as nat,
        factor: normalized(calibration_factor),
        baseline: baseline_view(baseline),
        required: borrowed(required_user_context),
        locked,
    };
    let ghost st0 = Shortening {
        messages: candidate@.messages,
        actual: before as nat,
        touched: Seq::empty(),
        progress: false,
    };
    let ghost mut st = st0;
    let last_user: Option<usize> = find_last_user(candidate.messages.as_slice());
    let mut actual: u64 = before;
    let mut touched: Vec<usize> = Vec::new();
    proof {
        assert(places(touched@) =~= Seq::<int>::empty());
        assert(t.request.with_messages(candidate@.messages) =~= candidate@);
    }
    let mut done: bool = false;
    while !done
        invariant
            t.budget == budget,
            t.factor == normalized(calibration_factor),
            t.baseline == baseline_view(baseline),
            t.required == borrowed(required_user_context),
            t.locked == locked,
            place_opt(last_user) == crate::llm::rounds::last_user(t.request.messages),
            candidate@ == t.request.with_messages(st.messages),
            st.messages.len() == t.request.messages.len(),
            actual == st.actual,
            places(touched@) == st.touched,
            !done ==> t.shorten(st) == t.shorten(st0),
            done ==> st == t.shorten(st0),
        decreases actual, if done { 0int } else { 1int },
    {
        let all: Vec<Candidate> = truncation_candidates(
            candidate.messages.as_slice(),
            last_user,
            required_user_context,
            locked,
        );
        let order: Vec<Candidate> = arrange(&all);
        let ghost cs = order@;
        let ghost fresh = Shortening { progress: false, ..st };
        let ghost mut cur = fresh;
        let mut made_progress: bool = false;
        let mut k: usize = 0;
        assert(cs.take(0) =~= Seq::<Candidate>::empty());
        let ghost reached = actual;
        while k < order.len()
            invariant
                k <= order@.len(),
                cs == order@,
                t.budget == budget,
                t.factor == normalized(calibration_factor),
                t.baseline == baseline_view(baseline),
                t.required == borrowed(required_user_context),
                t.locked == locked,
                !fresh.progress,
                cur == t.pass(fresh, cs.take(k as int)),
                candidate@ == t.request.with_messages(cur.messages),
                cur.messages.len() == t.request.messages.len(),
                actual == cur.actual,
                places(touched@) == cur.touched,
                made_progress == cur.progress,
            decreases order@.len() - k,
        {
            let c: Candidate = order[k];
            assert(cs.take(k + 1).drop_last() =~= cs.take(k as int));
            let ghost next = t.attempt(cur, c);
            if actual > budget && c.index < candidate.messages.len() {
                let ghost t1 = Trimming {
                    request: candidate@,
                    budget: budget as nat,
                    factor: normalized(calibration_factor),
                    baseline: baseline_view(baseline),
                    required: borrowed(required_user_context),
                    locked,
                };
                let ghost st1 = Shortening {
                    messages: candidate@.messages,
                    actual: actual as nat,
                    touched: Seq::empty(),
                    progress: false,
                };
                proof {
                    lemma_attempt_afresh(t, t1, cur, st1, c);
                }
                match shorten_one(
                    candidate,
                    c,
                    actual,
                    budget,
                    calibration_factor,
                    baseline,
                    required_user_context,
                    locked,
                ) {
                    Some(smaller) => {
                        mark(&mut touched, c.index);
                        actual = smaller;
                        made_progress = true;
                    },
                    None => {},
                }
                assert(candidate@ =~= t.request.with_messages(next.messages));
            }
            proof {
                cur = next;
            }
            k = k + 1;
        }
        proof {
            assert(cs.take(k as int) =~= cs);
            assert(cur == t.full_pass(st));
            lemma_pass_shrinks(t, fresh, cs);
            st = cur;
        }
        if actual <= budget || !made_progress {
            done = true;
        }
    }
    (actual, touched)
}

/// Drops the earliest rounds until the request fits or only `keep` are left.
fn drop_earliest(
    candidate: &mut ChatRequest,
    size: u64,
    budget: u64,
    keep: usize,
    must: bool,
    calibration_factor: Real,
    baseline: Option<&RequestBaseline>,
    required_user_context: Option<&str>,
) -> (r: (u64, usize, bool))
    ensures
        ({
            let t = Trimming {
                request: old(candidate)@,
                budget: budget as nat,
                factor: normalized(calibration_factor),
                baseline: baseline_view(baseline),
                required: borrowed(required_user_context),
                locked: true,
            };
            let st = Dropping {
                messages: old(candidate)@.messages,
                actual: size as nat,
                dropped: 0,
                must,
                carried: false,
            };
            let done = t.drop_rounds(keep as nat, st);
            &&& final(candidate)@ == old(candidate)@.with_messages(done.messages)
            &&& r.0 == done.actual
            &&& r.1 == done.dropped
            &&& r.2 == done.carried
        }),
{
    let ghost t = Trimming {
        request: candidate@,
        budget: budget as nat,
        factor: normalized(calibration_factor),
        baseline: baseline_view(baseline),
        required: borrowed(required_user_context),
        locked: true,
    };
    let ghost st0 = Dropping {
        messages: candidate@.messages,
        actual: size as nat,
        dropped: 0,
        must,
        carried: false,
    };
    let ghost mut st = st0;
    let n: usize = candidate.messages.len();
    let mut actual: u64 = size;
    let mut dropped: usize = 0;
    let mut must_drop: bool = must;
    let mut carried: bool = false;
    let mut current: Vec<Vec<usize>> = conversation_rounds(candidate.messages.as_slice());
    proof {
        assert(t.request.with_messages(candidate@.messages) =~= candidate@);
    }
    while current.len() > keep && (actual > budget || must_drop)
        invariant
            t.budget == budget,
            t.factor == normalized(calibration_factor),
            t.baseline == baseline_view(baseline),
            t.required == borrowed(required_user_context),
            candidate@ == t.request.with_messages(st.messages),
            place_lists(current@) == rounds(st.messages),
            actual == st.actual,
            dropped == st.dropped,
            must_drop == st.must,
            carried == st.carried,
            dropped + st.messages.len() <= n,
            t.drop_rounds(keep as nat, st) == t.drop_rounds(keep as nat, st0),
        decreases st.messages.len(),
    {
        let ghost next = t.drop_one(st);
        proof {
            assert(place_lists(current@).len() == current@.len());
            assert(place_lists(current@)[0] == places(current@[0]@));
            lemma_without_first_round(st.messages);
            lemma_drop_one_shrinks(t, st);
        }
        let fewer: Vec<Message> = leave_out(&candidate.messages, &current[0]);
        candidate.messages = fewer;
        dropped = dropped + 1;
        must_drop = false;
        match required_user_context {
            Some(required) => {
                if ensure_required_user_context(&mut candidate.messages, required) {
                    carried = true;
                }
            },
            None => {},
        }
        assert(candidate@ =~= t.request.with_messages(next.messages));
        actual = calibrated_request_tokens(candidate, calibration_factor, baseline);
        current = conversation_rounds(candidate.messages.as_slice());
        proof {
            st = next;
        }
    }
    assert(place_lists(current@).len() == current@.len());
    (actual, dropped, carried)
}

/// The view of what trimming returns.
pub open spec fn result_view(
    r: Result<Option<ContextTrimReport>, ClientError>,
) -> Result<Option<ContextTrimReport>, ErrorView> {
    match r {
        Ok(report) => Ok(report),
        Err(e) => Err(e@),
    }
}

/// Dropping rounds does not depend on the messages that the request came with.
proof fn lemma_drop_rounds_same(t: Trimming, t1: Trimming, keep: nat, st: Dropping)
    requires
        t1.request.with_messages(Seq::empty()) == t.request.with_messages(Seq::empty()),
        t1.budget == t.budget,
        t1.factor == t.factor,
        t1.baseline == t.baseline,
        t1.required == t.required,
    ensures
        t1.drop_rounds(keep, st) == t.drop_rounds(keep, st),
    decreases st.messages.len(),
{
    assert forall|m: Seq<MessageView>| #[trigger] t1.size(m) == t.size(m) by {
        let e = Seq::<MessageView>::empty();
        assert(t1.request.with_messages(m) =~= t1.request.with_messages(e).with_messages(m));
        assert(t.request.with_messages(m) =~= t.request.with_messages(e).with_messages(m));
    }
    if !(rounds(st.messages).len() <= keep || (st.actual <= t.budget && !st.must)) {
        lemma_drop_one_shrinks(t, st);
        assert(t1.drop_one(st) == t.drop_one(st));
        lemma_drop_rounds_same(t, t1, keep, t.drop_one(st));
    }
}

/// One attempt at making a request fit a budget.
fn try_trim(
    request: &mut ChatRequest,
    budget: u64,
    calibration_factor: Real,
    force_drop_oldest_round: bool,
    baseline: Option<&RequestBaseline>,
    required_user_context: Option<&str>,
    locked: bool,
) -> (r: Result<Option<ContextTrimReport>, ClientError>)
    ensures
        (final(request)@, result_view(r)) == (Trimming {
            request: old(request)@,
            budget: budget as nat,
            factor: normalized(calibration_factor),
            baseline: baseline_view(baseline),
            required: borrowed(required_user_context),
            locked,
        }).tried(force_drop_oldest_round),
{
    let ghost t = Trimming {
        request: request@,
        budget: budget as nat,
        factor: normalized(calibration_factor),
        baseline: baseline_view(baseline),
        required: borrowed(required_user_context),
        locked,
    };
    let ghost force = force_drop_oldest_round;
    let before: u64 = calibrated_request_tokens(request, calibration_factor, baseline);
    assert(t.request.with_messages(request@.messages) =~= request@);
    if before <= budget && !force_drop_oldest_round {
        return Ok(None);
    }
    let mut candidate: ChatRequest = request.clone();
    let mut actual: u64 = before;
    let mut touched: Vec<usize> = Vec::new();
    assert(places(touched@) =~= Seq::<int>::empty());
    if actual > budget {
        let (size, marks): (u64, Vec<usize>) = shorten_texts(
            &mut candidate,
            before,
            budget,
            calibration_factor,
            baseline,
            required_user_context,
            locked,
        );
        actual = size;
        touched = marks;
    }
    assert(candidate@ == t.request.with_messages(t.shortened().messages));
    assert(places(touched@).len() == touched@.len());
    let mut prior: usize = 0;
    if actual > budget || force_drop_oldest_round {
        let (kept, total): (Vec<Message>, usize) = take_notes(&candidate.messages);
        candidate.messages = kept;
        prior = total;
        assert(candidate@ =~= t.request.with_messages(without_notes(t.shortened().messages)));
        actual = calibrated_request_tokens(&candidate, calibration_factor, baseline);
    }
    assert(candidate@ == t.request.with_messages(t.unnoted(force).0));
    let keep: usize = if force_drop_oldest_round {
        1
    } else {
        RECENT_ROUNDS_TO_KEEP
    };
    proof {
        let t1 = Trimming { request: candidate@, locked: true, ..t };
        assert(t1.request.with_messages(Seq::empty()) =~= t.request.with_messages(Seq::empty()));
        lemma_drop_rounds_same(
            t,
            t1,
            keep as nat,
            Dropping {
                messages: candidate@.messages,
                actual: actual as nat,
                dropped: 0,
                must: force,
                carried: false,
            },
        );
    }
    let (size, dropped, carried): (u64, usize, bool) = drop_earliest(
        &mut candidate,
        actual,
        budget,
        keep,
        force_drop_oldest_round,
        calibration_factor,
        baseline,
        required_user_context,
    );
    actual = size;
    let ghost d = t.dropped(force);
    assert(candidate@ =~= t.request.with_messages(d.messages));
    if dropped > 0 || prior > 0 {
        let total: usize = prior.saturating_add(dropped);
        let at: usize = front_instructions(candidate.messages.as_slice());
        let note: Message = Message::system(omission_text(total).as_str());
        proof {
            lemma_views_insert(candidate.messages@, at as int, note);
        }
        candidate.messages.insert(at, note);
        assert(candidate@ =~= t.request.with_messages(t.trimmed(force).messages));
        actual = calibrated_request_tokens(&candidate, calibration_factor, baseline);
    }
    assert(candidate@ == t.request.with_messages(t.trimmed(force).messages));
    assert(actual == t.trimmed(force).actual);
    let changed: bool = touched.len() > 0 || dropped > 0 || carried;
    assert(changed == t.trimmed(force).changed());
    if actual > budget || (force_drop_oldest_round && !changed) {
        return Err(
            context_budget_error_with_baseline(&candidate, budget, calibration_factor, baseline),
        );
    }
    let report: ContextTrimReport = ContextTrimReport {
        dropped_rounds: dropped,
        truncated_messages: touched.len(),
        before,
        after: actual,
        budget,
        suggest_compaction: changed,
        estimate_source: estimate_source(baseline),
    };
    *request = candidate;
    if changed {
        Ok(Some(report))
    } else {
        Ok(None)
    }
}

/// Makes a request fit a budget: shortens long texts, then drops the earliest rounds, of which one
/// goes in any case where that is forced. Messages with material that must stay are left whole
/// where that is possible; else the text behind the material is shortened too. A request that
/// cannot be made to fit stays as it is.
pub fn trim_request_to_budget_with_baseline_preserving_context(
    request: &mut ChatRequest,
    budget: u64,
    calibration_factor: Real,
    force_drop_oldest_round: bool,
    baseline: Option<&RequestBaseline>,
    required_user_context: Option<&str>,
) -> (r: Result<Option<ContextTrimReport>, ClientError>)
    ensures
        (final(request)@, result_view(r)) == (Trimming {
            request: old(request)@,
            budget: budget as nat,
            factor: normalized(calibration_factor),
            baseline: baseline_view(baseline),
            required: borrowed(required_user_context),
            locked: true,
        }).outcome(force_drop_oldest_round),
{
    let first: Result<Option<ContextTrimReport>, ClientError> = try_trim(
        request,
        budget,
        calibration_factor,
        force_drop_oldest_round,
        baseline,
        required_user_context,
        true,
    );
    if first.is_ok() || required_user_context.is_none() {
        return first;
    }
    match try_trim(
        request,
        budget,
        calibration_factor,
        force_drop_oldest_round,
        baseline,
        required_user_context,
        false,
    ) {
        Ok(report) => Ok(report),
        Err(_) => first,
    }
}

/// Makes a request fit a budget, with no material that must stay.
pub fn trim_request_to_budget_with_baseline(
    request: &mut ChatRequest,
    budget: u64,
    calibration_factor: Real,
    force_drop_oldest_round: bool,
    baseline: Option<&RequestBaseline>,
) -> (r: Result<Option<ContextTrimReport>, ClientError>)
    ensures
        (final(request)@, result_view(r)) == (Trimming {
            request: old(request)@,
            budget: budget as nat,
            factor: normalized(calibration_factor),
            baseline: baseline_view(baseline),
            required: None,
            locked: true,
        }).outcome(force_drop_oldest_round),
{
    trim_request_to_budget_with_baseline_preserving_context(
        request,
        budget,
        calibration_factor,
        force_drop_oldest_round,
        baseline,
        None,
    )
}

/// Makes a request fit a budget, with neither a reported count nor material that must stay.
pub fn trim_request_to_budget(
    request: &mut ChatRequest,
    budget: u64,
    calibration_factor: Real,
    force_drop_oldest_round: bool,
) -> (r: Result<Option<ContextTrimReport>, ClientError>)
    ensures
        (final(request)@, result_view(r)) == (Trimming {
            request: old(request)@,
            budget: budget as nat,
            factor: normalized(calibration_factor),
            baseline: None,
            required: None,
            locked: true,
        }).outcome(force_drop_oldest_round),
{
    trim_request_to_budget_with_baseline(
        request,
        budget,
        calibration_factor,
        force_drop_oldest_round,
        None,
    )
}

/// Makes a request fit what the window leaves for it.
pub fn trim_request_for_window_preserving_context(
    request: &mut ChatRequest,
    context_window_tokens: u64,
    calibration_factor: Real,
    baseline: Option<&RequestBaseline>,
    options: TrimOptions,
    required_user_context: Option<&str>,
) -> (r: Result<Option<ContextTrimReport>, ClientError>)
    ensures
        (final(request)@, result_view(r)) == (Trimming {
            request: old(request)@,
            budget: budget_of(
                old(request)@.max_tokens,
                context_window_tokens as nat,
                options.budget_scale,
                source_of(baseline),
            ),
            factor: normalized(calibration_factor),
            baseline: baseline_view(baseline),
            required: borrowed(required_user_context),
            locked: true,
        }).outcome(options.force_drop_oldest_round),
{
    let budget: u64 = context_budget(
        request,
        context_window_tokens,
        options.budget_scale,
        estimate_source(baseline),
    );
    trim_request_to_budget_with_baseline_preserving_context(
        request,
        budget,
        calibration_factor,
        options.force_drop_oldest_round,
        baseline,
        required_user_context,
    )
}

} // verus!
