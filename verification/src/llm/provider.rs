//! A session with a service: what is sent, what is made of the answers, and when a request is sent
//! again.

use crate::double::{Fl, Real};
use crate::error::{ClientError, ErrorCode, ErrorView};
use crate::json::{Json, JsonView};
use crate::llm::context_budget::{
    budget_of, calibrated, calibrated_request_tokens, context_budget, estimate_source, source_of,
    ContextTrimReport, TrimOptions,
};
use crate::llm::context_snapshot::{render_reference, rendered, SnapshotView, TurnContextSnapshot};
use crate::llm::handle::{HandleView, SessionHandle};
use crate::llm::repair::{
    repaired, too_long, Repair, CONTEXT_LENGTH_EXCEEDED, UNSUPPORTED_REASONING_CONTENT,
};
use crate::llm::session::{
    push_whole_calls, push_whole_texts, whole_calls, whole_output, whole_texts, whole_turn,
};
use crate::llm::stream_turn::{call_events, OutputView, TurnOutput};
use crate::llm::token_estimate::{
    capped, estimate_request_tokens, normalized, observed_factor, request_tokens, BaselineView,
    RequestBaseline, TokenCalibrator,
};
use crate::llm::tool::ToolRegistry;
use crate::llm::trim::{
    budget_error, context_budget_error_with_baseline, trim_request_for_window_preserving_context,
    trim_request_to_budget_with_baseline_preserving_context, Trimming,
};
use crate::llm::types::{
    ChatRequest, ChatResponse, ChoiceView, RequestView, SessionEvent, SessionEventView, Usage,
};
use crate::model::{lemma_views_push, view_opt, views, Duplicate};
use crate::text::same_text;
use std::sync::Arc;
use vstd::prelude::*;

verus! {

/// What a session is set up with.
#[derive(Debug)]
pub struct SessionConfig {
    pub base_url: String,
    pub api_key: String,
    pub event_buffer: usize,
    pub max_tool_rounds: usize,
    /// How much the model can take in; `None` where that is unknown.
    pub context_window_tokens: Option<u64>,
}

/// What a setup says.
#[verifier::ext_equal]
pub struct ConfigView {
    pub base_url: Seq<char>,
    pub api_key: Seq<char>,
    pub event_buffer: usize,
    pub max_tool_rounds: usize,
    pub context_window_tokens: Option<u64>,
}

impl View for SessionConfig {
    type V = ConfigView;

    open spec fn view(&self) -> ConfigView {
        ConfigView {
            base_url: self.base_url@,
            api_key: self.api_key@,
            event_buffer: self.event_buffer,
            max_tool_rounds: self.max_tool_rounds,
            context_window_tokens: self.context_window_tokens,
        }
    }
}

/// A session.
#[derive(Debug)]
pub struct LLMSession {
    pub config: SessionConfig,
    pub handle: SessionHandle,
    pub tool_registry: Arc<ToolRegistry>,
    pub token_calibrator: TokenCalibrator,
    pub last_baseline: Option<RequestBaseline>,
    /// The number of the request sent last; a request that is sent again keeps its number.
    pub request_id: u64,
    pub turn_id: u64,
    /// The user message that the turn answers.
    pub usage_turn_id: u64,
    /// Whether the service does not accept what the model thought.
    pub strip_reasoning_content: bool,
}

/// The state of a session.
#[verifier::ext_equal]
pub struct LlmView {
    pub config: ConfigView,
    pub handle: HandleView,
    pub tools: Seq<(Seq<char>, JsonView)>,
    pub factor: Fl,
    pub baseline: Option<BaselineView>,
    pub request_id: u64,
    pub turn_id: u64,
    pub usage_turn_id: u64,
    pub strips_reasoning: bool,
}

impl View for LLMSession {
    type V = LlmView;

    open spec fn view(&self) -> LlmView {
        LlmView {
            config: self.config@,
            handle: self.handle@,
            tools: self.tool_registry@,
            factor: self.token_calibrator.value(),
            baseline: view_opt(self.last_baseline),
            request_id: self.request_id,
            turn_id: self.turn_id,
            usage_turn_id: self.usage_turn_id,
            strips_reasoning: self.strip_reasoning_content,
        }
    }
}

impl Duplicate for RequestBaseline {
    fn duplicate(&self) -> (r: Self) {
        self.clone()
    }
}

/// The place of the material given last to a message.
pub open spec fn material_of(snapshots: Seq<SnapshotView>, id: u64) -> Option<int>
    decreases snapshots.len(),
{
    if snapshots.len() == 0 {
        None
    } else if snapshots.last().owner_node_id == id {
        Some(snapshots.len() - 1)
    } else {
        material_of(snapshots.drop_last(), id)
    }
}

/// The place of the material that counts at the end of a path: that of the last message on it that
/// has any.
pub open spec fn material_on(path: Seq<u64>, snapshots: Seq<SnapshotView>) -> Option<int>
    decreases path.len(),
{
    if path.len() == 0 {
        None
    } else {
        match material_of(snapshots, path.last()) {
            Some(i) => Some(i),
            None => material_on(path.drop_last(), snapshots),
        }
    }
}

fn find_material(snapshots: &Vec<TurnContextSnapshot>, id: u64) -> (r: Option<usize>)
    ensures
        match r {
            Some(i) => material_of(views(snapshots@), id) == Some(i as int) && i
                < snapshots@.len(),
            None => material_of(views(snapshots@), id) is None,
        },
{
    let ghost s = views(snapshots@);
    let mut n: usize = snapshots.len();
    assert(s.take(n as int) =~= s);
    while n > 0
        invariant
            n <= snapshots@.len(),
            s == views(snapshots@),
            material_of(s, id) == material_of(s.take(n as int), id),
        decreases n,
    {
        proof {
            assert(s.take(n as int).drop_last() =~= s.take(n - 1));
            assert(s.take(n as int).last() == snapshots@[n - 1]@);
        }
        if snapshots[n - 1].owner_node_id == id {
            return Some(n - 1);
        }
        n = n - 1;
    }
    None
}

impl LLMSession {
    /// The material that counts at the end of a path.
    pub fn latest_context_snapshot_on_path<'a>(
        path: &Vec<u64>,
        snapshots: &'a Vec<TurnContextSnapshot>,
    ) -> (r: Option<&'a TurnContextSnapshot>)
        ensures
            match r {
                Some(s) => material_on(path@, views(snapshots@)) is Some && s@ == views(
                    snapshots@,
                )[material_on(path@, views(snapshots@))->0],
                None => material_on(path@, views(snapshots@)) is None,
            },
    {
        let ghost s = views(snapshots@);
        let mut n: usize = path.len();
        assert(path@.take(n as int) =~= path@);
        while n > 0
            invariant
                n <= path@.len(),
                s == views(snapshots@),
                material_on(path@, s) == material_on(path@.take(n as int), s),
            decreases n,
        {
            proof {
                assert(path@.take(n as int).drop_last() =~= path@.take(n - 1));
                assert(path@.take(n as int).last() == path@[n - 1]);
            }
            match find_material(snapshots, path[n - 1]) {
                Some(i) => {
                    assert(s[i as int] == snapshots@[i as int]@);
                    return Some(&snapshots[i]);
                },
                None => {},
            }
            n = n - 1;
        }
        None
    }
}

/// A request that goes to the service.
#[derive(Debug)]
pub struct PendingRequest {
    pub request: ChatRequest,
    /// The head when the request was made.
    pub head: Option<u64>,
    pub request_id: u64,
    /// One at first, two where the request is sent again.
    pub attempt: u32,
    /// The size of the request, as estimated.
    pub estimate: u64,
    pub factor: Real,
    pub baseline: Option<RequestBaseline>,
    /// The material that must not be lost.
    pub required: Option<String>,
    /// What the request was made to fit, where it had been too long.
    pub retry_budget: Option<u64>,
}

/// What a request that goes to the service says.
#[verifier::ext_equal]
pub struct PendingView {
    pub request: RequestView,
    pub head: Option<u64>,
    pub request_id: u64,
    pub attempt: u32,
    pub estimate: nat,
    pub factor: Fl,
    pub baseline: Option<BaselineView>,
    pub required: Option<Seq<char>>,
    pub retry_budget: Option<nat>,
}

impl View for PendingRequest {
    type V = PendingView;

    open spec fn view(&self) -> PendingView {
        PendingView {
            request: self.request@,
            head: self.head,
            request_id: self.request_id,
            attempt: self.attempt,
            estimate: self.estimate as nat,
            factor: normalized(self.factor),
            baseline: view_opt(self.baseline),
            required: view_opt(self.required),
            retry_budget: match self.retry_budget {
                Some(n) => Some(n as nat),
                None => None,
            },
        }
    }
}

/// What is to be done next.
#[derive(Debug)]
pub enum Sending {
    /// The request is sent.
    Send(PendingRequest),
    /// The turn is over.
    Done(Result<TurnOutput, ClientError>),
}

/// What is to be done next, as the model has it.
#[verifier::ext_equal]
pub enum SendingView {
    Send(PendingView),
    Done(Result<OutputView, ErrorView>),
}

/// The view of how a turn came out.
pub open spec fn outcome_of(r: Result<TurnOutput, ClientError>) -> Result<OutputView, ErrorView> {
    match r {
        Ok(o) => Ok(o@),
        Err(e) => Err(e@),
    }
}

impl View for Sending {
    type V = SendingView;

    open spec fn view(&self) -> SendingView {
        match *self {
            Sending::Send(p) => SendingView::Send(p@),
            Sending::Done(r) => SendingView::Done(outcome_of(r)),
        }
    }
}

/// A session after a step, what it tells, and what is to be done next.
#[verifier::ext_equal]
pub struct Progress {
    pub session: LlmView,
    pub events: Seq<SessionEventView>,
    pub next: SendingView,
}

/// What a session tells of a request that was trimmed.
pub open spec fn trimmed_event(r: ContextTrimReport) -> SessionEventView {
    SessionEventView::ContextTrimmed {
        dropped_rounds: r.dropped_rounds,
        truncated_messages: r.truncated_messages,
        before: r.before,
        after: r.after,
        suggest_compaction: r.suggest_compaction,
        estimate_source: r.estimate_source.name(),
    }
}

fn trimmed_event_of(r: &ContextTrimReport) -> (e: SessionEvent)
    ensures
        e@ == trimmed_event(*r),
{
    SessionEvent::ContextTrimmed {
        dropped_rounds: r.dropped_rounds,
        truncated_messages: r.truncated_messages,
        before: r.before,
        after: r.after,
        suggest_compaction: r.suggest_compaction,
        estimate_source: r.estimate_source.as_str().to_owned(),
    }
}

/// What a session tells of the counts of an attempt, where there are any.
pub open spec fn usage_events(
    turn_id: u64,
    p: PendingView,
    result: Result<OutputView, ErrorView>,
) -> Seq<SessionEventView> {
    match result {
        Ok(o) => match o.usage {
            Some(usage) => seq![
                SessionEventView::RequestUsage {
                    turn_id,
                    request_id: p.request_id,
                    attempt: p.attempt,
                    usage,
                },
            ],
            None => Seq::empty(),
        },
        Err(_) => Seq::empty(),
    }
}

/// The number behind a given one; the greatest stays.
pub open spec fn following(n: u64) -> u64 {
    if n == u64::MAX {
        n
    } else {
        (n + 1) as u64
    }
}

/// The budget of a request that was too long: seven tenths of what there is.
pub open spec fn retry_budget_of(window: Option<u64>, p: PendingView) -> nat {
    match window {
        Some(w) => budget_of(
            p.request.max_tokens,
            w as nat,
            Real { bits: 0x3fe6_6666_6666_6666 },
            source_of(p.baseline),
        ),
        None => capped(calibrated(p.request, p.factor, p.baseline) * 70) / 100,
    }
}

impl LlmView {
    /// The material that must not be lost: that which counts at the head.
    pub open spec fn required_material(self) -> Option<Seq<char>> {
        let s = self.handle.context_snapshots;
        match material_on(self.handle.tree.head_path(), s) {
            Some(i) => Some(rendered(s[i])),
            None => None,
        }
    }

    /// The baseline that serves for a request.
    pub open spec fn baseline_for(self, req: RequestView) -> Option<BaselineView> {
        match self.baseline {
            Some(b) if b.extended_by(req, self.handle.tree.head, self.handle.tree.head_path()) =>
                Some(b),
            _ => None,
        }
    }

    /// How a request is trimmed before it is sent, given the window.
    pub open spec fn first_trimming(self, req: RequestView, window: u64) -> Trimming {
        Trimming {
            request: req,
            budget: budget_of(
                req.max_tokens,
                window as nat,
                Real { bits: 0x3ff0_0000_0000_0000 },
                source_of(self.baseline_for(req)),
            ),
            factor: self.factor,
            baseline: self.baseline_for(req),
            required: self.required_material(),
            locked: true,
        }
    }

    /// A request as it is sent at first.
    pub open spec fn first_attempt(self, req: RequestView, outgoing: RequestView) -> PendingView {
        PendingView {
            request: outgoing,
            head: self.handle.tree.head,
            request_id: following(self.request_id),
            attempt: 1,
            estimate: request_tokens(outgoing),
            factor: self.factor,
            baseline: self.baseline_for(req),
            required: self.required_material(),
            retry_budget: None,
        }
    }

    /// The beginning of a request: it is numbered, and made to fit the window.
    pub open spec fn begin(self, req: RequestView, cancelled: bool) -> Progress {
        let numbered = LlmView { request_id: following(self.request_id), ..self };
        if cancelled {
            Progress {
                session: self,
                events: Seq::empty(),
                next: SendingView::Done(Ok(OutputView::cancelled())),
            }
        } else {
            match self.config.context_window_tokens {
                None => Progress {
                    session: numbered,
                    events: Seq::empty(),
                    next: SendingView::Send(self.first_attempt(req, req)),
                },
                Some(window) => {
                    let (outgoing, result) = self.first_trimming(req, window).outcome(false);
                    match result {
                        Err(e) => Progress {
                            session: numbered,
                            events: Seq::empty(),
                            next: SendingView::Done(Err(e)),
                        },
                        Ok(report) => Progress {
                            session: numbered,
                            events: match report {
                                Some(r) => seq![trimmed_event(r)],
                                None => Seq::empty(),
                            },
                            next: SendingView::Send(self.first_attempt(req, outgoing)),
                        },
                    }
                },
            }
        }
    }

    /// With the counts of an answer taken in, where it has any.
    pub open spec fn observed(self, p: PendingView, result: Result<OutputView, ErrorView>) -> LlmView {
        match result {
            Ok(o) => match o.usage {
                Some(u) => LlmView {
                    factor: if u.prompt_tokens > 0 && p.estimate > 0 {
                        observed_factor(self.factor, u.prompt_tokens as nat, p.estimate)
                    } else {
                        self.factor
                    },
                    baseline: match p.head {
                        Some(h) => match BaselineView::of(u.prompt_tokens as int, p.request, h) {
                            Some(b) => Some(b),
                            None => self.baseline,
                        },
                        None => self.baseline,
                    },
                    ..self
                },
                None => self,
            },
            Err(_) => self,
        }
    }

    /// How a request that was too long is trimmed.
    pub open spec fn retry_trimming(self, p: PendingView) -> Trimming {
        Trimming {
            request: p.request,
            budget: retry_budget_of(self.config.context_window_tokens, p),
            factor: p.factor,
            baseline: p.baseline,
            required: p.required,
            locked: true,
        }
    }

    /// What is done after the service refused the first attempt and the request was put right.
    pub open spec fn retried(self, p: PendingView, fixed: Repair) -> Progress {
        let session = LlmView {
            strips_reasoning: self.strips_reasoning || fixed.rule == UNSUPPORTED_REASONING_CONTENT@,
            ..self
        };
        let again = PendingView {
            request: fixed.request,
            attempt: 2,
            estimate: request_tokens(fixed.request),
            retry_budget: None,
            ..p
        };
        if fixed.rule != CONTEXT_LENGTH_EXCEEDED@ {
            Progress { session, events: Seq::empty(), next: SendingView::Send(again) }
        } else {
            let budget = retry_budget_of(self.config.context_window_tokens, p);
            let (shorter, result) = (Trimming { request: fixed.request, ..self.retry_trimming(p) })
                .outcome(true);
            match result {
                Err(e) => Progress {
                    session,
                    events: Seq::empty(),
                    next: SendingView::Done(Err(e)),
                },
                Ok(None) => Progress {
                    session,
                    events: Seq::empty(),
                    next: SendingView::Done(
                        Err(budget_error(shorter, budget, p.factor, p.baseline)),
                    ),
                },
                Ok(Some(report)) => Progress {
                    session,
                    events: seq![trimmed_event(report)],
                    next: SendingView::Send(
                        PendingView {
                            request: shorter,
                            estimate: request_tokens(shorter),
                            retry_budget: Some(budget),
                            ..again
                        },
                    ),
                },
            }
        }
    }

    /// What is done after the first attempt: an answer is taken, and a refusal that says what is
    /// wrong leads to one more attempt.
    pub open spec fn after_first(
        self,
        p: PendingView,
        result: Result<OutputView, ErrorView>,
        cancelled: bool,
    ) -> Progress {
        match result {
            Ok(_) => Progress {
                session: self.observed(p, result),
                events: usage_events(self.usage_turn_id, p, result),
                next: SendingView::Done(result),
            },
            Err(e) => match repaired(p.request, e) {
                None => Progress {
                    session: self,
                    events: Seq::empty(),
                    next: SendingView::Done(result),
                },
                Some(fixed) => if cancelled {
                    Progress {
                        session: self,
                        events: Seq::empty(),
                        next: SendingView::Done(Ok(OutputView::cancelled())),
                    }
                } else {
                    self.retried(p, fixed)
                },
            },
        }
    }

    /// What is done after the second attempt: it counts as it came out, but for a request that is
    /// still too long.
    pub open spec fn after_second(
        self,
        p: PendingView,
        result: Result<OutputView, ErrorView>,
    ) -> Progress {
        Progress {
            session: self.observed(p, result),
            events: usage_events(self.usage_turn_id, p, result),
            next: SendingView::Done(
                match (p.retry_budget, result) {
                    (Some(budget), Err(e)) if too_long(e) => Err(
                        budget_error(p.request, budget, p.factor, p.baseline),
                    ),
                    _ => result,
                },
            ),
        }
    }

    /// What is done after an attempt.
    pub open spec fn after(
        self,
        p: PendingView,
        result: Result<OutputView, ErrorView>,
        cancelled: bool,
    ) -> Progress {
        if p.attempt == 1 {
            self.after_first(p, result, cancelled)
        } else {
            self.after_second(p, result)
        }
    }
}

fn push_usage(
    events: &mut Vec<SessionEvent>,
    turn_id: u64,
    pending: &PendingRequest,
    result: &Result<TurnOutput, ClientError>,
)
    ensures
        views(final(events)@) == views(old(events)@) + usage_events(
            turn_id,
            pending@,
            outcome_of(*result),
        ),
{
    let ghost before = views(events@);
    match result {
        Ok(o) => match o.usage {
            Some(usage) => {
                let event: SessionEvent = SessionEvent::RequestUsage {
                    turn_id,
                    request_id: pending.request_id,
                    attempt: pending.attempt,
                    usage,
                };
                proof {
                    lemma_views_push(events@, event);
                    assert(before.push(event@) =~= before + seq![event@]);
                }
                events.push(event);
            },
            None => {
                assert(before + Seq::<SessionEventView>::empty() =~= before);
            },
        },
        Err(_) => {
            assert(before + Seq::<SessionEventView>::empty() =~= before);
        },
    }
}

fn no_events() -> (r: Vec<SessionEvent>)
    ensures
        views(r@) == Seq::<SessionEventView>::empty(),
{
    let r: Vec<SessionEvent> = Vec::new();
    assert(views(r@) =~= Seq::<SessionEventView>::empty());
    r
}

fn one_event(event: SessionEvent) -> (r: Vec<SessionEvent>)
    ensures
        views(r@) == seq![event@],
{
    let mut r: Vec<SessionEvent> = Vec::new();
    r.push(event);
    assert(views(r@) =~= seq![event@]);
    r
}

impl LLMSession {
    /// Begins a request: numbers it and makes it fit the window.
    pub fn begin_request(&mut self, req: &ChatRequest, cancelled: bool) -> (r: (
        Vec<SessionEvent>,
        Sending,
    ))
        ensures
            (Progress { session: final(self)@, events: views(r.0@), next: r.1@ }) == old(
                self,
            )@.begin(req@, cancelled),
    {
        if cancelled {
            return (no_events(), Sending::Done(Ok(TurnOutput::cancelled())));
        }
        let ghost v = self@;
        let head: Option<u64> = self.handle.tree.head();
        let path: Vec<u64> = self.handle.tree.path_to_head();
        let required: Option<String> = match LLMSession::latest_context_snapshot_on_path(
            &path,
            &self.handle.context_snapshots,
        ) {
            Some(s) => Some(render_reference(s)),
            None => None,
        };
        assert(view_opt(required) == v.required_material());
        let baseline: Option<RequestBaseline> = match &self.last_baseline {
            Some(b) => if b.extends_request(req, head, path.as_slice()) {
                Some(b.clone())
            } else {
                None
            },
            None => None,
        };
        assert(view_opt(baseline) == v.baseline_for(req@));
        let factor: Real = self.token_calibrator.factor();
        self.request_id = self.request_id.saturating_add(1);
        let mut outgoing: ChatRequest = req.clone();
        let mut events: Vec<SessionEvent> = no_events();
        match self.config.context_window_tokens {
            Some(window) => {
                let trimmed: Result<Option<ContextTrimReport>, ClientError> =
                    trim_request_for_window_preserving_context(
                    &mut outgoing,
                    window,
                    factor,
                    baseline.as_ref(),
                    TrimOptions::normal(),
                    match &required {
                        Some(s) => Some(s.as_str()),
                        None => None,
                    },
                );
                match trimmed {
                    Err(e) => {
                        return (events, Sending::Done(Err(e)));
                    },
                    Ok(Some(report)) => {
                        events = one_event(trimmed_event_of(&report));
                    },
                    Ok(None) => {},
                }
            },
            None => {},
        }
        let estimate: u64 = estimate_request_tokens(&outgoing);
        let pending: PendingRequest = PendingRequest {
            request: outgoing,
            head,
            request_id: self.request_id,
            attempt: 1,
            estimate,
            factor,
            baseline,
            required,
            retry_budget: None,
        };
        (events, Sending::Send(pending))
    }

    fn observe_token_usage(
        &mut self,
        pending: &PendingRequest,
        result: &Result<TurnOutput, ClientError>,
    )
        ensures
            final(self)@ == old(self)@.observed(pending@, outcome_of(*result)),
    {
        match result {
            Ok(o) => match o.usage {
                Some(usage) => {
                    let _ = self.token_calibrator.observe(usage.prompt_tokens, pending.estimate);
                    match pending.head {
                        Some(head) => {
                            let made: Option<RequestBaseline> = RequestBaseline::new(
                                usage.prompt_tokens,
                                &pending.request,
                                head,
                            );
                            if made.is_some() {
                                self.last_baseline = made;
                            }
                        },
                        None => {},
                    }
                },
                None => {},
            },
            Err(_) => {},
        }
    }

    fn retry(&mut self, pending: PendingRequest, request: ChatRequest, rule: &str) -> (r: (
        Vec<SessionEvent>,
        Sending,
    ))
        ensures
            (Progress { session: final(self)@, events: views(r.0@), next: r.1@ }) == old(
                self,
            )@.retried(pending@, Repair { request: request@, rule: rule@ }),
    {
        if same_text(rule, UNSUPPORTED_REASONING_CONTENT) {
            self.strip_reasoning_content = true;
        }
        let mut again: ChatRequest = request;
        let mut events: Vec<SessionEvent> = no_events();
        let mut retry_budget: Option<u64> = None;
        if same_text(rule, CONTEXT_LENGTH_EXCEEDED) {
            let options: TrimOptions = TrimOptions::overflow_retry();
            let budget: u64 = match self.config.context_window_tokens {
                Some(window) => context_budget(
                    &pending.request,
                    window,
                    options.budget_scale,
                    estimate_source(pending.baseline.as_ref()),
                ),
                None => {
                    let size: u64 = calibrated_request_tokens(
                        &pending.request,
                        pending.factor,
                        pending.baseline.as_ref(),
                    );
                    let product: u64 = match size.checked_mul(70) {
                        Some(x) => x,
                        None => u64::MAX,
                    };
                    product / 100
                },
            };
            assert(budget == retry_budget_of(old(self)@.config.context_window_tokens, pending@));
            let trimmed: Result<Option<ContextTrimReport>, ClientError> =
                trim_request_to_budget_with_baseline_preserving_context(
                &mut again,
                budget,
                pending.factor,
                options.force_drop_oldest_round,
                pending.baseline.as_ref(),
                match &pending.required {
                    Some(s) => Some(s.as_str()),
                    None => None,
                },
            );
            match trimmed {
                Err(e) => {
                    return (events, Sending::Done(Err(e)));
                },
                Ok(None) => {
                    let e: ClientError = context_budget_error_with_baseline(
                        &again,
                        budget,
                        pending.factor,
                        pending.baseline.as_ref(),
                    );
                    return (events, Sending::Done(Err(e)));
                },
                Ok(Some(report)) => {
                    events = one_event(trimmed_event_of(&report));
                    retry_budget = Some(budget);
                },
            }
        }
        let estimate: u64 = estimate_request_tokens(&again);
        let next: PendingRequest = PendingRequest {
            request: again,
            head: pending.head,
            request_id: pending.request_id,
            attempt: 2,
            estimate,
            factor: pending.factor,
            baseline: pending.baseline,
            required: pending.required,
            retry_budget,
        };
        (events, Sending::Send(next))
    }

    /// Takes in how an attempt came out: tells of its counts, learns from them, and decides whether
    /// the request is sent once more.
    pub fn after_attempt(
        &mut self,
        pending: PendingRequest,
        result: Result<TurnOutput, ClientError>,
        cancelled: bool,
    ) -> (r: (Vec<SessionEvent>, Sending))
        ensures
            (Progress { session: final(self)@, events: views(r.0@), next: r.1@ }) == old(
                self,
            )@.after(pending@, outcome_of(result), cancelled),
    {
        let mut events: Vec<SessionEvent> = no_events();
        push_usage(&mut events, self.usage_turn_id, &pending, &result);
        assert(views(events@) =~= usage_events(
            old(self)@.usage_turn_id,
            pending@,
            outcome_of(result),
        ));
        if pending.attempt == 1 {
            match result {
                Ok(output) => {
                    let result: Result<TurnOutput, ClientError> = Ok(output);
                    self.observe_token_usage(&pending, &result);
                    (events, Sending::Done(result))
                },
                Err(error) => match LLMSession::repair_after_bad_request(&pending.request, &error) {
                    None => (no_events(), Sending::Done(Err(error))),
                    Some((request, rule)) => if cancelled {
                        (no_events(), Sending::Done(Ok(TurnOutput::cancelled())))
                    } else {
                        self.retry(pending, request, rule)
                    },
                },
            }
        } else {
            self.observe_token_usage(&pending, &result);
            match result {
                Ok(output) => (events, Sending::Done(Ok(output))),
                Err(error) => match pending.retry_budget {
                    Some(budget) => if LLMSession::is_context_overflow_error(&error) {
                        let e: ClientError = context_budget_error_with_baseline(
                            &pending.request,
                            budget,
                            pending.factor,
                            pending.baseline.as_ref(),
                        );
                        (events, Sending::Done(Err(e)))
                    } else {
                        (events, Sending::Done(Err(error)))
                    },
                    None => (events, Sending::Done(Err(error))),
                },
            }
        }
    }
}

/// What an answer that came in one piece gives, or why it gives nothing.
pub open spec fn whole_answer(
    body: Seq<char>,
    parsed: Result<(Seq<ChoiceView>, Option<Usage>), Seq<char>>,
) -> Result<(Seq<SessionEventView>, OutputView), ErrorView> {
    if body.len() == 0 {
        Err(ErrorView::bare(ErrorCode::LlmResponseEmpty, "LLM 响应为空"@))
    } else {
        match parsed {
            Err(source) => Err(
                ErrorView::bare(
                    ErrorCode::LlmResponseParseError,
                    "LLM 响应 JSON 解析失败"@,
                ).with("source"@, JsonView::Text(source)),
            ),
            Ok((choices, usage)) => if choices.len() == 0 {
                Err(
                    ErrorView::bare(ErrorCode::LlmResponseParseError, "LLM 响应 choices 为空"@),
                )
            } else {
                Ok(
                    (
                        whole_texts(choices[0]) + call_events(whole_calls(choices[0])),
                        whole_output(choices[0], usage),
                    ),
                )
            },
        }
    }
}

/// The view of what a body was read as.
pub open spec fn response_of(r: Result<ChatResponse, String>) -> Result<
    (Seq<ChoiceView>, Option<Usage>),
    Seq<char>,
> {
    match r {
        Ok(response) => Ok((views(response.choices@), response.usage)),
        Err(source) => Err(source@),
    }
}

impl LLMSession {
    /// Takes in an answer that came in one piece: the body, and what it was read as.
    pub fn handle_non_stream(body: &str, parsed: Result<ChatResponse, String>) -> (r: Result<
        (Vec<SessionEvent>, TurnOutput),
        ClientError,
    >)
        ensures
            match r {
                Ok((events, output)) => whole_answer(body@, response_of(parsed)) == Ok::<_, ErrorView>(
                    (views(events@), output@),
                ),
                Err(e) => whole_answer(body@, response_of(parsed)) == Err::<
                    (Seq<SessionEventView>, OutputView),
                    _,
                >(e@),
            },
    {
        if body.is_empty() {
            return Err(ClientError::new(ErrorCode::LlmResponseEmpty, "LLM 响应为空"));
        }
        match parsed {
            Err(source) => Err(
                ClientError::new(
                    ErrorCode::LlmResponseParseError,
                    "LLM 响应 JSON 解析失败",
                ).with_kv("source", Json::text(source.as_str())),
            ),
            Ok(response) => {
                if response.choices.len() == 0 {
                    return Err(
                        ClientError::new(
                            ErrorCode::LlmResponseParseError,
                            "LLM 响应 choices 为空",
                        ),
                    );
                }
                assert(views(response.choices@)[0] == response.choices@[0]@);
                let mut events: Vec<SessionEvent> = no_events();
                push_whole_texts(&mut events, &response.choices[0]);
                push_whole_calls(&mut events, &response.choices[0]);
                assert(views(events@) =~= whole_texts(response.choices@[0]@) + call_events(
                    whole_calls(response.choices@[0]@),
                ));
                let output: TurnOutput = whole_turn(&response.choices[0], response.usage);
                Ok((events, output))
            },
        }
    }
}

} // verus!
