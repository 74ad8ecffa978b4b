//! The course of a turn: the context that it is assembled from, what is taken in, and the request
//! that is sent.

use crate::error::{ClientError, ErrorCode, ErrorView};
use crate::llm::assembly::{acceptable, configured};
use crate::llm::followup::{continuation_text, followed};
use crate::llm::handle::HandleView;
use crate::llm::provider::{LLMSession, LlmView};
use crate::llm::types::{ChatRequest, MessageView, RequestView};
use crate::model::views;
use crate::orchestrator::context::{AssembledTurn, ContextView, TaskContext, TurnView};
use crate::orchestrator::orchestrator::Orchestrate;
use vstd::prelude::*;

verus! {

/// What the user is told where there are no numbers left for messages.
pub const NUMBERS_USED_UP: &'static str = "消息编号已用尽";

/// Whether a configuration is what an orchestrator may make of a context; without an orchestrator
/// the configuration says nothing.
pub open spec fn assembles<O: Orchestrate>(
    orchestrator: Option<&O>,
    context: TaskContext,
    r: Result<AssembledTurn, ClientError>,
) -> bool {
    match orchestrator {
        Some(o) => call_ensures(O::assemble, (o, &context), r),
        None => r is Ok && r->Ok_0@ == TurnView::nothing(),
    }
}

/// Makes the configuration of a turn from a context.
pub fn assemble_turn<O: Orchestrate>(orchestrator: Option<&O>, context: &TaskContext) -> (r: Result<
    AssembledTurn,
    ClientError,
>)
    ensures
        assembles(orchestrator, *context, r),
{
    match orchestrator {
        Some(o) => o.assemble(context),
        None => Ok(AssembledTurn::default()),
    }
}

/// What a session is after it took in what the user said, and what it answers: the number of the
/// message, or why the turn could not be assembled or recorded.
pub open spec fn heard(
    v: LlmView,
    message: Seq<char>,
    turn: Result<TurnView, ErrorView>,
    timestamp: Seq<char>,
) -> (LlmView, Result<u64, ErrorView>) {
    match turn {
        Ok(t) => if v.handle.tree.next_id == u64::MAX {
            (v, Err(ErrorView::bare(ErrorCode::Internal, NUMBERS_USED_UP@)))
        } else {
            (v.hearing(message, t.context_messages, timestamp), Ok(v.handle.tree.next_id))
        },
        Err(e) => (v, Err(e)),
    }
}

/// A configuration or an error, as the model has it.
pub open spec fn turn_result(r: Result<AssembledTurn, ClientError>) -> Result<TurnView, ErrorView> {
    match r {
        Ok(t) => Ok(t@),
        Err(e) => Err(e@),
    }
}

/// A number or an error, as the model has it.
pub open spec fn number_result(r: Result<u64, ClientError>) -> Result<u64, ErrorView> {
    match r {
        Ok(id) => Ok(id),
        Err(e) => Err(e@),
    }
}

/// The context that a turn is assembled from: its own where it brought one, else the latest.
pub open spec fn context_of_turn(own: Option<TaskContext>, latest: TaskContext) -> TaskContext {
    match own {
        Some(context) => context,
        None => latest,
    }
}

/// The request of a turn. The first one answers the conversation, or goes on with an answer; the
/// others follow the results of tools.
pub open spec fn request_of_turn(
    v: LlmView,
    continuation: Option<u64>,
    turn: TurnView,
    withdrawn: Seq<Seq<char>>,
    rounds: nat,
    last: bool,
) -> RequestView {
    let told = acceptable(v.request().messages, v.strips_reasoning);
    if rounds == 0 && !last {
        let messages = match continuation {
            Some(id) => told.push(
                MessageView::plain("user"@, continuation_text(v.handle.node(id)->0.message)),
            ),
            None => told,
        };
        configured(v.request().with_messages(messages), turn)
    } else {
        followed(
            configured(v.request().with_messages(told), turn),
            withdrawn,
            rounds >= v.config.max_tool_rounds,
        )
    }
}

impl LlmView {
    /// After a context was told.
    pub open spec fn told(self, context: ContextView) -> LlmView {
        LlmView { handle: HandleView { context, ..self.handle }, ..self }
    }
}

impl LLMSession {
    /// Takes in what the user said, given the configuration of the turn.
    pub fn hear(
        &mut self,
        message: &str,
        turn: Result<AssembledTurn, ClientError>,
        timestamp: &str,
    ) -> (r: Result<u64, ClientError>)
        requires
            old(self)@.handle.wf(),
        ensures
            final(self)@.handle.wf(),
            (final(self)@, number_result(r)) == heard(
                old(self)@,
                message@,
                turn_result(turn),
                timestamp@,
            ),
    {
        match turn {
            Ok(t) => match self.capture_user_turn(message, &t, timestamp) {
                Some(id) => Ok(id),
                None => Err(ClientError::new(ErrorCode::Internal, NUMBERS_USED_UP)),
            },
            Err(e) => Err(e),
        }
    }

    /// Takes in what the user said. The turn is assembled from the context that it brought; where it
    /// brought none, from the one told last. What was told last stays as it is.
    pub fn submit_user_turn<O: Orchestrate>(
        &mut self,
        orchestrator: Option<&O>,
        message: &str,
        context: Option<TaskContext>,
        timestamp: &str,
    ) -> (r: Result<u64, ClientError>)
        requires
            old(self)@.handle.wf(),
        ensures
            final(self)@.handle.wf(),
            exists|turn: Result<AssembledTurn, ClientError>|
                #[trigger] assembles(
                    orchestrator,
                    context_of_turn(context, old(self).handle.context),
                    turn,
                ) && (final(self)@, number_result(r)) == heard(
                    old(self)@,
                    message@,
                    turn_result(turn),
                    timestamp@,
                ),
    {
        let turn: Result<AssembledTurn, ClientError> = match &context {
            Some(own) => assemble_turn(orchestrator, own),
            None => assemble_turn(orchestrator, &self.handle.context),
        };
        let ghost made = turn;
        let r: Result<u64, ClientError> = self.hear(message, turn, timestamp);
        assert(assembles(orchestrator, context_of_turn(context, old(self).handle.context), made));
        r
    }

    /// The request of a turn, given its configuration: a first request, or one behind the results
    /// of tools. An answer that cannot be gone on with is an error.
    pub fn turn_request(
        &self,
        continuation: Option<u64>,
        turn: &AssembledTurn,
        withdrawn: &Vec<String>,
        rounds: usize,
        last: bool,
    ) -> (r: Result<ChatRequest, ClientError>)
        ensures
            match r {
                Ok(q) => q@ == request_of_turn(
                    self@,
                    continuation,
                    turn@,
                    views(withdrawn@),
                    rounds as nat,
                    last,
                ) && (rounds == 0 && !last && continuation is Some
                    ==> self@.handle.continuation_error(continuation->0) is None),
                Err(e) => rounds == 0 && !last && continuation is Some
                    && self@.handle.continuation_error(continuation->0) is Some && e@
                    == ErrorView::bare(
                    ErrorCode::Internal,
                    self@.handle.continuation_error(continuation->0)->0,
                ),
            },
    {
        if rounds == 0 && !last {
            let request: ChatRequest = match continuation {
                Some(node_id) => match self.continuation_request(node_id) {
                    Ok(request) => request,
                    Err(message) => {
                        return Err(ClientError::new(ErrorCode::Internal, message.as_str()));
                    },
                },
                None => self.sanitize_request(self.snapshot()),
            };
            return Ok(self.apply_assembled(request, turn));
        }
        let request: ChatRequest = self.apply_assembled(
            self.sanitize_request(self.snapshot()),
            turn,
        );
        Ok(self.followup_request(request, withdrawn, rounds))
    }
}

} // verus!
