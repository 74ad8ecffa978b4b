//! Errors of the client: a code, a message for people, and details by key.

use crate::json::{find_member, json_parsed, member, members, text, Json, JsonView};
use crate::model::view_opt;
use vstd::prelude::*;

verus! {

/// What kind of failure an error reports.
#[derive(Clone, Copy, Debug, PartialEq, Eq, Structural)]
pub enum ErrorCode {
    /// The request does not fit the context window, trimmed as far as it may be.
    ContextBudgetExceeded,
    /// The service refused the request as malformed.
    HttpBadRequest,
    /// The service answered with nothing.
    LlmResponseEmpty,
    /// The answer of the service could not be read.
    LlmResponseParseError,
    /// The stream of the service broke its protocol.
    LlmStreamProtocolError,
    /// Any other failure.
    Internal,
}

/// A failure with its details.
#[derive(Debug)]
pub struct ClientError {
    pub code: ErrorCode,
    pub message: String,
    pub detail: Vec<(String, Json)>,
}

/// What an error says.
#[verifier::ext_equal]
pub struct ErrorView {
    pub code: ErrorCode,
    pub message: Seq<char>,
    pub detail: Map<Seq<char>, JsonView>,
}

impl View for ClientError {
    type V = ErrorView;

    open spec fn view(&self) -> ErrorView {
        ErrorView { code: self.code, message: self.message@, detail: members(self.detail@) }
    }
}

impl ErrorView {
    /// An error without details.
    pub open spec fn bare(code: ErrorCode, message: Seq<char>) -> ErrorView {
        ErrorView { code, message, detail: Map::empty() }
    }

    /// The error with one more detail.
    pub open spec fn with(self, key: Seq<char>, value: JsonView) -> ErrorView {
        ErrorView { detail: self.detail.insert(key, value), ..self }
    }

    /// The detail under a key, if it is a text.
    pub open spec fn text(self, key: Seq<char>) -> Option<Seq<char>> {
        text(
            if self.detail.dom().contains(key) {
                Some(self.detail[key])
            } else {
                None
            },
        )
    }
}

impl ClientError {
    /// An error without details.
    pub fn new(code: ErrorCode, message: &str) -> (r: ClientError)
        ensures
            r@ == ErrorView::bare(code, message@),
    {
        ClientError { code, message: message.to_owned(), detail: Vec::new() }
    }

    /// The error with one more detail, in place of an earlier one under the same key.
    pub fn with_kv(self, key: &str, value: Json) -> (r: ClientError)
        ensures
            r@ == self@.with(key@, value@),
    {
        let mut e: ClientError = self;
        let ghost before = e.detail@;
        e.detail.push((key.to_owned(), value));
        assert(e.detail@.drop_last() =~= before);
        e
    }

    /// The detail under a key.
    pub fn get(&self, key: &str) -> (r: Option<&Json>)
        ensures
            match r {
                Some(j) => self@.detail.dom().contains(key@) && self@.detail[key@] == j@,
                None => !self@.detail.dom().contains(key@),
            },
    {
        find_member(&self.detail, key)
    }

    /// The detail under a key, if it is a text.
    pub fn text(&self, key: &str) -> (r: Option<&str>)
        ensures
            match r {
                Some(s) => self@.text(key@) == Some(s@),
                None => self@.text(key@) is None,
            },
    {
        match self.get(key) {
            Some(j) => j.as_str(),
            None => None,
        }
    }
}

impl Clone for ClientError {
    fn clone(&self) -> (r: Self)
        ensures
            r@ == self@,
    {
        let mut detail: Vec<(String, Json)> = Vec::new();
        let mut i: usize = 0;
        while i < self.detail.len()
            invariant
                i <= self.detail@.len(),
                members(detail@) == members(self.detail@.take(i as int)),
            decreases self.detail@.len() - i,
        {
            assert(self.detail@.take(i + 1).drop_last() =~= self.detail@.take(i as int));
            let ghost before = detail@;
            detail.push((self.detail[i].0.clone(), self.detail[i].1.clone()));
            assert(detail@.drop_last() =~= before);
            i = i + 1;
        }
        assert(self.detail@.take(i as int) =~= self.detail@);
        ClientError { code: self.code, message: self.message.clone(), detail }
    }
}

/// What a service says of a request that it refused: the message in the body, where the body is JSON
/// and has one, else the whole body.
pub open spec fn provider_message(body: Seq<char>, parsed: Option<JsonView>) -> Seq<char> {
    let told = match parsed {
        Some(v) => match member(v, "error"@) {
            Some(e) => text(member(e, "message"@)),
            None => None,
        },
        None => None,
    };
    match told {
        Some(message) => message,
        None => body,
    }
}

/// The error for a request that the service refused as malformed.
pub open spec fn refused(message: Seq<char>) -> ErrorView {
    ErrorView::bare(ErrorCode::HttpBadRequest, "请求参数错误"@).with(
        "provider_message"@,
        JsonView::Text(message),
    )
}

/// The error for a request that the service refused as malformed, given what its answer holds where
/// it is JSON.
pub fn refusal_error(body: &str, parsed: &Option<Json>) -> (r: ClientError)
    ensures
        r@ == refused(provider_message(body@, view_opt(*parsed))),
{
    let told: Option<&str> = match parsed {
        Some(v) => match v.get("error") {
            Some(e) => match e.get("message") {
                Some(m) => m.as_str(),
                None => None,
            },
            None => None,
        },
        None => None,
    };
    let message: &str = match told {
        Some(message) => message,
        None => body,
    };
    ClientError::new(ErrorCode::HttpBadRequest, "请求参数错误").with_kv(
        "provider_message",
        Json::text(message),
    )
}

/// The error for a request that the service refused as malformed, given its answer.
pub fn bad_request_error(body: &str) -> (r: ClientError)
    ensures
        r@ == refused(provider_message(body@, json_parsed(body@))),
{
    refusal_error(body, &Json::parse(body))
}

/// What the service said of a request that it refused can be read back from the error.
pub proof fn lemma_refusal_reads_back(message: Seq<char>)
    ensures
        refused(message).code == ErrorCode::HttpBadRequest,
        refused(message).text("provider_message"@) == Some(message),
{
}

/// What a service says of a request that it refused is found in its answer, and is the answer itself
/// where that holds no such text.
pub proof fn lemma_what_a_service_says(
    body: Seq<char>,
    answer: Map<Seq<char>, JsonView>,
    error: Map<Seq<char>, JsonView>,
    message: Seq<char>,
)
    ensures
        provider_message(body, None) == body,
        !answer.dom().contains("error"@) ==> provider_message(body, Some(JsonView::Object(answer)))
            == body,
        answer.dom().contains("error"@) && answer["error"@] == JsonView::Object(error)
            && error.dom().contains("message"@) && error["message"@] == JsonView::Text(message)
            ==> provider_message(body, Some(JsonView::Object(answer))) == message,
        answer.dom().contains("error"@) && answer["error"@] == JsonView::Object(error)
            && !error.dom().contains("message"@) ==> provider_message(
            body,
            Some(JsonView::Object(answer)),
        ) == body,
{
}

} // verus!
