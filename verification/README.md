# core_ai_client

The logic of a client for chat models, verified with Verus: conversations, requests, streams, tools
and budgets. `src/` is the library. Verus checks all of it: the contracts are proved from the bodies,
except for the few declarations under "What is trusted" below, whose bodies call other crates or the
standard library and whose contracts are believed. `app/` is ordinary Rust around it, which Verus
does not see: HTTP, serialization, plugins in WebAssembly, and the tasks that drive sessions.

## Layout of the library

| Module | What it holds |
|---|---|
| `llm::types` | messages, requests, responses, usage counts, events |
| `llm::token_estimate` | estimates of sizes, calibration, reported counts as baselines |
| `llm::context_budget`, `llm::rounds`, `llm::truncation`, `llm::trim` | making a request fit a context window |
| `llm::context_snapshot` | reference material that is frozen with a user message |
| `llm::stream_decoder`, `llm::tool_calls`, `llm::stream_turn` | streams of responses, put together to a turn |
| `llm::tree`, `llm::handle`, `llm::assembly` | the conversation tree, what users of a session see and change, and the requests made from them |
| `llm::provider`, `llm::repair`, `llm::sanitize`, `llm::followup` | sending, sending again, putting messages right, and what follows tool calls |
| `llm::turn` | the course of a turn: the context it is assembled from, what is taken in, the request that is sent |
| `llm::session` | a session with a plain history |
| `llm::tool` | descriptions of tools |
| `orchestrator` | what a turn is made of, given what the caller knows |
| `plugin` | the plugins that there are |
| `json`, `digest`, `text`, `text_map`, `double`, `rounding`, `bytes`, `arrange`, `model`, `error` | what the rest is built on |

`llm::trim_laws`, `llm::round_laws`, `llm::session_laws` and `llm::stream_laws` state what holds of
several functions together: that a trimmed request fits and keeps its latest question, that exactly
the first rounds are dropped, that a request is sent at most twice, that a turn follows the context
that it brought, that requests of a conversation grow from one another, that what is recorded is what
was told. Other laws stand beside the functions that they are about.

Numbers in double precision are computed with integers in `double`, rounded as the hardware rounds
them, so that estimates and budgets have exact contracts.

## What is trusted

`serde_json` (values, reading and printing), `sha2`, `hex`, the clock and `String::push`. Each has a
declaration with a comment that says what is claimed of it.
