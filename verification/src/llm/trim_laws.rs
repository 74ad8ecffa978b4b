//! What holds of every trimmed request.

use crate::arrange::{
    arranged, lemma_arranged_from, lemma_arranged_in_order, lemma_arranged_items, ranks_agree,
    Ranked,
};
use crate::double::Fl;
use crate::error::ErrorCode;
use crate::llm::context_budget::{
    available, calibrated, candidates, field_text, fixed_front, loose_part, safety_reserve, share,
    text_candidate, with_field, Candidate, EstimateSource, TextField,
};
use crate::llm::context_snapshot::{lemma_compiled_parts, with_reference, USER_REQUEST_HEADING};
use crate::llm::rounds::{
    first_round_end, instructions, last_user, leading_instructions, lemma_first_round,
    lemma_last_user, lemma_note_reads_back, lemma_second_start, omission_note, omitted, rounds,
    size_capped, spoken, without_first_round, without_notes,
};
use crate::json::{member, JsonView};
use crate::llm::token_estimate::{capped, message_tokens, scaled, BaselineView};
use crate::llm::trim::{
    budget_error, has_reference, largest_values, lemma_drop_one_shrinks, lemma_pass_shrinks, sized,
    with_required, Dropping, Shortening, SizedMessage, Trimming,
};
use crate::llm::truncation::{target_chars, truncated, visible, TRUNCATED_MARKER_PREFIX};
use crate::llm::types::{lemma_roles, MessageView, RequestView};
use crate::model::text_or_empty;
use crate::text::{first_from, occurs_at};
use vstd::prelude::*;

verus! {

/// Whether messages differ from others at most in texts that may be shortened: neither in number,
/// order, roles or tool calls, nor in any instruction or the last user message; and material that
/// must stay stays at the front of the contents that begin with it.
pub open spec fn only_texts_differ(
    a: Seq<MessageView>,
    b: Seq<MessageView>,
    required: Option<Seq<char>>,
) -> bool {
    &&& a.len() == b.len()
    &&& forall|i: int| #![trigger b[i]]
        0 <= i < a.len() ==> {
            &&& a[i].role == b[i].role
            &&& a[i].tool_call_id == b[i].tool_call_id
            &&& a[i].tool_calls == b[i].tool_calls
            &&& a[i].content is Some == b[i].content is Some
            &&& a[i].reasoning_content is Some == b[i].reasoning_content is Some
            &&& a[i].role == "system"@ || last_user(a) == Some(i) ==> a[i] == b[i]
            &&& required is Some ==> front_stays(a[i].content, b[i].content, required->0)
        }
}

/// Whether a content keeps given material at its front, and the heading behind it.
pub open spec fn front_stays(
    a: Option<Seq<char>>,
    b: Option<Seq<char>>,
    required: Seq<char>,
) -> bool {
    a is Some ==> b is Some && (occurs_at(a->0, required, 0) ==> occurs_at(b->0, required, 0)) && (
    occurs_at(a->0, required + USER_REQUEST_HEADING@, 0) ==> occurs_at(
        b->0,
        required + USER_REQUEST_HEADING@,
        0,
    ))
}

proof fn lemma_front_stays(text: Seq<char>, t: Seq<char>, required: Seq<char>, locked: bool)
    ensures
        front_stays(
            Some(text),
            Some(text.take(fixed_front(text, TextField::Content, Some(required), locked)) + t),
            required,
        ),
{
    let h = USER_REQUEST_HEADING@;
    let f = fixed_front(text, TextField::Content, Some(required), locked);
    let whole = text.take(f) + t;
    if occurs_at(text, required, 0) {
        assert(whole.subrange(0, required.len() as int) =~= text.subrange(
            0,
            required.len() as int,
        ));
    }
    if occurs_at(text, required + h, 0) {
        let both = text.subrange(0, (required + h).len() as int);
        assert(both.subrange(0, required.len() as int) =~= text.subrange(
            0,
            required.len() as int,
        ));
        assert((required + h).subrange(0, required.len() as int) =~= required);
        assert(occurs_at(text, required, 0));
        assert(both.skip(required.len() as int) =~= text.subrange(
            required.len() as int,
            (required.len() + h.len()) as int,
        ));
        assert((required + h).skip(required.len() as int) =~= h);
        assert(occurs_at(text, h, required.len() as int));
        assert(whole.subrange(0, (required + h).len() as int) =~= both);
    }
}

proof fn lemma_only_texts_same_last_user(
    a: Seq<MessageView>,
    b: Seq<MessageView>,
    required: Option<Seq<char>>,
)
    requires
        only_texts_differ(a, b, required),
    ensures
        last_user(a) == last_user(b),
{
    lemma_last_user(a);
    lemma_last_user(b);
    match last_user(a) {
        Some(i) => {
            assert(b[i].role == "user"@);
            match last_user(b) {
                Some(j) => {
                    if i < j {
                        assert(a[j].role == b[j].role);
                    }
                    if j < i {
                        assert(b[i].role != "user"@);
                    }
                },
                None => {},
            }
        },
        None => {
            match last_user(b) {
                Some(j) => {
                    assert(a[j].role == b[j].role);
                },
                None => {},
            }
        },
    }
}

/// A candidate is a text of a message that may be shortened.
proof fn lemma_candidate(
    s: Seq<MessageView>,
    protected: Option<int>,
    required: Option<Seq<char>>,
    locked: bool,
    c: Candidate,
)
    requires
        candidates(s, protected, required, locked).contains(c),
        s.len() <= usize::MAX,
    ensures
        c.index < s.len(),
        s[c.index as int].role != "system"@,
        protected != Some(c.index as int),
    decreases s.len(),
{
    if s.len() > 0 {
        let t = s.drop_last();
        let i = s.len() - 1;
        let earlier = candidates(t, protected, required, locked);
        if earlier.contains(c) {
            lemma_candidate(t, protected, required, locked, c);
            assert(s[c.index as int] == t[c.index as int]);
        } else {
            let x = text_candidate(s.last(), i, TextField::Content, required, locked);
            let y = text_candidate(s.last(), i, TextField::Reasoning, required, locked);
            let all = candidates(s, protected, required, locked);
            let k = choose|k: int| 0 <= k < all.len() && all[k] == c;
            assert(all == earlier + x + y);
            if k < earlier.len() {
                assert(earlier[k] == c);
            } else if k < earlier.len() + x.len() {
                assert(x[k - earlier.len()] == c);
            } else {
                assert(y[k - earlier.len() - x.len()] == c);
            }
        }
    }
}

proof fn lemma_attempt_texts(
    t: Trimming,
    a: Seq<MessageView>,
    start: Seq<MessageView>,
    st: Shortening,
    c: Candidate,
)
    requires
        only_texts_differ(a, st.messages, t.required),
        only_texts_differ(a, start, t.required),
        st.actual == t.size(st.messages),
        a.len() <= usize::MAX,
        candidates(start, last_user(a), t.required, t.locked).contains(c),
    ensures
        only_texts_differ(a, t.attempt(st, c).messages, t.required),
        t.attempt(st, c).actual == t.size(t.attempt(st, c).messages),
{
    lemma_candidate(start, last_user(a), t.required, t.locked, c);
    let i = c.index as int;
    assert(start[i].role == a[i].role);
    let next = t.attempt(st, c);
    if next != st {
        let text = field_text(st.messages[i], c.field)->0;
        assert(st.messages[i].role == a[i].role);
        assert forall|j: int| #![trigger next.messages[j]] 0 <= j < a.len() implies {
            &&& a[j].role == next.messages[j].role
            &&& a[j].tool_call_id == next.messages[j].tool_call_id
            &&& a[j].tool_calls == next.messages[j].tool_calls
            &&& a[j].content is Some == next.messages[j].content is Some
            &&& a[j].reasoning_content is Some == next.messages[j].reasoning_content is Some
            &&& a[j].role == "system"@ || last_user(a) == Some(j) ==> a[j] == next.messages[j]
            &&& t.required is Some ==> front_stays(
                a[j].content,
                next.messages[j].content,
                t.required->0,
            )
        } by {
            assert(a[j].role == st.messages[j].role);
            assert(start[j].role == a[j].role);
            if j == i && c.field == TextField::Content && t.required is Some {
                let part = loose_part(text, c.field, t.required, t.locked);
                let cut = truncated(
                    part,
                    target_chars(part, (st.actual - t.budget) as nat, t.factor),
                )->0;
                lemma_front_stays(text, cut, t.required->0, t.locked);
            }
        }
    }
}

proof fn lemma_pass_texts(
    t: Trimming,
    a: Seq<MessageView>,
    start: Seq<MessageView>,
    st: Shortening,
    cs: Seq<Candidate>,
)
    requires
        only_texts_differ(a, st.messages, t.required),
        only_texts_differ(a, start, t.required),
        st.actual == t.size(st.messages),
        a.len() <= usize::MAX,
        forall|k: int|
            0 <= k < cs.len() ==> candidates(start, last_user(a), t.required, t.locked).contains(
                #[trigger] cs[k],
            ),
    ensures
        only_texts_differ(a, t.pass(st, cs).messages, t.required),
        t.pass(st, cs).actual == t.size(t.pass(st, cs).messages),
    decreases cs.len(),
{
    if cs.len() > 0 {
        let earlier = cs.drop_last();
        assert forall|k: int| 0 <= k < earlier.len() implies candidates(
            start,
            last_user(a),
            t.required,
            t.locked,
        ).contains(#[trigger] earlier[k]) by {
            assert(earlier[k] == cs[k]);
        }
        lemma_pass_texts(t, a, start, st, earlier);
        assert(cs.last() == cs[cs.len() - 1]);
        lemma_attempt_texts(t, a, start, t.pass(st, earlier), cs.last());
    }
}

proof fn lemma_shorten_texts(t: Trimming, st: Shortening)
    requires
        only_texts_differ(t.request.messages, st.messages, t.required),
        st.actual == t.size(st.messages),
        t.request.messages.len() <= usize::MAX,
    ensures
        only_texts_differ(t.request.messages, t.shorten(st).messages, t.required),
        t.shorten(st).actual == t.size(t.shorten(st).messages),
    decreases st.actual,
{
    let a = t.request.messages;
    let fresh = Shortening { progress: false, ..st };
    let all = candidates(st.messages, last_user(a), t.required, t.locked);
    let cs = arranged(all);
    assert forall|k: int| 0 <= k < cs.len() implies all.contains(#[trigger] cs[k]) by {
        lemma_arranged_from(all, k);
    }
    lemma_pass_texts(t, a, st.messages, fresh, cs);
    lemma_pass_shrinks(t, fresh, cs);
    let p = t.full_pass(st);
    assert(p == t.pass(fresh, cs));
    if !(p.actual <= t.budget || !p.progress) {
        lemma_shorten_texts(t, p);
    }
}

/// Shortening texts changes nothing but texts that may be shortened: neither the number or order
/// of the messages nor their roles and tool calls, no instruction, and not the last user message.
pub proof fn lemma_shortening_changes_texts_only(t: Trimming)
    requires
        t.request.messages.len() <= usize::MAX,
    ensures
        only_texts_differ(t.request.messages, t.shortened().messages, t.required),
        t.shortened().actual == t.size(t.shortened().messages),
{
    let st = Shortening {
        messages: t.request.messages,
        actual: t.size(t.request.messages),
        touched: Seq::empty(),
        progress: false,
    };
    if st.actual > t.budget {
        lemma_shorten_texts(t, st);
    }
}

/// Whether contents that begin with material that must stay are the same.
pub open spec fn material_kept_whole(
    a: Seq<MessageView>,
    b: Seq<MessageView>,
    required: Seq<char>,
) -> bool {
    &&& a.len() == b.len()
    &&& forall|j: int| #![trigger b[j]]
        0 <= j < a.len() && a[j].content is Some && occurs_at(a[j].content->0, required, 0)
            ==> b[j].content == a[j].content
}

proof fn lemma_attempt_leaves_whole(
    t: Trimming,
    a: Seq<MessageView>,
    st: Shortening,
    c: Candidate,
)
    requires
        t.locked,
        t.required is Some,
        material_kept_whole(a, st.messages, t.required->0),
    ensures
        material_kept_whole(a, t.attempt(st, c).messages, t.required->0),
{
    let q = t.required->0;
    let i = c.index as int;
    let next = t.attempt(st, c);
    if next != st && c.field == TextField::Content {
        let text = st.messages[i].content->0;
        if a[i].content is Some && occurs_at(a[i].content->0, q, 0) {
            assert(st.messages[i].content == a[i].content);
            let part = loose_part(text, c.field, t.required, t.locked);
            assert(part =~= Seq::<char>::empty());
            assert(visible(part).len() == 0) by {
                reveal_strlit("…[已截断 ");
                assert(first_from(part, TRUNCATED_MARKER_PREFIX@, 0) is None);
            }
        }
    }
    assert forall|j: int| #![trigger next.messages[j]]
        0 <= j < a.len() && a[j].content is Some && occurs_at(a[j].content->0, q, 0) implies
        next.messages[j].content == a[j].content by {
        assert(st.messages[j].content == a[j].content);
    }
}

proof fn lemma_pass_leaves_whole(
    t: Trimming,
    a: Seq<MessageView>,
    st: Shortening,
    cs: Seq<Candidate>,
)
    requires
        t.locked,
        t.required is Some,
        material_kept_whole(a, st.messages, t.required->0),
    ensures
        material_kept_whole(a, t.pass(st, cs).messages, t.required->0),
    decreases cs.len(),
{
    if cs.len() > 0 {
        lemma_pass_leaves_whole(t, a, st, cs.drop_last());
        lemma_attempt_leaves_whole(t, a, t.pass(st, cs.drop_last()), cs.last());
    }
}

proof fn lemma_shorten_leaves_whole(t: Trimming, a: Seq<MessageView>, st: Shortening)
    requires
        t.locked,
        t.required is Some,
        material_kept_whole(a, st.messages, t.required->0),
    ensures
        material_kept_whole(a, t.shorten(st).messages, t.required->0),
    decreases st.actual,
{
    let fresh = Shortening { progress: false, ..st };
    let cs = arranged(t.shortenable(st.messages));
    lemma_pass_leaves_whole(t, a, fresh, cs);
    lemma_pass_shrinks(t, fresh, cs);
    let p = t.full_pass(st);
    assert(p == t.pass(fresh, cs));
    if !(p.actual <= t.budget || !p.progress) {
        lemma_shorten_leaves_whole(t, a, p);
    }
}

/// Messages that begin with material that must stay are left whole by shortening, as long as that
/// can make the request fit. Else the material and the heading behind it still stay, and only
/// what follows is shortened.
pub proof fn lemma_material_left_whole(t: Trimming, force: bool)
    requires
        t.request.messages.len() <= usize::MAX,
        t.locked,
        t.required is Some,
    ensures
        material_kept_whole(t.request.messages, t.shortened().messages, t.required->0),
        t.tried(force).1 is Ok ==> t.taken(force) == t,
        only_texts_differ(t.request.messages, t.taken(force).shortened().messages, t.required),
{
    let st = Shortening {
        messages: t.request.messages,
        actual: t.size(t.request.messages),
        touched: Seq::empty(),
        progress: false,
    };
    if st.actual > t.budget {
        lemma_shorten_leaves_whole(t, t.request.messages, st);
    }
    lemma_shortening_changes_texts_only(t.taken(force));
}

proof fn lemma_drop_rounds_size(t: Trimming, keep: nat, st: Dropping)
    requires
        st.actual == t.size(st.messages),
    ensures
        t.drop_rounds(keep, st).actual == t.size(t.drop_rounds(keep, st).messages),
    decreases st.messages.len(),
{
    if !(rounds(st.messages).len() <= keep || (st.actual <= t.budget && !st.must)) {
        lemma_drop_one_shrinks(t, st);
        lemma_drop_rounds_size(t, keep, t.drop_one(st));
    }
}

/// The size that trimming works with is the size of the messages it leaves.
proof fn lemma_trimmed_size(t: Trimming, force: bool)
    requires
        t.request.messages.len() <= usize::MAX,
    ensures
        t.trimmed(force).actual == t.size(t.trimmed(force).messages),
{
    lemma_shortening_changes_texts_only(t);
    let (messages, actual, _) = t.unnoted(force);
    lemma_drop_rounds_size(
        t,
        if force {
            1
        } else {
            3
        },
        Dropping { messages, actual, dropped: 0, must: force, carried: false },
    );
}

/// A request that trimming accepts fits the budget, and trimming it once more leaves it as it is
/// and reports nothing. A request that trimming refuses stays as it was.
pub proof fn lemma_trimmed_fits(t: Trimming, force: bool)
    requires
        t.request.messages.len() <= usize::MAX,
    ensures
        ({
            let (r, result) = t.outcome(force);
            let again = Trimming { request: r, ..t };
            &&& result is Ok ==> again.fits() && again.outcome(false) == (r, result_none())
            &&& result is Err ==> r == t.request
        }),
{
    lemma_tried_fits(t, force);
    lemma_tried_fits(t.unlocked(), force);
    let (r, result) = t.outcome(force);
    let again = Trimming { request: r, ..t };
    let freed = Trimming { request: r, ..t.unlocked() };
    assert(again.size(r.messages) == freed.size(r.messages));
}

proof fn lemma_tried_fits(t: Trimming, force: bool)
    requires
        t.request.messages.len() <= usize::MAX,
    ensures
        ({
            let (r, result) = t.tried(force);
            &&& result is Ok ==> (Trimming { request: r, ..t }).fits()
            &&& result is Err ==> r == t.request
        }),
{
    lemma_trimmed_size(t, force);
    let (r, result) = t.tried(force);
    let again = Trimming { request: r, ..t };
    assert(t.request.with_messages(t.request.messages) =~= t.request);
    assert(r.with_messages(r.messages) =~= r);
    if result is Ok && !(t.fits() && !force) {
        let m = t.trimmed(force).messages;
        assert(r == t.request.with_messages(m));
        assert(again.size(r.messages) == t.size(m));
    }
}

/// Success without a report.
pub open spec fn result_none() -> Result<
    Option<crate::llm::context_budget::ContextTrimReport>,
    crate::error::ErrorView,
> {
    Ok(None)
}

/// The instructions other than notes on omitted rounds.
pub open spec fn proper_instructions(s: Seq<MessageView>) -> Seq<MessageView>
    decreases s.len(),
{
    if s.len() == 0 {
        s
    } else if s.last().role == "system"@ && omitted(s.last()) is None {
        proper_instructions(s.drop_last()).push(s.last())
    } else {
        proper_instructions(s.drop_last())
    }
}

/// What was spoken.
pub open spec fn spoken_messages(s: Seq<MessageView>) -> Seq<MessageView>
    decreases s.len(),
{
    if s.len() == 0 {
        s
    } else if spoken(s.last()) {
        spoken_messages(s.drop_last()).push(s.last())
    } else {
        spoken_messages(s.drop_last())
    }
}

proof fn lemma_parts_of_sum(a: Seq<MessageView>, b: Seq<MessageView>)
    ensures
        proper_instructions(a + b) == proper_instructions(a) + proper_instructions(b),
        spoken_messages(a + b) == spoken_messages(a) + spoken_messages(b),
    decreases b.len(),
{
    if b.len() == 0 {
        assert(a + b =~= a);
        assert(proper_instructions(a) + proper_instructions(b) =~= proper_instructions(a));
        assert(spoken_messages(a) + spoken_messages(b) =~= spoken_messages(a));
    } else {
        let c = b.drop_last();
        lemma_parts_of_sum(a, c);
        assert((a + b).drop_last() =~= a + c);
        assert((a + b).last() == b.last());
        let p = proper_instructions(a);
        let q = spoken_messages(a);
        assert((p + proper_instructions(c)).push(b.last()) =~= p + proper_instructions(c).push(
            b.last(),
        ));
        assert((q + spoken_messages(c)).push(b.last()) =~= q + spoken_messages(c).push(b.last()));
    }
}

pub(crate) proof fn lemma_parts_of_unnoted(s: Seq<MessageView>)
    ensures
        proper_instructions(without_notes(s)) == proper_instructions(s),
        spoken_messages(without_notes(s)) == spoken_messages(s),
    decreases s.len(),
{
    if s.len() > 0 {
        lemma_parts_of_unnoted(s.drop_last());
        if omitted(s.last()) is None {
            let k = without_notes(s.drop_last());
            assert(k.push(s.last()).drop_last() =~= k);
        }
    }
}

proof fn lemma_parts_of_instructions(s: Seq<MessageView>)
    ensures
        proper_instructions(instructions(s)) == proper_instructions(s),
        spoken_messages(instructions(s)) == Seq::<MessageView>::empty(),
    decreases s.len(),
{
    if s.len() > 0 {
        lemma_parts_of_instructions(s.drop_last());
        if s.last().role == "system"@ {
            let k = instructions(s.drop_last());
            assert(k.push(s.last()).drop_last() =~= k);
        }
    } else {
        assert(spoken_messages(s) =~= Seq::<MessageView>::empty());
    }
}

proof fn lemma_parts_of_one(m: MessageView)
    ensures
        proper_instructions(seq![m]) == if m.role == "system"@ && omitted(m) is None {
            seq![m]
        } else {
            Seq::empty()
        },
        spoken_messages(seq![m]) == if spoken(m) {
            seq![m]
        } else {
            Seq::empty()
        },
{
    let e = Seq::<MessageView>::empty();
    assert(seq![m].drop_last() =~= e);
    assert(proper_instructions(e) =~= e);
    assert(spoken_messages(e) =~= e);
    assert(e.push(m) =~= seq![m]);
}

/// Dropping the first round keeps the instructions and takes away what was spoken first; a user
/// message comes next, if anything does.
proof fn lemma_first_round_parts(s: Seq<MessageView>)
    ensures
        proper_instructions(without_first_round(s)) == proper_instructions(s),
        ({
            let k = spoken_messages(s.take(first_round_end(s))).len() as int;
            &&& spoken_messages(without_first_round(s)) == spoken_messages(s).skip(k)
            &&& k <= spoken_messages(s).len()
            &&& first_round_end(s) < s.len() ==> k < spoken_messages(s).len() && spoken_messages(
                s,
            )[k].role == "user"@
        }),
{
    lemma_roles();
    lemma_second_start(s, 0, false);
    let e = first_round_end(s);
    let a = s.take(e);
    let b = s.skip(e);
    assert(s =~= a + b);
    lemma_parts_of_sum(a, b);
    lemma_parts_of_sum(instructions(a), b);
    lemma_parts_of_instructions(a);
    let k = spoken_messages(a).len() as int;
    assert(spoken_messages(s).skip(k) =~= spoken_messages(b));
    assert(Seq::<MessageView>::empty() + spoken_messages(b) =~= spoken_messages(b));
    if e < s.len() {
        let m = b[0];
        assert(b =~= seq![m] + b.drop_first());
        lemma_parts_of_sum(seq![m], b.drop_first());
        lemma_parts_of_one(m);
        assert(spoken_messages(b)[0] == m);
        assert(spoken_messages(s)[k] == m);
    }
}

/// What a message says besides its content.
pub open spec fn shape(m: MessageView) -> MessageView {
    MessageView { content: None, ..m }
}

/// What messages say besides their contents.
pub open spec fn shapes(s: Seq<MessageView>) -> Seq<MessageView> {
    Seq::new(s.len(), |i: int| shape(s[i]))
}

proof fn lemma_parts_of_update(s: Seq<MessageView>, i: int, m: MessageView)
    requires
        0 <= i < s.len(),
        spoken(s[i]),
        shape(m) == shape(s[i]),
    ensures
        proper_instructions(s.update(i, m)) == proper_instructions(s),
        shapes(spoken_messages(s.update(i, m))) == shapes(spoken_messages(s)),
        spoken_messages(s.update(i, m)).len() == spoken_messages(s).len(),
    decreases s.len(),
{
    let u = s.update(i, m);
    if i == s.len() - 1 {
        assert(u.drop_last() =~= s.drop_last());
        assert(m.role == shape(m).role && s[i].role == shape(s[i]).role);
    } else {
        assert(u.drop_last() =~= s.drop_last().update(i, m));
        assert(u.last() == s.last());
        lemma_parts_of_update(s.drop_last(), i, m);
    }
    assert(shapes(spoken_messages(u)) =~= shapes(spoken_messages(s))) by {
        let x = spoken_messages(u);
        let y = spoken_messages(s);
        assert(x.len() == y.len());
        assert forall|k: int| 0 <= k < x.len() implies shape(x[k]) == shape(y[k]) by {
            let xs = spoken_messages(u.drop_last());
            let ys = spoken_messages(s.drop_last());
            assert(shapes(xs) =~= shapes(ys));
            if k < xs.len() {
                assert(shapes(xs)[k] == shapes(ys)[k]);
            }
        }
    }
}

proof fn lemma_parts_of_carried(s: Seq<MessageView>, required: Seq<char>)
    ensures
        proper_instructions(with_required(s, required).0) == proper_instructions(s),
        shapes(spoken_messages(with_required(s, required).0)) == shapes(spoken_messages(s)),
        spoken_messages(with_required(s, required).0).len() == spoken_messages(s).len(),
        !with_required(s, required).1 ==> with_required(s, required).0 == s,
{
    lemma_roles();
    lemma_last_user(s);
    match last_user(s) {
        Some(u) if !has_reference(s, required) => {
            lemma_parts_of_update(
                s,
                u,
                MessageView {
                    content: Some(with_reference(required, text_or_empty(s[u].content))),
                    ..s[u]
                },
            );
        },
        _ => {},
    }
}

/// What dropping rounds keeps, from one state to a later one.
spec fn kept_parts(a: Seq<MessageView>, d: Dropping, since: nat) -> bool {
    &&& proper_instructions(d.messages) == proper_instructions(a)
    &&& spoken_messages(d.messages).len() <= spoken_messages(a).len()
    &&& ({
        let k = (spoken_messages(a).len() - spoken_messages(d.messages).len()) as int;
        &&& shapes(spoken_messages(d.messages)) == shapes(spoken_messages(a).skip(k))
        &&& !d.carried ==> spoken_messages(d.messages) == spoken_messages(a).skip(k)
        &&& d.dropped == since ==> k == 0
        &&& d.dropped > since && k < spoken_messages(a).len() ==> spoken_messages(a)[k].role
            == "user"@
    })
}

proof fn lemma_drop_one_parts(t: Trimming, a: Seq<MessageView>, st: Dropping, since: nat)
    requires
        kept_parts(a, st, since),
        st.dropped >= since,
        rounds(st.messages).len() >= 2,
    ensures
        kept_parts(a, t.drop_one(st), since),
{
    lemma_first_round(st.messages);
    lemma_first_round_parts(st.messages);
    let s = st.messages;
    let fewer = without_first_round(s);
    let next = t.drop_one(st);
    match t.required {
        Some(q) => {
            lemma_parts_of_carried(fewer, q);
        },
        None => {},
    }
    let k1 = (spoken_messages(a).len() - spoken_messages(s).len()) as int;
    let k2 = spoken_messages(s.take(first_round_end(s))).len() as int;
    let k = k1 + k2;
    assert(spoken_messages(fewer).len() == spoken_messages(s).len() - k2);
    assert(spoken_messages(next.messages).len() == spoken_messages(fewer).len());
    assert(spoken_messages(a).len() - spoken_messages(next.messages).len() == k);
    let rest = spoken_messages(a).skip(k1);
    assert(shapes(spoken_messages(s)) == shapes(rest));
    assert(spoken_messages(a).skip(k) =~= rest.skip(k2));
    assert(shapes(rest.skip(k2)) =~= shapes(rest).skip(k2));
    assert(shapes(spoken_messages(s).skip(k2)) =~= shapes(spoken_messages(s)).skip(k2));
    assert(shapes(spoken_messages(next.messages)) == shapes(spoken_messages(a).skip(k)));
    assert(shapes(rest)[k2] == shape(rest[k2]));
    assert(shapes(spoken_messages(s))[k2] == shape(spoken_messages(s)[k2]));
    assert(rest[k2] == spoken_messages(a)[k]);
    assert(spoken_messages(a)[k].role == shape(spoken_messages(a)[k]).role);
    assert(spoken_messages(s)[k2].role == shape(spoken_messages(s)[k2]).role);
}

proof fn lemma_drop_rounds_parts(
    t: Trimming,
    keep: nat,
    a: Seq<MessageView>,
    st: Dropping,
    since: nat,
)
    requires
        kept_parts(a, st, since),
        st.dropped >= since,
        keep >= 1,
    ensures
        kept_parts(a, t.drop_rounds(keep, st), since),
        t.drop_rounds(keep, st).dropped >= since,
    decreases st.messages.len(),
{
    if !(rounds(st.messages).len() <= keep || (st.actual <= t.budget && !st.must)) {
        lemma_drop_one_shrinks(t, st);
        lemma_drop_one_parts(t, a, st, since);
        lemma_drop_rounds_parts(t, keep, a, t.drop_one(st), since);
    }
}

proof fn lemma_texts_parts(a: Seq<MessageView>, b: Seq<MessageView>, required: Option<Seq<char>>)
    requires
        a.len() == b.len(),
        forall|i: int| #![trigger b[i]]
            0 <= i < a.len() ==> a[i].role == b[i].role && (a[i].role == "system"@ ==> a[i]
                == b[i]),
    ensures
        proper_instructions(a) == proper_instructions(b),
        spoken_messages(a).len() == spoken_messages(b).len(),
    decreases a.len(),
{
    if a.len() > 0 {
        let x = a.drop_last();
        let y = b.drop_last();
        assert forall|i: int| #![trigger y[i]] 0 <= i < x.len() implies x[i].role == y[i].role && (
        x[i].role == "system"@ ==> x[i] == y[i]) by {
            assert(y[i] == b[i] && x[i] == a[i]);
        }
        lemma_texts_parts(x, y, required);
        assert(b.last() == b[a.len() - 1]);
        assert(a.last() == a[a.len() - 1]);
    } else {
        assert(a =~= b);
    }
}

/// Where rounds were dropped, trimming leaves a note; else it leaves none that was not there.
pub(crate) proof fn lemma_note_parts(s: Seq<MessageView>, total: nat)
    requires
        total <= usize::MAX,
    ensures
        ({
            let n = MessageView::plain("system"@, omission_note(total));
            let u = s.insert(leading_instructions(s), n);
            &&& proper_instructions(u) == proper_instructions(s)
            &&& spoken_messages(u) == spoken_messages(s)
            &&& u.contains(n)
        }),
{
    lemma_leading_instructions(s);
    lemma_note_reads_back(total);
    let n = MessageView::plain("system"@, omission_note(total));
    let p = leading_instructions(s);
    let a = s.take(p);
    let b = s.skip(p);
    let u = s.insert(p, n);
    assert(u =~= a + seq![n] + b);
    assert(s =~= a + b);
    lemma_parts_of_one(n);
    lemma_parts_of_sum(a, seq![n]);
    lemma_parts_of_sum(a + seq![n], b);
    lemma_parts_of_sum(a, b);
    let e = Seq::<MessageView>::empty();
    assert(proper_instructions(a) + e =~= proper_instructions(a));
    assert(spoken_messages(a) + e =~= spoken_messages(a));
    assert(u[p] == n);
}

/// The instructions at the front end within the messages, and all before are instructions.
pub proof fn lemma_leading_instructions(s: Seq<MessageView>)
    ensures
        0 <= leading_instructions(s) <= s.len(),
        forall|i: int| 0 <= i < leading_instructions(s) ==> (#[trigger] s[i]).role == "system"@,
        leading_instructions(s) < s.len() ==> s[leading_instructions(s)].role != "system"@,
    decreases s.len(),
{
    if s.len() > 0 && s[0].role == "system"@ {
        let t = s.drop_first();
        lemma_leading_instructions(t);
        assert forall|i: int| 0 <= i < leading_instructions(s) implies (#[trigger] s[i]).role
            == "system"@ by {
            if i > 0 {
                assert(t[i - 1].role == "system"@);
            }
        }
    }
}

/// Trimming keeps every instruction, in order. Of what was spoken it drops only the earliest: what
/// is left is the end of what was spoken with its texts shortened, and where anything was dropped
/// it begins with a user message, so that no tool result is parted from its call. Contents differ
/// only where material was given to the last user message.
pub proof fn lemma_trimming_drops_earliest_only(t: Trimming, force: bool)
    requires
        t.request.messages.len() <= usize::MAX,
    ensures
        ({
            let done = t.taken(force).trimmed(force);
            let short = spoken_messages(t.taken(force).shortened().messages);
            let left = spoken_messages(done.messages);
            let k = (short.len() - left.len()) as int;
            &&& proper_instructions(done.messages) == proper_instructions(t.request.messages)
            &&& short.len() == spoken_messages(t.request.messages).len()
            &&& 0 <= k
            &&& shapes(left) == shapes(short.skip(k))
            &&& !done.carried ==> left == short.skip(k)
            &&& done.dropped == 0 ==> k == 0
            &&& done.dropped > 0 && left.len() > 0 ==> left[0].role == "user"@
        }),
{
    lemma_try_drops_earliest_only(t.taken(force), force);
}

proof fn lemma_try_drops_earliest_only(t: Trimming, force: bool)
    requires
        t.request.messages.len() <= usize::MAX,
    ensures
        ({
            let done = t.trimmed(force);
            let short = spoken_messages(t.shortened().messages);
            let left = spoken_messages(done.messages);
            let k = (short.len() - left.len()) as int;
            &&& proper_instructions(done.messages) == proper_instructions(t.request.messages)
            &&& short.len() == spoken_messages(t.request.messages).len()
            &&& 0 <= k
            &&& shapes(left) == shapes(short.skip(k))
            &&& !done.carried ==> left == short.skip(k)
            &&& done.dropped == 0 ==> k == 0
            &&& done.dropped > 0 && left.len() > 0 ==> left[0].role == "user"@
        }),
{
    lemma_shortening_changes_texts_only(t);
    let short = t.shortened().messages;
    lemma_texts_parts(t.request.messages, short, t.required);
    lemma_parts_of_unnoted(short);
    let (messages, actual, prior) = t.unnoted(force);
    let st = Dropping { messages, actual, dropped: 0, must: force, carried: false };
    let keep: nat = if force {
        1
    } else {
        3
    };
    assert(spoken_messages(messages).skip(0) =~= spoken_messages(messages));
    assert(kept_parts(messages, st, 0));
    lemma_drop_rounds_parts(t, keep, messages, st, 0);
    let d = t.dropped(force);
    assert(d == t.drop_rounds(keep, st));
    if d.dropped > 0 || prior > 0 {
        lemma_note_parts(d.messages, size_capped(prior + d.dropped));
    }
    let left = spoken_messages(d.messages);
    let s = spoken_messages(messages);
    let k = (s.len() - left.len()) as int;
    if left.len() > 0 {
        assert(shapes(left)[0] == shape(left[0]));
        assert(shapes(s.skip(k))[0] == shape(s[k]));
        assert(left[0].role == shape(left[0]).role);
        assert(s[k].role == shape(s[k]).role);
    }
}

/// Whether every tool result follows its call, directly or behind other results of it.
pub open spec fn paired(s: Seq<MessageView>) -> bool {
    forall|i: int| #![trigger s[i]]
        0 <= i < s.len() && s[i].role == "tool"@ ==> i > 0 && follows_call(s[i - 1])
}

/// Whether a tool result may follow a message.
pub open spec fn follows_call(m: MessageView) -> bool {
    m.role == "tool"@ || (m.role == "assistant"@ && m.calls_tools())
}

proof fn lemma_paired_prefix(s: Seq<MessageView>, n: int)
    requires
        paired(s),
        0 <= n <= s.len(),
    ensures
        paired(s.take(n)),
{
    let t = s.take(n);
    assert forall|i: int| #![trigger t[i]] 0 <= i < t.len() && t[i].role == "tool"@ implies i > 0
        && follows_call(t[i - 1]) by {
        assert(s[i] == t[i]);
        assert(s[i - 1] == t[i - 1]);
    }
}

/// Taking out instructions one by one parts no pair.
proof fn lemma_paired_push(s: Seq<MessageView>, m: MessageView)
    requires
        paired(s),
        m.role == "tool"@ ==> s.len() > 0 && follows_call(s.last()),
    ensures
        paired(s.push(m)),
{
    let t = s.push(m);
    assert forall|i: int| #![trigger t[i]] 0 <= i < t.len() && t[i].role == "tool"@ implies i > 0
        && follows_call(t[i - 1]) by {
        if i < s.len() {
            assert(s[i] == t[i]);
            assert(s[i - 1] == t[i - 1]);
        } else {
            assert(t[i - 1] == s.last());
        }
    }
}

proof fn lemma_paired_unnoted(s: Seq<MessageView>)
    requires
        paired(s),
    ensures
        paired(without_notes(s)),
        s.len() > 0 && spoken(s.last()) ==> without_notes(s).len() > 0 && without_notes(s).last()
            == s.last(),
    decreases s.len(),
{
    lemma_roles();
    if s.len() > 0 {
        let t = s.drop_last();
        lemma_paired_prefix(s, s.len() - 1);
        assert(s.take(s.len() - 1) =~= t);
        lemma_paired_unnoted(t);
        if omitted(s.last()) is None {
            assert(s[s.len() - 1] == s.last());
            if s.last().role == "tool"@ {
                assert(follows_call(s[s.len() - 2]));
                assert(t.last() == s[s.len() - 2]);
            }
            lemma_paired_push(without_notes(t), s.last());
        }
    }
}

proof fn lemma_instructions_only(s: Seq<MessageView>)
    ensures
        forall|i: int| #![trigger instructions(s)[i]]
            0 <= i < instructions(s).len() ==> instructions(s)[i].role == "system"@,
    decreases s.len(),
{
    if s.len() > 0 {
        lemma_instructions_only(s.drop_last());
        let k = instructions(s.drop_last());
        assert forall|i: int| #![trigger instructions(s)[i]] 0 <= i < instructions(s).len() implies
            instructions(s)[i].role == "system"@ by {
            if i < k.len() {
                assert(instructions(s)[i] == k[i]);
            }
        }
    }
}

proof fn lemma_paired_without_first(s: Seq<MessageView>)
    requires
        paired(s),
        rounds(s).len() >= 2,
    ensures
        paired(without_first_round(s)),
{
    lemma_roles();
    lemma_first_round(s);
    lemma_second_start(s, 0, false);
    let e = first_round_end(s);
    let a = instructions(s.take(e));
    let r = without_first_round(s);
    lemma_instructions_only(s.take(e));
    assert(r == a + s.skip(e));
    assert forall|i: int| #![trigger r[i]] 0 <= i < r.len() && r[i].role == "tool"@ implies i > 0
        && follows_call(r[i - 1]) by {
        if i < a.len() {
            assert(r[i] == a[i]);
        } else {
            let j = i - a.len() + e;
            assert(r[i] == s[j]);
            assert(j != e);
            assert(r[i - 1] == s[j - 1]);
        }
    }
}

proof fn lemma_paired_same_shapes(s: Seq<MessageView>, u: Seq<MessageView>)
    requires
        paired(s),
        s.len() == u.len(),
        forall|i: int| #![trigger u[i]]
            0 <= i < u.len() ==> u[i].role == s[i].role && u[i].tool_calls == s[i].tool_calls,
    ensures
        paired(u),
{
    assert forall|i: int| #![trigger u[i]] 0 <= i < u.len() && u[i].role == "tool"@ implies i > 0
        && follows_call(u[i - 1]) by {
        assert(s[i].role == "tool"@);
        assert(follows_call(s[i - 1]));
        assert(u[i - 1].role == s[i - 1].role);
    }
}

proof fn lemma_paired_drop_rounds(t: Trimming, keep: nat, st: Dropping)
    requires
        paired(st.messages),
        keep >= 1,
    ensures
        paired(t.drop_rounds(keep, st).messages),
    decreases st.messages.len(),
{
    if !(rounds(st.messages).len() <= keep || (st.actual <= t.budget && !st.must)) {
        lemma_drop_one_shrinks(t, st);
        lemma_paired_without_first(st.messages);
        let fewer = without_first_round(st.messages);
        lemma_last_user(fewer);
        lemma_paired_same_shapes(fewer, t.drop_one(st).messages);
        lemma_paired_drop_rounds(t, keep, t.drop_one(st));
    }
}

/// Trimming parts no tool result from its call.
pub proof fn lemma_trimming_keeps_pairs(t: Trimming, force: bool)
    requires
        t.request.messages.len() <= usize::MAX,
        paired(t.request.messages),
    ensures
        paired(t.taken(force).trimmed(force).messages),
        paired(t.outcome(force).0.messages),
{
    lemma_try_keeps_pairs(t.taken(force), force);
}

proof fn lemma_try_keeps_pairs(t: Trimming, force: bool)
    requires
        t.request.messages.len() <= usize::MAX,
        paired(t.request.messages),
    ensures
        paired(t.trimmed(force).messages),
        paired(t.tried(force).0.messages),
{
    lemma_roles();
    lemma_shortening_changes_texts_only(t);
    lemma_paired_same_shapes(t.request.messages, t.shortened().messages);
    lemma_paired_unnoted(t.shortened().messages);
    let (messages, actual, prior) = t.unnoted(force);
    let st = Dropping { messages, actual, dropped: 0, must: force, carried: false };
    let keep: nat = if force {
        1
    } else {
        3
    };
    lemma_paired_drop_rounds(t, keep, st);
    let d = t.dropped(force);
    assert(d == t.drop_rounds(keep, st));
    let s = d.messages;
    lemma_leading_instructions(s);
    let p = leading_instructions(s);
    let n = MessageView::plain("system"@, omission_note(size_capped(prior + d.dropped)));
    let u = s.insert(p, n);
    assert forall|i: int| #![trigger u[i]] 0 <= i < u.len() && u[i].role == "tool"@ implies i > 0
        && follows_call(u[i - 1]) by {
        if i < p {
            assert(u[i] == s[i]);
        } else if i > p {
            assert(u[i] == s[i - 1]);
            assert(follows_call(s[i - 2]));
            if i - 2 < p {
                assert(s[i - 2].role == "system"@);
            }
            assert(u[i - 1] == s[i - 2]);
        }
    }
}

/// The last user message.
pub open spec fn last_user_message(s: Seq<MessageView>) -> Option<MessageView>
    decreases s.len(),
{
    if s.len() == 0 {
        None
    } else if s.last().role == "user"@ {
        Some(s.last())
    } else {
        last_user_message(s.drop_last())
    }
}

proof fn lemma_last_user_at(s: Seq<MessageView>)
    ensures
        match last_user(s) {
            Some(i) => last_user_message(s) == Some(s[i]),
            None => last_user_message(s) is None,
        },
    decreases s.len(),
{
    if s.len() > 0 && s.last().role != "user"@ {
        lemma_last_user_at(s.drop_last());
        lemma_last_user(s.drop_last());
    }
}

proof fn lemma_last_user_of_sum(a: Seq<MessageView>, b: Seq<MessageView>)
    ensures
        last_user_message(a + b) == if last_user_message(b) is Some {
            last_user_message(b)
        } else {
            last_user_message(a)
        },
    decreases b.len(),
{
    if b.len() == 0 {
        assert(a + b =~= a);
    } else {
        assert((a + b).last() == b.last());
        assert((a + b).drop_last() =~= a + b.drop_last());
        lemma_last_user_of_sum(a, b.drop_last());
    }
}

proof fn lemma_last_user_unnoted(s: Seq<MessageView>)
    ensures
        last_user_message(without_notes(s)) == last_user_message(s),
    decreases s.len(),
{
    lemma_roles();
    if s.len() > 0 {
        lemma_last_user_unnoted(s.drop_last());
        if omitted(s.last()) is None {
            let k = without_notes(s.drop_last());
            assert(k.push(s.last()).drop_last() =~= k);
        }
    }
}

proof fn lemma_last_user_without_first(s: Seq<MessageView>)
    requires
        rounds(s).len() >= 2,
    ensures
        last_user_message(without_first_round(s)) == last_user_message(s),
        last_user_message(s) is Some,
{
    lemma_first_round(s);
    lemma_second_start(s, 0, false);
    let e = first_round_end(s);
    let b = s.skip(e);
    assert(s =~= s.take(e) + b);
    lemma_last_user_of_sum(s.take(e), b);
    lemma_last_user_of_sum(instructions(s.take(e)), b);
    lemma_last_user(b);
    lemma_last_user_at(b);
    assert(b[0].role == "user"@);
}

/// A message with material in front of its content.
pub open spec fn with_material(m: MessageView, required: Seq<char>) -> MessageView {
    MessageView { content: Some(with_reference(required, text_or_empty(m.content))), ..m }
}

proof fn lemma_carried_last_user(s: Seq<MessageView>, required: Seq<char>)
    ensures
        ({
            let (r, carried) = with_required(s, required);
            &&& last_user_message(s) is Some ==> has_reference(r, required)
            &&& last_user_message(r) == if carried {
                Some(with_material(last_user_message(s)->0, required))
            } else {
                last_user_message(s)
            }
            &&& carried ==> last_user_message(s) is Some && !has_reference(s, required)
        }),
{
    lemma_last_user(s);
    lemma_last_user_at(s);
    let (r, carried) = with_required(s, required);
    match last_user(s) {
        Some(u) if !has_reference(s, required) => {
            let m = with_material(s[u], required);
            assert(r == s.update(u, m));
            lemma_last_user(r);
            lemma_last_user_at(r);
            assert(r[u] == m);
            assert forall|j: int| u < j < r.len() implies (#[trigger] r[j]).role != "user"@ by {
                assert(r[j] == s[j]);
            }
            match last_user(r) {
                Some(v) => {
                    if v < u {
                        assert(r[u].role != "user"@);
                    }
                },
                None => {
                    assert(r[u].role != "user"@);
                },
            }
            lemma_compiled_parts(required, text_or_empty(s[u].content));
            assert(has_reference(r, required));
        },
        _ => {},
    }
}

/// What becomes of the last user message while rounds are dropped.
spec fn last_user_kept(t: Trimming, first: Option<MessageView>, d: Dropping) -> bool {
    &&& d.carried ==> t.required is Some && first is Some && last_user_message(d.messages) == Some(
        with_material(first->0, t.required->0),
    )
    &&& !d.carried ==> last_user_message(d.messages) == first
    &&& d.carried ==> has_reference(d.messages, t.required->0)
    &&& d.dropped > 0 && t.required is Some && first is Some ==> has_reference(
        d.messages,
        t.required->0,
    )
}

/// Material that the last user message begins with stays there while rounds are dropped.
proof fn lemma_reference_of_last(s: Seq<MessageView>, required: Seq<char>, m: MessageView)
    requires
        last_user_message(s) == Some(m),
        m.content is Some,
        occurs_at(m.content->0, required, 0),
    ensures
        has_reference(s, required),
{
    lemma_last_user(s);
    lemma_last_user_at(s);
    assert(s[last_user(s)->0] == m);
}

proof fn lemma_last_user_drop_rounds(
    t: Trimming,
    keep: nat,
    first: Option<MessageView>,
    st: Dropping,
)
    requires
        last_user_kept(t, first, st),
        keep >= 1,
    ensures
        last_user_kept(t, first, t.drop_rounds(keep, st)),
    decreases st.messages.len(),
{
    if !(rounds(st.messages).len() <= keep || (st.actual <= t.budget && !st.must)) {
        lemma_drop_one_shrinks(t, st);
        lemma_last_user_without_first(st.messages);
        let fewer = without_first_round(st.messages);
        match t.required {
            Some(q) => {
                lemma_carried_last_user(fewer, q);
                if st.carried {
                    let m = with_material(first->0, q);
                    lemma_compiled_parts(q, text_or_empty(first->0.content));
                    lemma_reference_of_last(fewer, q, m);
                }
            },
            None => {},
        }
        lemma_last_user_drop_rounds(t, keep, first, t.drop_one(st));
    }
}

proof fn lemma_reference_after_note(s: Seq<MessageView>, p: int, n: MessageView, q: Seq<char>)
    requires
        has_reference(s, q),
        0 <= p <= s.len(),
    ensures
        has_reference(s.insert(p, n), q),
{
    let u = s.insert(p, n);
    let i = choose|i: int| #![trigger s[i]]
        0 <= i < s.len() && s[i].role == "user"@ && s[i].content is Some && occurs_at(
            s[i].content->0,
            q,
            0,
        );
    if i < p {
        assert(u[i] == s[i]);
    } else {
        assert(u[i + 1] == s[i]);
    }
}

proof fn lemma_reference_unnoted(s: Seq<MessageView>, q: Seq<char>)
    requires
        has_reference(s, q),
    ensures
        has_reference(without_notes(s), q),
    decreases s.len(),
{
    lemma_roles();
    let i = choose|i: int| #![trigger s[i]]
        0 <= i < s.len() && s[i].role == "user"@ && s[i].content is Some && occurs_at(
            s[i].content->0,
            q,
            0,
        );
    let t = s.drop_last();
    let k = without_notes(t);
    if i == s.len() - 1 {
        assert(without_notes(s)[k.len() as int] == s[i]);
    } else {
        assert(t[i] == s[i]);
        lemma_reference_unnoted(t, q);
        if omitted(s.last()) is None {
            let j = choose|j: int| #![trigger k[j]]
                0 <= j < k.len() && k[j].role == "user"@ && k[j].content is Some && occurs_at(
                    k[j].content->0,
                    q,
                    0,
                );
            assert(without_notes(s)[j] == k[j]);
        }
    }
}

/// Trimming never loses the last user message: it stays as it was, or is given the material that
/// must stay. And where a user message began with that material, or rounds were dropped, a user
/// message of the trimmed request begins with it.
pub proof fn lemma_trimming_keeps_last_user(t: Trimming, force: bool)
    requires
        t.request.messages.len() <= usize::MAX,
    ensures
        ({
            let done = t.taken(force).trimmed(force);
            let first = last_user_message(t.request.messages);
            let last = last_user_message(done.messages);
            &&& last == if done.carried {
                Some(with_material(first->0, t.required->0))
            } else {
                first
            }
            &&& done.carried ==> t.required is Some && first is Some
            &&& t.required is Some && first is Some && (has_reference(
                t.request.messages,
                t.required->0,
            ) || done.dropped > 0) ==> has_reference(done.messages, t.required->0)
        }),
{
    lemma_try_keeps_last_user(t.taken(force), force);
}

proof fn lemma_try_keeps_last_user(t: Trimming, force: bool)
    requires
        t.request.messages.len() <= usize::MAX,
    ensures
        ({
            let done = t.trimmed(force);
            let first = last_user_message(t.request.messages);
            let last = last_user_message(done.messages);
            &&& last == if done.carried {
                Some(with_material(first->0, t.required->0))
            } else {
                first
            }
            &&& done.carried ==> t.required is Some && first is Some
            &&& t.required is Some && first is Some && (has_reference(
                t.request.messages,
                t.required->0,
            ) || done.dropped > 0) ==> has_reference(done.messages, t.required->0)
        }),
{
    lemma_roles();
    lemma_shortening_changes_texts_only(t);
    let a = t.request.messages;
    let b = t.shortened().messages;
    lemma_only_texts_same_last_user(a, b, t.required);
    lemma_last_user(a);
    lemma_last_user_at(a);
    lemma_last_user_at(b);
    match last_user(a) {
        Some(i) => {
            assert(a[i] == b[i]);
        },
        None => {},
    }
    lemma_last_user_unnoted(b);
    let (messages, actual, prior) = t.unnoted(force);
    let st = Dropping { messages, actual, dropped: 0, must: force, carried: false };
    let keep: nat = if force {
        1
    } else {
        3
    };
    let first = last_user_message(a);
    lemma_last_user_drop_rounds(t, keep, first, st);
    let d = t.dropped(force);
    assert(d == t.drop_rounds(keep, st));
    let s = d.messages;
    lemma_leading_instructions(s);
    let p = leading_instructions(s);
    let n = MessageView::plain("system"@, omission_note(size_capped(prior + d.dropped)));
    assert(s.insert(p, n) =~= s.take(p) + seq![n] + s.skip(p));
    assert(s =~= s.take(p) + s.skip(p));
    lemma_last_user_of_sum(s.take(p) + seq![n], s.skip(p));
    lemma_last_user_of_sum(s.take(p), seq![n]);
    lemma_last_user_of_sum(s.take(p), s.skip(p));
    assert(seq![n].drop_last() =~= Seq::<MessageView>::empty());
    assert(last_user_message(seq![n].drop_last()) is None);
    match t.required {
        Some(q) => {
            if has_reference(a, q) {
                let i = choose|i: int| #![trigger a[i]]
                    0 <= i < a.len() && a[i].role == "user"@ && a[i].content is Some && occurs_at(
                        a[i].content->0,
                        q,
                        0,
                    );
                assert(b[i].role == "user"@ && front_stays(a[i].content, b[i].content, q));
                assert(has_reference(b, q));
                lemma_reference_unnoted(b, q);
                lemma_dropped_none(t, keep, st);
            }
            if first is Some && (has_reference(a, q) || d.dropped > 0) {
                assert(has_reference(s, q));
                lemma_reference_after_note(s, p, n, q);
            }
        },
        None => {},
    }
}

proof fn lemma_dropped_none(t: Trimming, keep: nat, st: Dropping)
    ensures
        t.drop_rounds(keep, st).dropped >= st.dropped,
        t.drop_rounds(keep, st).dropped == st.dropped ==> t.drop_rounds(keep, st) == st,
    decreases st.messages.len(),
{
    if !(rounds(st.messages).len() <= keep || (st.actual <= t.budget && !st.must)) {
        lemma_drop_one_shrinks(t, st);
        lemma_dropped_none(t, keep, t.drop_one(st));
    }
}

/// Where an estimate starts from a reported count, less is kept for its errors, and more is left
/// for the request.
pub proof fn lemma_baseline_leaves_more(max_tokens: Option<i64>, window: nat)
    requires
        window <= u64::MAX,
    ensures
        safety_reserve(window, EstimateSource::Baseline) <= safety_reserve(
            window,
            EstimateSource::Full,
        ),
        available(max_tokens, window, EstimateSource::Baseline) >= available(
            max_tokens,
            window,
            EstimateSource::Full,
        ),
{
    assert(capped(window * 1) <= capped(window * 3));
    assert(share(window, 1) <= share(window, 3));
}

/// The messages that an error tells of are the largest: none of the others is larger than any of
/// them, and they are told from the largest down.
pub proof fn lemma_largest_messages(s: Seq<MessageView>, factor: Fl)
    requires
        s.len() <= usize::MAX,
    ensures
        ({
            let order = arranged(sized(s, factor));
            &&& order.len() == s.len()
            &&& order.to_multiset() == sized(s, factor).to_multiset()
            &&& forall|i: int, j: int| #![trigger order[i], order[j]]
                0 <= i < j < order.len() ==> order[i].tokens >= order[j].tokens
        }),
{
    lemma_arranged_items(sized(s, factor));
    assert(ranks_agree::<SizedMessage>());
    lemma_arranged_in_order(sized(s, factor));
    let order = arranged(sized(s, factor));
    assert forall|i: int, j: int| #![trigger order[i], order[j]] 0 <= i < j < order.len() implies
        order[i].tokens >= order[j].tokens by {
        assert(!order[j].before(order[i]));
    }
}

/// Texts are shortened in order: those of tools first, and among these and the others the longer
/// ones first.
pub proof fn lemma_shortening_order(all: Seq<Candidate>)
    ensures
        ({
            let order = arranged(all);
            &&& order.to_multiset() == all.to_multiset()
            &&& forall|i: int, j: int| #![trigger order[i], order[j]]
                0 <= i < j < order.len() ==> order[i].priority < order[j].priority || (
                order[i].priority == order[j].priority && order[i].chars >= order[j].chars)
        }),
{
    lemma_arranged_items(all);
    assert(ranks_agree::<Candidate>());
    lemma_arranged_in_order(all);
    let order = arranged(all);
    assert forall|i: int, j: int| #![trigger order[i], order[j]] 0 <= i < j < order.len() implies
        order[i].priority < order[j].priority || (order[i].priority == order[j].priority
        && order[i].chars >= order[j].chars) by {
        assert(!order[j].before(order[i]));
    }
}

/// Whether an attempt at trimming leaves a request that fits, and is of use: where a round must go,
/// something has to change.
pub open spec fn of_use(t: Trimming, force: bool) -> bool {
    let done = t.trimmed(force);
    &&& t.size(done.messages) <= t.budget
    &&& force ==> done.dropped > 0 || done.truncated > 0 || done.carried
}

/// When trimming succeeds and when it fails. A request that fits is left alone, unless a round must
/// go. Else trimming succeeds exactly where one of its attempts is of use, and then the request has
/// the messages of that attempt; the attempt that shortens text behind material that must stay is
/// made only where the other is of no use. Where trimming fails, the error says that the request
/// does not fit.
pub proof fn lemma_when_trimming_succeeds(t: Trimming, force: bool)
    requires
        t.request.messages.len() <= usize::MAX,
    ensures
        ({
            let (r, result) = t.outcome(force);
            let free = t.unlocked();
            let alone = t.size(t.request.messages) <= t.budget && !force;
            &&& alone ==> r == t.request && result == result_none()
            &&& !alone ==> (result is Ok <==> of_use(t, force) || (t.required is Some && of_use(
                free,
                force,
            )))
            &&& !alone && of_use(t, force) ==> r == t.request.with_messages(
                t.trimmed(force).messages,
            )
            &&& !alone && !of_use(t, force) && t.required is Some && of_use(free, force) ==> r
                == t.request.with_messages(free.trimmed(force).messages)
            &&& result is Err ==> r == t.request && result->Err_0.code
                == ErrorCode::ContextBudgetExceeded
        }),
{
    lemma_trimmed_size(t, force);
    lemma_trimmed_size(t.unlocked(), force);
    let free = t.unlocked();
    assert(t.size(t.request.messages) == free.size(t.request.messages));
    assert(free.size(free.trimmed(force).messages) == t.size(free.trimmed(force).messages));
}

/// A report of trimming tells the truth: the size before and after, the budget, how many rounds were
/// dropped and how many messages were shortened. There is a report exactly where something changed.
pub proof fn lemma_report_tells_the_truth(t: Trimming, force: bool)
    requires
        t.request.messages.len() <= usize::MAX,
        t.budget <= u64::MAX,
    ensures
        ({
            let (r, result) = t.outcome(force);
            let done = t.taken(force).trimmed(force);
            result is Ok && result->Ok_0 is Some ==> {
                let report = result->Ok_0->0;
                &&& report.before == t.size(t.request.messages) as u64
                &&& report.after == t.size(r.messages) as u64
                &&& report.budget == t.budget
                &&& t.size(r.messages) <= t.budget
                &&& report.dropped_rounds == done.dropped as usize
                &&& report.truncated_messages == done.truncated as usize
                &&& report.suggest_compaction
                &&& report.estimate_source == if t.baseline is Some {
                    EstimateSource::Baseline
                } else {
                    EstimateSource::Full
                }
                &&& done.dropped > 0 || done.truncated > 0 || done.carried
            }
        }),
{
    let u = t.taken(force);
    lemma_trimmed_size(u, force);
    assert(u.size(t.request.messages) == t.size(t.request.messages));
    assert(u.size(u.trimmed(force).messages) == t.size(u.trimmed(force).messages));
}

/// Whether messages come from others by shortening one text: one of a message that is neither an
/// instruction nor the last user message, where the request was too large; the text is cut as far as
/// the excess asks, and the request becomes smaller by it.
pub open spec fn one_text_cut(
    t: Trimming,
    a: Seq<MessageView>,
    b: Seq<MessageView>,
    i: int,
    field: TextField,
) -> bool {
    let text = field_text(a[i], field)->0;
    let part = loose_part(text, field, t.required, t.locked);
    let excess = (t.size(a) - t.budget) as nat;
    &&& 0 <= i < a.len()
    &&& t.size(a) > t.budget
    &&& t.size(b) < t.size(a)
    &&& a[i].role != "system"@
    &&& last_user(t.request.messages) != Some(i)
    &&& field_text(a[i], field) is Some
    &&& truncated(part, target_chars(part, excess, t.factor)) is Some
    &&& b == a.update(
        i,
        with_field(
            a[i],
            field,
            text.take(fixed_front(text, field, t.required, t.locked)) + truncated(
                part,
                target_chars(part, excess, t.factor),
            )->0,
        ),
    )
}

/// Whether one text was cut between two steps.
pub open spec fn step_is_a_cut(t: Trimming, steps: Seq<Seq<MessageView>>, k: int) -> bool {
    exists|i: int, field: TextField| #[trigger]
        one_text_cut(t, steps[k], steps[k + 1], i, field)
}

/// Whether messages were shortened text by text, as long as they were too large.
pub open spec fn cut_in_steps(t: Trimming, steps: Seq<Seq<MessageView>>) -> bool {
    &&& steps.len() > 0
    &&& steps[0] == t.request.messages
    &&& forall|k: int| 0 <= k < steps.len() - 1 ==> #[trigger] step_is_a_cut(t, steps, k)
}

proof fn lemma_attempt_steps(
    t: Trimming,
    start: Seq<MessageView>,
    st: Shortening,
    c: Candidate,
    steps: Seq<Seq<MessageView>>,
) -> (r: Seq<Seq<MessageView>>)
    requires
        only_texts_differ(t.request.messages, st.messages, t.required),
        only_texts_differ(t.request.messages, start, t.required),
        st.actual == t.size(st.messages),
        t.request.messages.len() <= usize::MAX,
        candidates(start, last_user(t.request.messages), t.required, t.locked).contains(c),
        cut_in_steps(t, steps),
        steps.last() == st.messages,
    ensures
        cut_in_steps(t, r),
        r.last() == t.attempt(st, c).messages,
{
    let a = t.request.messages;
    lemma_candidate(start, last_user(a), t.required, t.locked, c);
    let i = c.index as int;
    assert(start[i].role == a[i].role);
    assert(st.messages[i].role == a[i].role);
    let next = t.attempt(st, c);
    if next == st {
        steps
    } else {
        let r = steps.push(next.messages);
        assert(one_text_cut(t, st.messages, next.messages, i, c.field));
        assert forall|k: int| 0 <= k < r.len() - 1 implies #[trigger] step_is_a_cut(t, r, k) by {
            if k < steps.len() - 1 {
                assert(step_is_a_cut(t, steps, k));
                assert(r[k] == steps[k] && r[k + 1] == steps[k + 1]);
                let (j, field) = choose|j: int, field: TextField| #[trigger]
                    one_text_cut(t, steps[k], steps[k + 1], j, field);
                assert(one_text_cut(t, r[k], r[k + 1], j, field));
            } else {
                assert(r[k] == st.messages && r[k + 1] == next.messages);
                assert(one_text_cut(t, r[k], r[k + 1], i, c.field));
            }
        }
        r
    }
}

proof fn lemma_pass_steps(
    t: Trimming,
    start: Seq<MessageView>,
    st: Shortening,
    cs: Seq<Candidate>,
    steps: Seq<Seq<MessageView>>,
) -> (r: Seq<Seq<MessageView>>)
    requires
        only_texts_differ(t.request.messages, st.messages, t.required),
        only_texts_differ(t.request.messages, start, t.required),
        st.actual == t.size(st.messages),
        t.request.messages.len() <= usize::MAX,
        forall|k: int|
            0 <= k < cs.len() ==> candidates(
                start,
                last_user(t.request.messages),
                t.required,
                t.locked,
            ).contains(#[trigger] cs[k]),
        cut_in_steps(t, steps),
        steps.last() == st.messages,
    ensures
        cut_in_steps(t, r),
        r.last() == t.pass(st, cs).messages,
    decreases cs.len(),
{
    if cs.len() == 0 {
        steps
    } else {
        let earlier = cs.drop_last();
        let all = candidates(start, last_user(t.request.messages), t.required, t.locked);
        assert forall|k: int| 0 <= k < earlier.len() implies all.contains(#[trigger] earlier[k]) by {
            assert(earlier[k] == cs[k]);
        }
        let r = lemma_pass_steps(t, start, st, earlier, steps);
        lemma_pass_texts(t, t.request.messages, start, st, earlier);
        assert(cs.last() == cs[cs.len() - 1]);
        lemma_attempt_steps(t, start, t.pass(st, earlier), cs.last(), r)
    }
}

proof fn lemma_shorten_steps(t: Trimming, st: Shortening, steps: Seq<Seq<MessageView>>) -> (r: Seq<
    Seq<MessageView>,
>)
    requires
        only_texts_differ(t.request.messages, st.messages, t.required),
        st.actual == t.size(st.messages),
        t.request.messages.len() <= usize::MAX,
        cut_in_steps(t, steps),
        steps.last() == st.messages,
    ensures
        cut_in_steps(t, r),
        r.last() == t.shorten(st).messages,
    decreases st.actual,
{
    let a = t.request.messages;
    let fresh = Shortening { progress: false, ..st };
    let all = candidates(st.messages, last_user(a), t.required, t.locked);
    let cs = arranged(all);
    assert forall|k: int| 0 <= k < cs.len() implies all.contains(#[trigger] cs[k]) by {
        lemma_arranged_from(all, k);
    }
    lemma_pass_texts(t, a, st.messages, fresh, cs);
    lemma_pass_shrinks(t, fresh, cs);
    let p = t.full_pass(st);
    assert(p == t.pass(fresh, cs));
    let r = lemma_pass_steps(t, st.messages, fresh, cs, steps);
    if !(p.actual <= t.budget || !p.progress) {
        lemma_shorten_steps(t, p, r)
    } else {
        r
    }
}

/// Texts are shortened one by one, and only as long as the request is too large: before every cut
/// the request exceeded the budget, and every cut made it smaller. A request that fits has no text
/// shortened.
pub proof fn lemma_no_text_cut_in_vain(t: Trimming) -> (steps: Seq<Seq<MessageView>>)
    requires
        t.request.messages.len() <= usize::MAX,
    ensures
        cut_in_steps(t, steps),
        steps.last() == t.shortened().messages,
        t.size(t.request.messages) <= t.budget ==> t.shortened().messages == t.request.messages
            && t.shortened().touched.len() == 0,
{
    let st = Shortening {
        messages: t.request.messages,
        actual: t.size(t.request.messages),
        touched: Seq::empty(),
        progress: false,
    };
    let steps = seq![t.request.messages];
    if st.actual > t.budget {
        lemma_only_texts_reflexive(t.request.messages, t.required);
        lemma_shorten_steps(t, st, steps)
    } else {
        steps
    }
}

proof fn lemma_only_texts_reflexive(a: Seq<MessageView>, required: Option<Seq<char>>)
    ensures
        only_texts_differ(a, a, required),
{
}

/// How much of a text may be taken out, at most: what is more than the least that is kept.
pub open spec fn spare_chars(
    m: MessageView,
    field: TextField,
    required: Option<Seq<char>>,
    locked: bool,
) -> int {
    visible(loose_part(field_text(m, field)->0, field, required, locked)).len() - 256
}

proof fn lemma_in_sum<T>(a: Seq<T>, b: Seq<T>, c: Seq<T>, x: T)
    ensures
        (a + b + c).contains(x) <==> a.contains(x) || b.contains(x) || c.contains(x),
{
    let s = a + b + c;
    if a.contains(x) {
        let k = choose|k: int| 0 <= k < a.len() && a[k] == x;
        assert(s[k] == x);
    }
    if b.contains(x) {
        let k = choose|k: int| 0 <= k < b.len() && b[k] == x;
        assert(s[a.len() + k] == x);
    }
    if c.contains(x) {
        let k = choose|k: int| 0 <= k < c.len() && c[k] == x;
        assert(s[a.len() + b.len() + k] == x);
    }
    if s.contains(x) {
        let k = choose|k: int| 0 <= k < s.len() && s[k] == x;
        if k < a.len() {
            assert(a[k] == x);
        } else if k < a.len() + b.len() {
            assert(b[k - a.len()] == x);
        } else {
            assert(c[k - a.len() - b.len()] == x);
        }
    }
}

/// Exactly the long texts may be shortened: those from which at least 512 characters can be taken
/// out while 256 stay, contents and thoughts alike, of every message that is neither an instruction
/// nor protected. Those of tool results come before all others.
pub proof fn lemma_what_may_be_shortened(
    s: Seq<MessageView>,
    protected: Option<int>,
    required: Option<Seq<char>>,
    locked: bool,
    c: Candidate,
)
    requires
        s.len() <= usize::MAX,
    ensures
        candidates(s, protected, required, locked).contains(c) <==> {
            let i = c.index as int;
            let m = s[i];
            &&& i < s.len()
            &&& m.role != "system"@
            &&& protected != Some(i)
            &&& field_text(m, c.field) is Some
            &&& spare_chars(m, c.field, required, locked) >= 512
            &&& c.chars == (spare_chars(m, c.field, required, locked) + 256) as usize
            &&& c.priority == if m.role == "tool"@ {
                0usize
            } else {
                1usize
            }
        },
    decreases s.len(),
{
    if s.len() > 0 {
        let t = s.drop_last();
        let n = s.len() - 1;
        let m = s.last();
        lemma_what_may_be_shortened(t, protected, required, locked, c);
        assert(s[n] == m);
        let i = c.index as int;
        if i < n {
            assert(t[i] == s[i]);
        }
        let earlier = candidates(t, protected, required, locked);
        let x = text_candidate(m, n, TextField::Content, required, locked);
        let y = text_candidate(m, n, TextField::Reasoning, required, locked);
        lemma_in_sum(earlier, x, y, c);
        assert(field_text(s[n], TextField::Content) == field_text(m, TextField::Content));
        assert(field_text(s[n], TextField::Reasoning) == field_text(m, TextField::Reasoning));
        if x.len() > 0 {
            assert(x.contains(c) <==> x[0] == c) by {
                assert(x.contains(x[0]));
            }
        }
        if y.len() > 0 {
            assert(y.contains(c) <==> y[0] == c) by {
                assert(y.contains(y[0]));
            }
        }
    }
}

/// Whether the noted places are, each once, places of messages, and all at which messages changed.
pub open spec fn changes_noted(a: Seq<MessageView>, st: Shortening) -> bool {
    &&& a.len() == st.messages.len()
    &&& st.touched.no_duplicates()
    &&& forall|k: int| #![trigger st.touched[k]]
        0 <= k < st.touched.len() ==> 0 <= st.touched[k] < a.len()
    &&& forall|i: int| #![trigger a[i]]
        0 <= i < a.len() && a[i] != st.messages[i] ==> st.touched.contains(i)
}

proof fn lemma_attempt_noted(t: Trimming, a: Seq<MessageView>, st: Shortening, c: Candidate)
    requires
        changes_noted(a, st),
    ensures
        changes_noted(a, t.attempt(st, c)),
{
    let i = c.index as int;
    let next = t.attempt(st, c);
    if next != st && !st.touched.contains(i) {
        let p = st.touched.push(i);
        assert(next.touched == p);
        assert(p[st.touched.len() as int] == i);
        assert forall|x: int, y: int| 0 <= x < p.len() && 0 <= y < p.len() && x != y implies p[x]
            != p[y] by {
            if x < st.touched.len() {
                assert(st.touched.contains(st.touched[x]));
            }
            if y < st.touched.len() {
                assert(st.touched.contains(st.touched[y]));
            }
        }
        assert forall|j: int| #![trigger a[j]] 0 <= j < a.len() && a[j] != next.messages[j] implies
            p.contains(j) by {
            if j != i {
                assert(st.touched.contains(j));
                let k = choose|k: int| 0 <= k < st.touched.len() && st.touched[k] == j;
                assert(p[k] == j);
            }
        }
    }
}

proof fn lemma_pass_noted(t: Trimming, a: Seq<MessageView>, st: Shortening, cs: Seq<Candidate>)
    requires
        changes_noted(a, st),
    ensures
        changes_noted(a, t.pass(st, cs)),
    decreases cs.len(),
{
    if cs.len() > 0 {
        lemma_pass_noted(t, a, st, cs.drop_last());
        lemma_attempt_noted(t, a, t.pass(st, cs.drop_last()), cs.last());
    }
}

proof fn lemma_shorten_noted(t: Trimming, a: Seq<MessageView>, st: Shortening)
    requires
        changes_noted(a, st),
    ensures
        changes_noted(a, t.shorten(st)),
    decreases st.actual,
{
    let fresh = Shortening { progress: false, ..st };
    let cs = arranged(t.shortenable(st.messages));
    lemma_pass_noted(t, a, fresh, cs);
    lemma_pass_shrinks(t, fresh, cs);
    let p = t.full_pass(st);
    assert(p == t.pass(fresh, cs));
    if !(p.actual <= t.budget || !p.progress) {
        lemma_shorten_noted(t, a, p);
    }
}

/// Every message that was shortened is counted, and none twice: the number that trimming reports is
/// that of the noted places, and a message at any other place is as it was.
pub proof fn lemma_shortened_are_counted(t: Trimming, force: bool)
    ensures
        changes_noted(t.request.messages, t.shortened()),
        t.trimmed(force).truncated == t.shortened().touched.len(),
{
    let st = Shortening {
        messages: t.request.messages,
        actual: t.size(t.request.messages),
        touched: Seq::empty(),
        progress: false,
    };
    assert(changes_noted(t.request.messages, st));
    if st.actual > t.budget {
        lemma_shorten_noted(t, t.request.messages, st);
    }
}

proof fn lemma_pass_without_progress(t: Trimming, st: Shortening, cs: Seq<Candidate>)
    requires
        !st.progress,
        !t.pass(st, cs).progress,
    ensures
        t.pass(st, cs) == st,
        forall|k: int| #![trigger cs[k]] 0 <= k < cs.len() ==> t.attempt(st, cs[k]) == st,
    decreases cs.len(),
{
    if cs.len() > 0 {
        let earlier = cs.drop_last();
        lemma_pass_shrinks(t, st, earlier);
        lemma_pass_without_progress(t, st, earlier);
        assert forall|k: int| #![trigger cs[k]] 0 <= k < cs.len() implies t.attempt(st, cs[k])
            == st by {
            if k < earlier.len() {
                assert(earlier[k] == cs[k]);
            }
        }
    }
}

/// Whether no long text can be cut any more with the request becoming smaller by it.
pub open spec fn nothing_left_to_cut(t: Trimming, s: Seq<MessageView>) -> bool {
    forall|b: Seq<MessageView>, i: int, field: TextField| #[trigger]
        one_text_cut(t, s, b, i, field) ==> spare_chars(s[i], field, t.required, t.locked) < 512
}

proof fn lemma_shorten_to_the_end(t: Trimming, st: Shortening)
    requires
        only_texts_differ(t.request.messages, st.messages, t.required),
        st.actual == t.size(st.messages),
        t.request.messages.len() <= usize::MAX,
    ensures
        t.shorten(st).actual > t.budget ==> nothing_left_to_cut(t, t.shorten(st).messages),
    decreases st.actual,
{
    let a = t.request.messages;
    let fresh = Shortening { progress: false, ..st };
    let all = candidates(st.messages, last_user(a), t.required, t.locked);
    let cs = arranged(all);
    assert forall|k: int| 0 <= k < cs.len() implies all.contains(#[trigger] cs[k]) by {
        lemma_arranged_from(all, k);
    }
    lemma_pass_texts(t, a, st.messages, fresh, cs);
    lemma_pass_shrinks(t, fresh, cs);
    let p = t.full_pass(st);
    assert(p == t.pass(fresh, cs));
    if !(p.actual <= t.budget || !p.progress) {
        lemma_shorten_to_the_end(t, p);
    } else if p.actual > t.budget {
        lemma_pass_without_progress(t, fresh, cs);
        let s = st.messages;
        assert forall|b: Seq<MessageView>, i: int, field: TextField| #[trigger]
            one_text_cut(t, s, b, i, field) implies spare_chars(
            s[i],
            field,
            t.required,
            t.locked,
        ) < 512 by {
            let spare = spare_chars(s[i], field, t.required, t.locked);
            if spare >= 512 {
                let c = Candidate {
                    priority: if s[i].role == "tool"@ {
                        0
                    } else {
                        1
                    },
                    chars: (spare + 256) as usize,
                    index: i as usize,
                    field,
                };
                lemma_what_may_be_shortened(s, last_user(a), t.required, t.locked, c);
                assert(all.contains(c));
                lemma_arranged_items(all);
                all.to_multiset_ensures();
                cs.to_multiset_ensures();
                assert(all.to_multiset().count(c) > 0);
                assert(cs.contains(c));
                let k = choose|k: int| 0 <= k < cs.len() && cs[k] == c;
                assert(t.attempt(fresh, cs[k]) == fresh);
                assert(t.attempt(fresh, c).messages == b);
            }
        }
    }
}

/// Shortening goes on until the request fits or nothing is left to cut: where the request is still
/// too large, no cut of a long text would make it smaller.
pub proof fn lemma_shortening_does_not_give_up(t: Trimming)
    requires
        t.request.messages.len() <= usize::MAX,
    ensures
        t.shortened().actual > t.budget ==> nothing_left_to_cut(t, t.shortened().messages),
{
    let st = Shortening {
        messages: t.request.messages,
        actual: t.size(t.request.messages),
        touched: Seq::empty(),
        progress: false,
    };
    lemma_only_texts_reflexive(t.request.messages, t.required);
    if st.actual > t.budget {
        lemma_shorten_to_the_end(t, st);
    }
}

/// The size of a message that an error tells.
pub open spec fn told_size(v: JsonView) -> int {
    match member(v, "tokens"@) {
        Some(JsonView::Int(n)) => n,
        _ => -1,
    }
}

/// A failure for want of room says how much room there is, how large the request is, and which
/// messages are the largest: three at most, the larger first, each with its place, its role and its
/// size; a message that is not among them is no larger than any of them.
pub proof fn lemma_failure_names_the_largest(
    r: RequestView,
    budget: nat,
    factor: Fl,
    baseline: Option<BaselineView>,
    k: int,
    j: int,
)
    requires
        r.messages.len() <= usize::MAX,
        0 <= k < j,
        j < 3,
        j < r.messages.len(),
    ensures
        ({
            let e = budget_error(r, budget, factor, baseline);
            let listed = largest_values(r.messages, factor);
            &&& e.code == ErrorCode::ContextBudgetExceeded
            &&& e.detail.dom().contains("budget"@) && e.detail["budget"@] == JsonView::Int(
                budget as int,
            )
            &&& e.detail.dom().contains("actual"@) && e.detail["actual"@] == JsonView::Int(
                calibrated(r, factor, baseline) as int,
            )
            &&& e.detail.dom().contains("top_3_largest_messages"@)
                && e.detail["top_3_largest_messages"@] == JsonView::Array(listed)
            &&& listed.len() == if r.messages.len() < 3 {
                r.messages.len()
            } else {
                3
            }
            &&& told_size(listed[k]) >= told_size(listed[j])
        }),
{
    reveal_strlit("budget");
    reveal_strlit("actual");
    reveal_strlit("top_3_largest_messages");
    assert("budget"@[0] != "actual"@[0]);
    assert("top_3_largest_messages"@.len() == 22 && "budget"@.len() == 6 && "actual"@.len() == 6);
    reveal_strlit("index");
    reveal_strlit("role");
    reveal_strlit("tokens");
    assert("tokens"@.len() == 6 && "role"@.len() == 4 && "index"@.len() == 5);
    let s = sized(r.messages, factor);
    lemma_arranged_items(s);
    lemma_arranged_in_order(s);
    let order = arranged(s);
    assert(!order[j].before(order[k]));
}

/// Each of the largest messages is told with its place, its role and its size.
pub proof fn lemma_largest_are_told(s: Seq<MessageView>, factor: Fl, k: int) -> (i: int)
    requires
        s.len() <= usize::MAX,
        0 <= k < largest_values(s, factor).len(),
    ensures
        0 <= i < s.len(),
        member(largest_values(s, factor)[k], "index"@) == Some(JsonView::Int(i)),
        member(largest_values(s, factor)[k], "role"@) == Some(JsonView::Text(s[i].role)),
        told_size(largest_values(s, factor)[k]) == scaled(
            capped(message_tokens(s[i])),
            factor,
        ) as u64,
{
    reveal_strlit("index");
    reveal_strlit("role");
    reveal_strlit("tokens");
    assert("tokens"@.len() == 6 && "role"@.len() == 4 && "index"@.len() == 5);
    let all = sized(s, factor);
    lemma_arranged_items(all);
    lemma_arranged_from(all, k);
    let i = choose|i: int| 0 <= i < all.len() && all[i] == arranged(all)[k];
    assert(all[i].index == i);
    i
}

/// A message that is not told as one of the largest is no larger than any that is.
pub proof fn lemma_no_larger_is_left_out(s: Seq<MessageView>, factor: Fl, i: int, k: int)
    requires
        s.len() <= usize::MAX,
        0 <= i < s.len(),
        0 <= k < largest_values(s, factor).len(),
        forall|j: int| #![trigger largest_values(s, factor)[j]]
            0 <= j < largest_values(s, factor).len() ==> member(
                largest_values(s, factor)[j],
                "index"@,
            ) != Some(JsonView::Int(i)),
    ensures
        scaled(capped(message_tokens(s[i])), factor) as u64 <= told_size(
            largest_values(s, factor)[k],
        ),
{
    reveal_strlit("index");
    reveal_strlit("role");
    reveal_strlit("tokens");
    assert("tokens"@.len() == 6 && "role"@.len() == 4 && "index"@.len() == 5);
    let all = sized(s, factor);
    let order = arranged(all);
    let listed = largest_values(s, factor);
    lemma_arranged_items(all);
    lemma_arranged_in_order(all);
    order.to_multiset_ensures();
    all.to_multiset_ensures();
    assert(all.contains(all[i]));
    assert(all.to_multiset().count(all[i]) > 0);
    assert(order.contains(all[i]));
    let p = choose|p: int| 0 <= p < order.len() && order[p] == all[i];
    if p < listed.len() {
        assert(member(listed[p], "index"@) == Some(JsonView::Int(i)));
    }
    assert(k < p);
    assert(!order[p].before(order[k]));
}

/// Material that must not be lost stands in the messages behind this, as long as there is a message
/// of the user; what the user wrote stays, word for word, and no other message changes.
pub proof fn lemma_required_material_is_given(s: Seq<MessageView>, required: Seq<char>, i: int)
    ensures
        ({
            let (after, given) = with_required(s, required);
            &&& last_user(s) is Some ==> has_reference(after, required)
            &&& !given ==> after == s
            &&& has_reference(s, required) ==> !given
            &&& after.len() == s.len()
            &&& 0 <= i < s.len() && last_user(s) != Some(i) ==> after[i] == s[i]
            &&& given && 0 <= i < s.len() && last_user(s) == Some(i) ==> after[i]
                == (MessageView { content: after[i].content, ..s[i] }) && after[i].content is Some
                && after[i].content->0 == required + USER_REQUEST_HEADING@ + text_or_empty(
                s[i].content,
            )
        }),
{
    lemma_last_user(s);
    let (after, given) = with_required(s, required);
    if given {
        let u = last_user(s)->0;
        let text = with_reference(required, text_or_empty(s[u].content));
        assert(text.subrange(0, required.len() as int) =~= required);
        assert(after[u].content == Some(text));
        assert(after[u].role == s[u].role);
        assert(occurs_at(after[u].content->0, required, 0));
        assert(has_reference(after, required));
    }
}

} // verus!
