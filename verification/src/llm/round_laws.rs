//! Which rounds trimming drops, and which stay.

use crate::llm::context_budget::RECENT_ROUNDS_TO_KEEP;
use crate::llm::rounds::{
    first_round_end, instructions, leading_instructions, lemma_first_round, lemma_last_user,
    lemma_note_reads_back, lemma_second_start, noted, omission_note, omitted, rounds, second_start,
    size_capped, spoken, without_first_round, without_notes,
};
use crate::llm::trim::{lemma_drop_one_shrinks, with_required, Dropping, Trimming};
use crate::llm::trim_laws::{
    lemma_note_parts, lemma_parts_of_unnoted, lemma_shortening_changes_texts_only, shape, shapes,
    spoken_messages,
};
use crate::llm::types::{lemma_roles, MessageView};
use vstd::prelude::*;

verus! {

/// The rounds of a conversation, as their messages.
pub open spec fn spoken_rounds(s: Seq<MessageView>) -> Seq<Seq<MessageView>> {
    Seq::new(rounds(s).len(), |k: int| Seq::new(rounds(s)[k].len(), |i: int| s[rounds(s)[k][i]]))
}

/// The rounds of a conversation, as what their messages say besides their contents.
pub open spec fn round_shapes(s: Seq<MessageView>) -> Seq<Seq<MessageView>> {
    spoken_rounds(shapes(s))
}

/// The messages without their first rounds; the instructions stay.
pub open spec fn without_rounds(s: Seq<MessageView>, n: nat) -> Seq<MessageView>
    decreases n,
{
    if n == 0 {
        s
    } else {
        without_rounds(without_first_round(s), (n - 1) as nat)
    }
}

/// The rounds with one more message.
spec fn grown(r: Seq<Seq<MessageView>>, m: MessageView) -> Seq<Seq<MessageView>> {
    if !spoken(m) {
        r
    } else if m.role == "user"@ || r.len() == 0 {
        r.push(seq![m])
    } else {
        r.update(r.len() - 1, r.last().push(m))
    }
}

proof fn lemma_places_within(s: Seq<MessageView>)
    ensures
        forall|k: int, i: int|
            0 <= k < rounds(s).len() && 0 <= i < rounds(s)[k].len() ==> 0 <= #[trigger] rounds(
                s,
            )[k][i] < s.len(),
    decreases s.len(),
{
    if s.len() > 0 {
        let r = rounds(s.drop_last());
        lemma_places_within(s.drop_last());
        assert forall|k: int, i: int|
            0 <= k < rounds(s).len() && 0 <= i < rounds(s)[k].len() implies 0
            <= #[trigger] rounds(s)[k][i] < s.len() by {
            if k < r.len() && i < r[k].len() {
                assert(rounds(s)[k][i] == r[k][i]);
            }
        }
    }
}

proof fn lemma_rounds_grow(s: Seq<MessageView>, m: MessageView)
    ensures
        spoken_rounds(s.push(m)) == grown(spoken_rounds(s), m),
{
    let u = s.push(m);
    assert(u.drop_last() =~= s);
    assert(u.last() == m);
    lemma_places_within(s);
    let old_rounds = rounds(s);
    let new_rounds = rounds(u);
    let a = spoken_rounds(u);
    let b = grown(spoken_rounds(s), m);
    assert(a.len() == b.len());
    assert forall|k: int| 0 <= k < a.len() implies a[k] == b[k] by {
        if k < old_rounds.len() {
            assert forall|i: int| 0 <= i < old_rounds[k].len() implies u[old_rounds[k][i]]
                == s[old_rounds[k][i]] by {}
        }
        assert(a[k] =~= b[k]);
    }
    assert(a =~= b);
}

proof fn lemma_no_rounds(s: Seq<MessageView>)
    requires
        s.len() == 0,
    ensures
        spoken_rounds(s) == Seq::<Seq<MessageView>>::empty(),
{
    assert(spoken_rounds(s) =~= Seq::<Seq<MessageView>>::empty());
}

proof fn lemma_rounds_of_last(s: Seq<MessageView>)
    requires
        s.len() > 0,
    ensures
        spoken_rounds(s) == grown(spoken_rounds(s.drop_last()), s.last()),
{
    lemma_rounds_grow(s.drop_last(), s.last());
    assert(s.drop_last().push(s.last()) =~= s);
}

/// What is no instruction alone decides the rounds.
proof fn lemma_rounds_of_spoken(s: Seq<MessageView>)
    ensures
        spoken_rounds(s) == spoken_rounds(spoken_messages(s)),
    decreases s.len(),
{
    if s.len() == 0 {
        assert(spoken_messages(s) =~= s);
    } else {
        lemma_rounds_of_spoken(s.drop_last());
        lemma_rounds_of_last(s);
        if spoken(s.last()) {
            lemma_rounds_grow(spoken_messages(s.drop_last()), s.last());
        }
    }
}

/// Messages that begin with a user message begin a round behind others.
proof fn lemma_rounds_of_sum(a: Seq<MessageView>, b: Seq<MessageView>)
    requires
        b.len() > 0 ==> b[0].role == "user"@,
    ensures
        spoken_rounds(a + b) == spoken_rounds(a) + spoken_rounds(b),
        b.len() > 0 ==> spoken_rounds(b).len() > 0,
    decreases b.len(),
{
    lemma_roles();
    if b.len() == 0 {
        lemma_no_rounds(b);
        assert(a + b =~= a);
        assert(spoken_rounds(a) + spoken_rounds(b) =~= spoken_rounds(a));
    } else {
        let c = b.drop_last();
        let m = b.last();
        lemma_rounds_of_sum(a, c);
        lemma_rounds_of_last(b);
        lemma_rounds_of_last(a + b);
        assert((a + b).drop_last() =~= a + c);
        assert((a + b).last() == m);
        if c.len() == 0 {
            lemma_no_rounds(c);
            assert(m == b[0]);
        }
        assert(grown(spoken_rounds(a) + spoken_rounds(c), m) =~= spoken_rounds(a) + grown(
            spoken_rounds(c),
            m,
        ));
    }
}

proof fn lemma_rounds_of_instructions(s: Seq<MessageView>)
    ensures
        spoken_rounds(instructions(s)) == Seq::<Seq<MessageView>>::empty(),
    decreases s.len(),
{
    if s.len() == 0 {
        lemma_no_rounds(s);
    } else {
        lemma_rounds_of_instructions(s.drop_last());
        if s.last().role == "system"@ {
            lemma_rounds_grow(instructions(s.drop_last()), s.last());
        }
    }
}

proof fn lemma_second_start_cut(s: Seq<MessageView>, i: int, started: bool)
    requires
        0 <= i <= s.len(),
    ensures
        ({
            let e = second_start(s, i, started);
            second_start(s.take(e), i, started) == e
        }),
    decreases s.len() - i,
{
    lemma_second_start(s, i, started);
    let e = second_start(s, i, started);
    if i < s.len() {
        if s[i].role == "system"@ {
            lemma_second_start(s, i + 1, started);
            lemma_second_start_cut(s, i + 1, started);
            assert(s.take(e)[i] == s[i]);
        } else if !(s[i].role == "user"@ && started) {
            lemma_second_start(s, i + 1, true);
            lemma_second_start_cut(s, i + 1, true);
            assert(s.take(e)[i] == s[i]);
        }
    }
}

/// Without the first round, the other rounds are left as they were.
pub proof fn lemma_other_rounds_stay(s: Seq<MessageView>)
    requires
        rounds(s).len() >= 1,
    ensures
        spoken_rounds(without_first_round(s)) == spoken_rounds(s).skip(1),
{
    lemma_first_round(s);
    lemma_second_start(s, 0, false);
    lemma_second_start_cut(s, 0, false);
    let e = first_round_end(s);
    let a = s.take(e);
    let b = s.skip(e);
    assert(s =~= a + b);
    if b.len() > 0 {
        assert(b[0] == s[e]);
    } else {
        assert(a =~= s);
    }
    lemma_first_round(a);
    if e < s.len() {
        let j = choose|j: int| 0 <= j < e && #[trigger] spoken(s[j]);
        assert(spoken(a[j]));
    }
    assert(rounds(a).len() == 1);
    lemma_rounds_of_sum(a, b);
    lemma_rounds_of_sum(instructions(a), b);
    lemma_rounds_of_instructions(a);
    assert(spoken_rounds(s).skip(1) =~= spoken_rounds(b));
    assert(Seq::<Seq<MessageView>>::empty() + spoken_rounds(b) =~= spoken_rounds(b));
}

/// Without some of the first rounds, the other rounds are left as they were.
pub proof fn lemma_later_rounds_stay(s: Seq<MessageView>, n: nat)
    requires
        n <= rounds(s).len(),
    ensures
        spoken_rounds(without_rounds(s, n)) == spoken_rounds(s).skip(n as int),
    decreases n,
{
    if n == 0 {
        assert(spoken_rounds(s).skip(0) =~= spoken_rounds(s));
    } else {
        let fewer = without_first_round(s);
        lemma_other_rounds_stay(s);
        assert(spoken_rounds(fewer).len() == rounds(fewer).len());
        lemma_later_rounds_stay(fewer, (n - 1) as nat);
        assert(spoken_rounds(s).skip(1).skip(n - 1) =~= spoken_rounds(s).skip(n as int));
    }
}

proof fn lemma_shape_of_last(s: Seq<MessageView>)
    requires
        s.len() > 0,
    ensures
        shapes(s).drop_last() == shapes(s.drop_last()),
        shapes(s).last() == shape(s.last()),
{
    assert(shapes(s).drop_last() =~= shapes(s.drop_last()));
}

/// Roles alone decide where a round begins.
proof fn lemma_rounds_of_roles(a: Seq<MessageView>, b: Seq<MessageView>)
    requires
        a.len() == b.len(),
        forall|i: int| #![trigger b[i]] 0 <= i < b.len() ==> a[i].role == b[i].role,
    ensures
        rounds(a) == rounds(b),
    decreases a.len(),
{
    if a.len() > 0 {
        let x = a.drop_last();
        let y = b.drop_last();
        assert forall|i: int| #![trigger y[i]] 0 <= i < y.len() implies x[i].role == y[i].role by {
            assert(y[i] == b[i] && x[i] == a[i]);
        }
        lemma_rounds_of_roles(x, y);
        assert(b.last() == b[a.len() - 1]);
        assert(a.last() == a[a.len() - 1]);
    }
}

proof fn lemma_rounds_of_shapes(s: Seq<MessageView>)
    ensures
        rounds(shapes(s)) == rounds(s),
{
    assert forall|i: int| #![trigger s[i]] 0 <= i < s.len() implies shapes(s)[i].role
        == s[i].role by {}
    lemma_rounds_of_roles(shapes(s), s);
}

proof fn lemma_spoken_shapes(s: Seq<MessageView>)
    ensures
        spoken_messages(shapes(s)) == shapes(spoken_messages(s)),
    decreases s.len(),
{
    if s.len() == 0 {
        assert(shapes(s) =~= s);
    } else {
        lemma_shape_of_last(s);
        lemma_spoken_shapes(s.drop_last());
        assert(spoken_messages(shapes(s)) =~= shapes(spoken_messages(s)));
    }
}

proof fn lemma_round_shapes_of_spoken(s: Seq<MessageView>)
    ensures
        round_shapes(s) == round_shapes(spoken_messages(s)),
{
    lemma_spoken_shapes(s);
    lemma_rounds_of_spoken(shapes(s));
}

proof fn lemma_instructions_of_shapes(s: Seq<MessageView>)
    ensures
        instructions(shapes(s)) == shapes(instructions(s)),
    decreases s.len(),
{
    if s.len() == 0 {
        assert(shapes(s) =~= s);
    } else {
        lemma_shape_of_last(s);
        lemma_instructions_of_shapes(s.drop_last());
        assert(instructions(shapes(s)) =~= shapes(instructions(s)));
    }
}

proof fn lemma_second_start_of_shapes(s: Seq<MessageView>, i: int, started: bool)
    requires
        0 <= i <= s.len(),
    ensures
        second_start(shapes(s), i, started) == second_start(s, i, started),
    decreases s.len() - i,
{
    if i < s.len() {
        assert(shapes(s)[i] == shape(s[i]));
        lemma_second_start_of_shapes(s, i + 1, started);
        lemma_second_start_of_shapes(s, i + 1, true);
    }
}

proof fn lemma_fewer_shapes(s: Seq<MessageView>)
    ensures
        without_first_round(shapes(s)) == shapes(without_first_round(s)),
{
    lemma_second_start(s, 0, false);
    lemma_second_start_of_shapes(s, 0, false);
    let e = first_round_end(s);
    assert(shapes(s).take(e) =~= shapes(s.take(e)));
    lemma_instructions_of_shapes(s.take(e));
    assert(without_first_round(shapes(s)) =~= shapes(without_first_round(s)));
}

proof fn lemma_shapes_without_rounds(s: Seq<MessageView>, n: nat)
    ensures
        without_rounds(shapes(s), n) == shapes(without_rounds(s, n)),
    decreases n,
{
    if n > 0 {
        lemma_fewer_shapes(s);
        lemma_shapes_without_rounds(without_first_round(s), (n - 1) as nat);
    }
}

proof fn lemma_carried_shapes(s: Seq<MessageView>, required: Seq<char>)
    ensures
        shapes(with_required(s, required).0) == shapes(s),
{
    lemma_last_user(s);
    assert(shapes(with_required(s, required).0) =~= shapes(s));
}

/// Dropping takes exactly the first rounds away, as many as it counts, and leaves at least as many
/// as it is to keep, or all where there are fewer. Contents differ only where material was given to
/// the last user message.
pub proof fn lemma_first_rounds_dropped(t: Trimming, keep: nat, st: Dropping)
    requires
        keep >= 1,
    ensures
        ({
            let d = t.drop_rounds(keep, st);
            let n = (d.dropped - st.dropped) as nat;
            &&& d.dropped >= st.dropped
            &&& n <= rounds(st.messages).len()
            &&& rounds(d.messages).len() == rounds(st.messages).len() - n
            &&& n > 0 ==> rounds(d.messages).len() >= keep
            &&& shapes(d.messages) == shapes(without_rounds(st.messages, n))
            &&& !d.carried ==> d.messages == without_rounds(st.messages, n)
            &&& st.carried ==> d.carried
        }),
    decreases st.messages.len(),
{
    if !(rounds(st.messages).len() <= keep || (st.actual <= t.budget && !st.must)) {
        let next = t.drop_one(st);
        let fewer = without_first_round(st.messages);
        lemma_drop_one_shrinks(t, st);
        lemma_first_rounds_dropped(t, keep, next);
        lemma_other_rounds_stay(st.messages);
        assert(spoken_rounds(fewer).len() == rounds(fewer).len());
        match t.required {
            Some(q) => {
                lemma_carried_shapes(fewer, q);
            },
            None => {},
        }
        assert(shapes(next.messages) == shapes(fewer));
        lemma_rounds_of_shapes(next.messages);
        lemma_rounds_of_shapes(fewer);
        let d = t.drop_rounds(keep, st);
        let n = (d.dropped - st.dropped) as nat;
        lemma_shapes_without_rounds(next.messages, (n - 1) as nat);
        lemma_shapes_without_rounds(fewer, (n - 1) as nat);
    }
}

/// How many rounds trimming keeps at least.
pub open spec fn rounds_kept(force: bool) -> nat {
    if force {
        1
    } else {
        RECENT_ROUNDS_TO_KEEP as nat
    }
}

/// Of the rounds of a conversation, exactly the first are gone after trimming, as many as it
/// reports; the others are left in order. One round stays at least where trimming was forced, else
/// the most recent three do, or all where there are fewer. Contents differ from the shortened ones
/// only where material was given to the last user message.
pub proof fn lemma_trimming_drops_first_rounds(t: Trimming, force: bool)
    requires
        t.request.messages.len() <= usize::MAX,
    ensures
        ({
            let done = t.taken(force).trimmed(force);
            let short = t.taken(force).shortened().messages;
            let before = rounds(t.request.messages).len();
            let after = rounds(done.messages).len();
            &&& done.dropped <= before
            &&& after == before - done.dropped
            &&& done.dropped > 0 ==> after >= rounds_kept(force)
            &&& round_shapes(done.messages) == round_shapes(short).skip(
                done.dropped as int,
            )
            &&& !done.carried ==> spoken_rounds(done.messages) == spoken_rounds(short).skip(
                done.dropped as int,
            )
        }),
{
    let u = t.taken(force);
    let done = u.trimmed(force);
    let short = u.shortened().messages;
    lemma_shortening_changes_texts_only(u);
    let (messages, actual, prior) = u.unnoted(force);
    let st = Dropping { messages, actual, dropped: 0, must: force, carried: false };
    let d = u.dropped(force);
    assert(d == u.drop_rounds(rounds_kept(force), st));
    lemma_first_rounds_dropped(u, rounds_kept(force), st);
    lemma_later_rounds_stay(messages, d.dropped);
    lemma_parts_of_unnoted(short);
    lemma_rounds_of_spoken(messages);
    lemma_rounds_of_spoken(short);
    if d.dropped > 0 || prior > 0 {
        lemma_note_parts(d.messages, size_capped(prior + d.dropped));
    }
    lemma_rounds_of_spoken(done.messages);
    lemma_rounds_of_spoken(d.messages);
    assert(spoken_rounds(done.messages) == spoken_rounds(d.messages));
    assert(spoken_rounds(messages) == spoken_rounds(short));
    assert(rounds(messages).len() == spoken_rounds(messages).len());
    assert(rounds(short).len() == spoken_rounds(short).len());
    assert(rounds(d.messages).len() == spoken_rounds(d.messages).len());
    assert(rounds(done.messages).len() == spoken_rounds(done.messages).len());
    lemma_rounds_of_roles(t.request.messages, short);
    lemma_round_shapes_of_spoken(done.messages);
    lemma_round_shapes_of_spoken(d.messages);
    lemma_round_shapes_of_spoken(messages);
    lemma_round_shapes_of_spoken(short);
    lemma_rounds_of_shapes(messages);
    lemma_shapes_without_rounds(messages, d.dropped);
    lemma_later_rounds_stay(shapes(messages), d.dropped);
}

/// The messages after their first rounds were dropped one by one, where material that must stay goes
/// to the last user message whenever the message that had it is gone.
pub open spec fn rounds_dropped(
    s: Seq<MessageView>,
    required: Option<Seq<char>>,
    n: nat,
) -> Seq<MessageView>
    decreases n,
{
    if n == 0 {
        s
    } else {
        let fewer = without_first_round(rounds_dropped(s, required, (n - 1) as nat));
        match required {
            Some(q) => with_required(fewer, q).0,
            None => fewer,
        }
    }
}

proof fn lemma_rounds_dropped_from(s: Seq<MessageView>, required: Option<Seq<char>>, n: nat)
    ensures
        rounds_dropped(rounds_dropped(s, required, 1), required, n) == rounds_dropped(
            s,
            required,
            n + 1,
        ),
    decreases n,
{
    if n > 0 {
        lemma_rounds_dropped_from(s, required, (n - 1) as nat);
    }
}

/// Rounds are dropped one at a time and no more of them than must be: after any smaller number of
/// drops the request was still too large, but for the one round that must go in any case. And as
/// many are dropped as it takes: what is left fits, or no more may be dropped.
pub proof fn lemma_no_round_dropped_in_vain(t: Trimming, keep: nat, st: Dropping)
    requires
        keep >= 1,
        st.actual == t.size(st.messages),
    ensures
        ({
            let d = t.drop_rounds(keep, st);
            let n = (d.dropped - st.dropped) as nat;
            &&& d.dropped >= st.dropped
            &&& d.messages == rounds_dropped(st.messages, t.required, n)
            &&& d.actual == t.size(d.messages)
            &&& forall|k: nat| #![trigger rounds_dropped(st.messages, t.required, k)]
                k < n && (k > 0 || !st.must) ==> t.size(
                    rounds_dropped(st.messages, t.required, k),
                ) > t.budget
            &&& t.size(d.messages) <= t.budget || rounds(d.messages).len() <= keep
            &&& st.must && rounds(st.messages).len() > keep ==> n >= 1
            &&& t.required is None ==> d.messages == without_rounds(st.messages, n)
        }),
    decreases st.messages.len(),
{
    if !(rounds(st.messages).len() <= keep || (st.actual <= t.budget && !st.must)) {
        let next = t.drop_one(st);
        lemma_drop_one_shrinks(t, st);
        lemma_no_round_dropped_in_vain(t, keep, next);
        assert(rounds_dropped(st.messages, t.required, 0) == st.messages);
        assert(rounds_dropped(st.messages, t.required, 1) == next.messages);
        let d = t.drop_rounds(keep, st);
        let m = (d.dropped - next.dropped) as nat;
        lemma_rounds_dropped_from(st.messages, t.required, m);
        assert forall|k: nat| #![trigger rounds_dropped(st.messages, t.required, k)] k < m + 1 && (k
            > 0 || !st.must) implies t.size(rounds_dropped(st.messages, t.required, k))
            > t.budget by {
            if k > 0 {
                lemma_rounds_dropped_from(st.messages, t.required, (k - 1) as nat);
                assert(rounds_dropped(next.messages, t.required, (k - 1) as nat) == rounds_dropped(
                    st.messages,
                    t.required,
                    k,
                ));
            }
        }
    }
}

/// Trimming drops no more rounds than it must. With any smaller number of rounds dropped, the
/// shortened messages were still too large, but for the one round that goes in any case where that
/// is forced. And it drops as many as it takes: what is left fits before the note on the dropped
/// rounds is added, or only the rounds are left that are kept in any case.
pub proof fn lemma_trimming_drops_no_more_than_it_must(t: Trimming, force: bool)
    requires
        t.request.messages.len() <= usize::MAX,
    ensures
        ({
            let u = t.taken(force);
            let n = u.trimmed(force).dropped;
            let short = u.shortened().messages;
            let start = if u.size(short) > u.budget || force {
                without_notes(short)
            } else {
                short
            };
            &&& forall|k: nat| #![trigger rounds_dropped(start, t.required, k)]
                k < n && (k > 0 || !force) ==> u.size(rounds_dropped(start, t.required, k))
                    > t.budget
            &&& u.size(rounds_dropped(start, t.required, n)) <= t.budget || rounds(
                rounds_dropped(start, t.required, n),
            ).len() <= rounds_kept(force)
            &&& force && rounds(t.request.messages).len() > 1 ==> n >= 1
            &&& !force && u.size(short) <= u.budget ==> n == 0
        }),
{
    let u = t.taken(force);
    lemma_shortening_changes_texts_only(u);
    let (messages, actual, prior) = u.unnoted(force);
    let st = Dropping { messages, actual, dropped: 0, must: force, carried: false };
    lemma_no_round_dropped_in_vain(u, rounds_kept(force), st);
    let short = u.shortened().messages;
    lemma_parts_of_unnoted(short);
    lemma_rounds_of_spoken(messages);
    lemma_rounds_of_spoken(short);
    assert(rounds(messages).len() == spoken_rounds(messages).len());
    assert(rounds(short).len() == spoken_rounds(short).len());
    lemma_rounds_of_roles(t.request.messages, short);
}

/// The note on dropped rounds tells how many are missing in all: those dropped now, and those that
/// earlier notes told of. There is one note, behind the instructions at the front, exactly where
/// rounds are missing.
pub proof fn lemma_note_tells_what_is_missing(t: Trimming, force: bool)
    ensures
        ({
            let done = t.trimmed(force);
            let d = t.dropped(force);
            let short = t.shortened().messages;
            let looked = t.shortened().actual > t.budget || force;
            let prior: nat = if looked {
                size_capped(noted(short))
            } else {
                0
            };
            let missing = if prior + done.dropped <= usize::MAX {
                prior + done.dropped
            } else {
                usize::MAX as nat
            };
            &&& done.dropped == 0 && prior == 0 ==> done.messages == d.messages
            &&& done.dropped > 0 || prior > 0 ==> done.messages == d.messages.insert(
                leading_instructions(d.messages),
                MessageView::plain("system"@, omission_note(missing)),
            ) && omitted(MessageView::plain("system"@, omission_note(missing))) == Some(missing)
        }),
{
    let done = t.trimmed(force);
    let prior = t.unnoted(force).2;
    lemma_note_reads_back(size_capped(prior + done.dropped));
}

} // verus!
