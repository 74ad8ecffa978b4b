//! The structure of a conversation: blocks of messages that belong together, and rounds.

use crate::llm::types::{lemma_roles, Message, MessageView};
use crate::model::{lemma_views_push, views};
use crate::text::{
    decimal, decimal_text, lemma_decimal_round_trip, lemma_decimal_value, lemma_split_at, occurs_at,
    parse_usize, parsed_usize, after_prefix, same_text, split_at_first, split_first, strip_prefix,
};
use std::ops::Range;
use vstd::prelude::*;

verus! {

/// What the note on omitted rounds begins with.
pub const OMITTED_ROUNDS_PREFIX: &'static str = "[早期 ";

/// What the note on omitted rounds ends with.
pub const OMITTED_ROUNDS_SUFFIX: &'static str = " 轮对话因超出上下文已省略]";

/// Where a run of tool results ends.
pub open spec fn results_end(s: Seq<MessageView>, i: int) -> int
    decreases s.len() - i,
{
    if 0 <= i < s.len() && s[i].role == "tool"@ {
        results_end(s, i + 1)
    } else {
        i
    }
}

/// Where the block that begins at a message ends: a message that calls tools takes in the results
/// that follow it.
pub open spec fn block_end(s: Seq<MessageView>, i: int) -> int {
    if s[i].role == "assistant"@ && s[i].calls_tools() {
        results_end(s, i + 1)
    } else {
        i + 1
    }
}

/// A run of tool results ends at the first message that is none.
pub proof fn lemma_results_end(s: Seq<MessageView>, i: int)
    requires
        0 <= i <= s.len(),
    ensures
        i <= results_end(s, i) <= s.len(),
        forall|j: int| i <= j < results_end(s, i) ==> (#[trigger] s[j]).role == "tool"@,
        results_end(s, i) < s.len() ==> s[results_end(s, i)].role != "tool"@,
    decreases s.len() - i,
{
    if i < s.len() && s[i].role == "tool"@ {
        lemma_results_end(s, i + 1);
    }
}

/// The blocks from a message on, each as where it begins and ends.
pub open spec fn blocks_from(s: Seq<MessageView>, from: int) -> Seq<(int, int)>
    decreases s.len() - from,
    when 0 <= from
{
    if from < s.len() {
        proof {
            lemma_results_end(s, from + 1);
        }
        seq![(from, block_end(s, from))] + blocks_from(s, block_end(s, from))
    } else {
        Seq::empty()
    }
}

/// Whether index ranges are given blocks.
pub open spec fn ranges_are(r: Seq<Range<usize>>, b: Seq<(int, int)>) -> bool {
    r.len() == b.len() && forall|k: int|
        0 <= k < r.len() ==> (#[trigger] r[k]).start == b[k].0 && r[k].end == b[k].1
}

/// The blocks of a conversation, which must not be torn apart.
pub fn message_blocks(messages: &[Message]) -> (r: Vec<Range<usize>>)
    ensures
        ranges_are(r@, blocks_from(views(messages@), 0)),
{
    let mut blocks: Vec<Range<usize>> = Vec::new();
    let ghost s = views(messages@);
    let n: usize = messages.len();
    let mut index: usize = 0;
    let ghost mut done: Seq<(int, int)> = Seq::empty();
    proof {
        assert(done + blocks_from(s, 0) =~= blocks_from(s, 0));
    }
    while index < n
        invariant
            n == messages@.len(),
            s == views(messages@),
            index <= n,
            ranges_are(blocks@, done),
            done + blocks_from(s, index as int) == blocks_from(s, 0),
        decreases n - index,
    {
        let start: usize = index;
        index = index + 1;
        let calls: bool = match &messages[start].tool_calls {
            Some(calls) => calls.len() > 0,
            None => false,
        };
        proof {
            assert(s[start as int] == messages@[start as int]@);
            lemma_results_end(s, start + 1);
        }
        if same_text(messages[start].role.as_str(), "assistant") && calls {
            while index < n && same_text(messages[index].role.as_str(), "tool")
                invariant
                    n == messages@.len(),
                    s == views(messages@),
                    start < index <= n,
                    results_end(s, start + 1) == results_end(s, index as int),
                decreases n - index,
            {
                assert(s[index as int] == messages@[index as int]@);
                index = index + 1;
            }
            proof {
                if index < n {
                    assert(s[index as int] == messages@[index as int]@);
                }
            }
        }
        assert(index == block_end(s, start as int));
        proof {
            let next = done.push((start as int, index as int));
            assert(next + blocks_from(s, index as int) =~= done + blocks_from(s, start as int));
            done = next;
        }
        blocks.push(Range { start, end: index });
    }
    assert(done + blocks_from(s, index as int) =~= done);
    blocks
}

/// The rounds of a conversation, as the places of their messages: a user message begins a round,
/// and so does the first message of all; instructions belong to none.
pub open spec fn rounds(s: Seq<MessageView>) -> Seq<Seq<int>>
    decreases s.len(),
{
    if s.len() == 0 {
        Seq::empty()
    } else {
        joined(rounds(s.drop_last()), s.last(), s.len() - 1)
    }
}

/// The rounds with one more message.
pub open spec fn joined(r: Seq<Seq<int>>, m: MessageView, i: int) -> Seq<Seq<int>> {
    if m.role == "system"@ {
        r
    } else if m.role == "user"@ || r.len() == 0 {
        r.push(seq![i])
    } else {
        r.update(r.len() - 1, r.last().push(i))
    }
}

/// Indices as mathematical integers.
pub open spec fn places(v: Seq<usize>) -> Seq<int> {
    Seq::new(v.len(), |i: int| v[i] as int)
}

/// Lists of indices as mathematical integers.
pub open spec fn place_lists(v: Seq<Vec<usize>>) -> Seq<Seq<int>> {
    Seq::new(v.len(), |i: int| places(v[i]@))
}

fn join_round(rounds: &mut Vec<Vec<usize>>, begins: bool, i: usize)
    requires
        begins || old(rounds)@.len() > 0,
    ensures
        place_lists(final(rounds)@) == if begins {
            place_lists(old(rounds)@).push(seq![i as int])
        } else {
            let r = place_lists(old(rounds)@);
            r.update(r.len() - 1, r.last().push(i as int))
        },
{
    let ghost before = rounds@;
    if begins {
        let mut round: Vec<usize> = Vec::new();
        round.push(i);
        assert(places(round@) =~= seq![i as int]);
        rounds.push(round);
        assert(place_lists(rounds@) =~= place_lists(before).push(seq![i as int]));
    } else {
        let last: usize = rounds.len() - 1;
        let mut round: Vec<usize> = rounds.pop().unwrap();
        round.push(i);
        assert(places(round@) =~= places(before.last()@).push(i as int));
        rounds.push(round);
        assert(place_lists(rounds@) =~= place_lists(before).update(
            last as int,
            place_lists(before).last().push(i as int),
        ));
    }
}

/// The rounds of a conversation, as the places of their messages.
pub fn conversation_rounds(messages: &[Message]) -> (r: Vec<Vec<usize>>)
    ensures
        place_lists(r@) == rounds(views(messages@)),
{
    let mut result: Vec<Vec<usize>> = Vec::new();
    let ghost s = views(messages@);
    let blocks: Vec<Range<usize>> = message_blocks(messages);
    let ghost all = blocks_from(s, 0);
    let mut b: usize = 0;
    let ghost mut from: int = 0;
    assert(place_lists(result@) =~= Seq::<Seq<int>>::empty());
    proof {
        assert(all.skip(0) =~= all);
        lemma_roles();
    }
    while b < blocks.len()
        invariant
            s == views(messages@),
            b <= blocks@.len(),
            all == blocks_from(s, 0),
            ranges_are(blocks@, all),
            0 <= from <= s.len(),
            all.skip(b as int) == blocks_from(s, from),
            place_lists(result@) == rounds(s.take(from)),
            "tool"@ != "user"@ && "tool"@ != "system"@ && "assistant"@ != "system"@,
        decreases blocks@.len() - b,
    {
        let start: usize = blocks[b].start;
        let end: usize = blocks[b].end;
        proof {
            assert(all.skip(b as int).len() > 0);
            assert(from < s.len());
            lemma_results_end(s, from + 1);
            assert(all.skip(b as int)[0] == all[b as int]);
            assert(start == from && end == block_end(s, from));
            assert(all.skip(b + 1) =~= all.skip(b as int).drop_first());
            assert(all.skip(b as int).drop_first() =~= blocks_from(s, block_end(s, from)));
            assert(s[from] == messages@[from]@);
        }
        let role: &str = messages[start].role.as_str();
        if !same_text(role, "system") {
            let opens: bool = same_text(role, "user") || result.len() == 0;
            let mut i: usize = start;
            while i < end
                invariant
                    s == views(messages@),
                    start <= i <= end <= s.len(),
                    start < s.len(),
                    s[start as int].role != "system"@,
                    i == start ==> opens == (s[start as int].role == "user"@ || result@.len() == 0),
                    i > start ==> result@.len() > 0,
                    forall|j: int| start < j < end ==> (#[trigger] s[j]).role == "tool"@,
                    place_lists(result@) == rounds(s.take(i as int)),
                    "tool"@ != "user"@ && "tool"@ != "system"@,
                decreases end - i,
            {
                proof {
                    assert(s.take(i + 1).drop_last() =~= s.take(i as int));
                    assert(s.take(i + 1).last() == s[i as int]);
                    assert(place_lists(result@).len() == result@.len());
                }
                join_round(&mut result, opens && i == start, i);
                assert(place_lists(result@).len() == result@.len());
                i = i + 1;
            }
        } else {
            assert(s.take(from + 1).drop_last() =~= s.take(from));
            assert(s.take(from + 1).last() == s[from]);
        }
        proof {
            from = end as int;
        }
        b = b + 1;
    }
    proof {
        if from < s.len() {
            assert(blocks_from(s, from).len() > 0);
        }
        assert(s.take(from) =~= s);
    }
    result
}

/// Where the second round begins, looking from a message on; the end where there is none.
pub open spec fn second_start(s: Seq<MessageView>, i: int, started: bool) -> int
    decreases s.len() - i,
{
    if i >= s.len() {
        s.len() as int
    } else if s[i].role == "system"@ {
        second_start(s, i + 1, started)
    } else if s[i].role == "user"@ && started {
        i
    } else {
        second_start(s, i + 1, true)
    }
}

/// Where the first round ends.
pub open spec fn first_round_end(s: Seq<MessageView>) -> int {
    second_start(s, 0, false)
}

/// The instructions among messages.
pub open spec fn instructions(s: Seq<MessageView>) -> Seq<MessageView>
    decreases s.len(),
{
    if s.len() == 0 {
        s
    } else if s.last().role == "system"@ {
        instructions(s.drop_last()).push(s.last())
    } else {
        instructions(s.drop_last())
    }
}

/// The messages without the first round; the instructions stay.
pub open spec fn without_first_round(s: Seq<MessageView>) -> Seq<MessageView> {
    instructions(s.take(first_round_end(s))) + s.skip(first_round_end(s))
}

/// Whether a message is no instruction.
pub open spec fn spoken(m: MessageView) -> bool {
    m.role != "system"@
}

/// The search for the second round stops at a user message with something spoken before it.
pub proof fn lemma_second_start(s: Seq<MessageView>, i: int, started: bool)
    requires
        0 <= i <= s.len(),
    ensures
        i <= second_start(s, i, started) <= s.len(),
        second_start(s, i, started) < s.len() ==> {
            let e = second_start(s, i, started);
            &&& s[e].role == "user"@
            &&& started || exists|j: int| i <= j < e && #[trigger] spoken(s[j])
        },
    decreases s.len() - i,
{
    lemma_roles();
    if i < s.len() {
        if s[i].role == "system"@ {
            lemma_second_start(s, i + 1, started);
            let e = second_start(s, i + 1, started);
            if !started && e < s.len() {
                let j = choose|j: int| i + 1 <= j < e && #[trigger] spoken(s[j]);
                assert(i <= j < e && spoken(s[j]));
            }
        } else if !(s[i].role == "user"@ && started) {
            lemma_second_start(s, i + 1, true);
            assert(spoken(s[i]));
        }
    }
}

/// How one more message changes where the second round begins.
proof fn lemma_second_start_extended(s: Seq<MessageView>, i: int, started: bool)
    requires
        0 <= i < s.len(),
    ensures
        ({
            let t = s.drop_last();
            let e = second_start(t, i, started);
            let spoke = started || exists|j: int| i <= j < t.len() && #[trigger] spoken(t[j]);
            second_start(s, i, started) == if e < t.len() {
                e
            } else if s.last().role == "user"@ && spoke {
                t.len() as int
            } else {
                s.len() as int
            }
        }),
    decreases s.len() - i,
{
    lemma_roles();
    let t = s.drop_last();
    if i == s.len() - 1 {
        assert(second_start(s, i + 1, started) == s.len());
        assert(second_start(s, i + 1, true) == s.len());
    } else {
        assert(s[i] == t[i]);
        let spoke = started || exists|j: int| i <= j < t.len() && #[trigger] spoken(t[j]);
        if s[i].role == "system"@ {
            lemma_second_start_extended(s, i + 1, started);
            if !started && exists|j: int| i <= j < t.len() && #[trigger] spoken(t[j]) {
                let j = choose|j: int| i <= j < t.len() && #[trigger] spoken(t[j]);
                assert(i + 1 <= j);
            }
        } else if !(s[i].role == "user"@ && started) {
            lemma_second_start_extended(s, i + 1, true);
            assert(spoken(t[i]));
        }
    }
}

/// The first round is what is spoken before the second begins.
pub proof fn lemma_first_round(s: Seq<MessageView>)
    ensures
        rounds(s).len() == 0 <==> forall|j: int| 0 <= j < s.len() ==> !spoken(#[trigger] s[j]),
        rounds(s).len() >= 2 <==> first_round_end(s) < s.len(),
        rounds(s).len() >= 1 ==> forall|j: int|
            #[trigger] rounds(s)[0].contains(j) <==> 0 <= j < first_round_end(s) && spoken(s[j]),
    decreases s.len(),
{
    lemma_roles();
    if s.len() > 0 {
        let t = s.drop_last();
        let n = t.len() as int;
        lemma_first_round(t);
        lemma_second_start(t, 0, false);
        lemma_second_start_extended(s, 0, false);
        assert(forall|j: int| 0 <= j < n ==> #[trigger] s[j] == t[j]);
        let r = rounds(t);
        let spoke = exists|j: int| 0 <= j < n && #[trigger] spoken(t[j]);
        assert(spoke <==> r.len() > 0);
        if s.last().role == "system"@ {
            assert(rounds(s) == r);
            assert(!spoken(s[n]));
            if r.len() >= 1 {
                assert forall|j: int| #[trigger] rounds(s)[0].contains(j) <==> 0 <= j
                    < first_round_end(s) && spoken(s[j]) by {
                    if 0 <= j < n {
                        assert(s[j] == t[j]);
                    }
                }
            }
        } else {
            assert(spoken(s[n]));
            if r.len() == 0 {
                assert(rounds(s) == r.push(seq![n]));
                assert(rounds(s)[0] == seq![n]);
                assert(first_round_end(s) == s.len());
                assert forall|j: int| #[trigger] rounds(s)[0].contains(j) <==> 0 <= j
                    < first_round_end(s) && spoken(s[j]) by {
                    assert(seq![n].contains(j) <==> j == n) by {
                        assert(seq![n][0] == n);
                    }
                    if 0 <= j < n {
                        assert(s[j] == t[j]);
                    }
                }
            } else if s.last().role == "user"@ {
                assert(rounds(s)[0] == r[0]);
                assert(first_round_end(s) < s.len());
                assert forall|j: int| #[trigger] rounds(s)[0].contains(j) <==> 0 <= j
                    < first_round_end(s) && spoken(s[j]) by {
                    assert(r[0].contains(j) <==> 0 <= j < first_round_end(t) && spoken(t[j]));
                    if 0 <= j < n {
                        assert(s[j] == t[j]);
                    }
                }
            } else {
                let first = rounds(s)[0];
                assert(rounds(s).len() == r.len());
                if r.len() == 1 {
                    assert(first == r[0].push(n));
                    assert forall|j: int| #[trigger] first.contains(j) <==> 0 <= j
                        < first_round_end(s) && spoken(s[j]) by {
                        assert(r[0].contains(j) <==> 0 <= j < first_round_end(t) && spoken(t[j]));
                        if r[0].contains(j) {
                            let k = choose|k: int| 0 <= k < r[0].len() && r[0][k] == j;
                            assert(first[k] == j);
                        }
                        assert(first[r[0].len() as int] == n);
                        if first.contains(j) && j != n {
                            let k = choose|k: int| 0 <= k < first.len() && first[k] == j;
                            assert(r[0][k] == j);
                        }
                        if 0 <= j < n {
                            assert(s[j] == t[j]);
                        }
                    }
                } else {
                    assert(first == r[0]);
                    assert forall|j: int| #[trigger] first.contains(j) <==> 0 <= j
                        < first_round_end(s) && spoken(s[j]) by {
                        assert(r[0].contains(j) <==> 0 <= j < first_round_end(t) && spoken(t[j]));
                        if 0 <= j < n {
                            assert(s[j] == t[j]);
                        }
                    }
                }
            }
        }
    }
}

/// The messages whose places are not listed.
pub open spec fn leaving_out(s: Seq<MessageView>, drop: Seq<int>) -> Seq<MessageView>
    decreases s.len(),
{
    if s.len() == 0 {
        s
    } else if drop.contains(s.len() - 1) {
        leaving_out(s.drop_last(), drop)
    } else {
        leaving_out(s.drop_last(), drop).push(s.last())
    }
}

proof fn lemma_leaving_out(s: Seq<MessageView>, e: int, drop: Seq<int>)
    requires
        0 <= e,
        forall|j: int| #[trigger]
            drop.contains(j) && j < s.len() ==> 0 <= j < e && spoken(s[j]),
        forall|j: int| 0 <= j < e && j < s.len() && spoken(#[trigger] s[j]) ==> drop.contains(j),
    ensures
        leaving_out(s, drop) == if e <= s.len() {
            instructions(s.take(e)) + s.skip(e)
        } else {
            instructions(s)
        },
    decreases s.len(),
{
    if s.len() == 0 {
        assert(s.take(0) =~= s);
        assert(instructions(s.take(0)) + s.skip(0) =~= s);
    } else {
        let t = s.drop_last();
        let n = t.len() as int;
        assert(forall|j: int| 0 <= j < n ==> #[trigger] t[j] == s[j]);
        assert forall|j: int| #[trigger] drop.contains(j) && j < t.len() implies 0 <= j < e
            && spoken(t[j]) by {}
        assert forall|j: int| 0 <= j < e && j < t.len() && spoken(#[trigger] t[j]) implies
            drop.contains(j) by {
            assert(spoken(s[j]));
        }
        lemma_leaving_out(t, e, drop);
        if e <= n {
            assert(!drop.contains(n));
            assert(s.take(e) =~= t.take(e));
            assert(instructions(s.take(e)) + s.skip(e) =~= (instructions(t.take(e)) + t.skip(
                e,
            )).push(s.last()));
        } else {
            assert(drop.contains(n) <==> spoken(s[n]));
            if e == n + 1 {
                assert(s.take(e) =~= s);
                assert(instructions(s) + s.skip(e) =~= instructions(s));
            }
        }
    }
}

/// Leaving out the places of the first round leaves the messages without the first round.
pub proof fn lemma_without_first_round(s: Seq<MessageView>)
    requires
        rounds(s).len() >= 1,
    ensures
        leaving_out(s, rounds(s)[0]) == without_first_round(s),
        first_round_end(s) <= s.len(),
{
    lemma_first_round(s);
    lemma_second_start(s, 0, false);
    let drop = rounds(s)[0];
    let e = first_round_end(s);
    assert forall|j: int| 0 <= j < e && j < s.len() && spoken(#[trigger] s[j]) implies
        drop.contains(j) by {
        assert(rounds(s)[0].contains(j) <==> 0 <= j < first_round_end(s) && spoken(s[j]));
    }
    assert forall|j: int| #[trigger] drop.contains(j) && j < s.len() implies 0 <= j < e && spoken(
        s[j],
    ) by {
        assert(rounds(s)[0].contains(j) <==> 0 <= j < first_round_end(s) && spoken(s[j]));
    }
    lemma_leaving_out(s, e, drop);
}

fn listed(places_list: &Vec<usize>, i: usize) -> (r: bool)
    ensures
        r == places(places_list@).contains(i as int),
{
    let ghost p = places(places_list@);
    let mut k: usize = 0;
    while k < places_list.len()
        invariant
            k <= places_list@.len(),
            p == places(places_list@),
            forall|j: int| 0 <= j < k ==> p[j] != i,
        decreases places_list@.len() - k,
    {
        if places_list[k] == i {
            assert(p[k as int] == i);
            return true;
        }
        k = k + 1;
    }
    false
}

/// The messages whose places are not listed.
pub fn leave_out(messages: &Vec<Message>, drop: &Vec<usize>) -> (r: Vec<Message>)
    ensures
        views(r@) == leaving_out(views(messages@), places(drop@)),
{
    let mut r: Vec<Message> = Vec::new();
    let ghost s = views(messages@);
    let mut i: usize = 0;
    assert(views(r@) =~= leaving_out(s.take(0), places(drop@)));
    while i < messages.len()
        invariant
            i <= messages@.len(),
            s == views(messages@),
            views(r@) == leaving_out(s.take(i as int), places(drop@)),
        decreases messages@.len() - i,
    {
        proof {
            assert(s.take(i + 1).drop_last() =~= s.take(i as int));
            assert(s.take(i + 1).last() == messages@[i as int]@);
        }
        if !listed(drop, i) {
            let ghost before = r@;
            let copy: Message = messages[i].clone();
            r.push(copy);
            proof {
                lemma_views_push(before, copy);
            }
        }
        i = i + 1;
    }
    assert(s.take(i as int) =~= s);
    r
}

/// How many omitted rounds a message notes, if it is such a note.
pub open spec fn omitted(m: MessageView) -> Option<nat> {
    if m.role != "system"@ || m.content is None {
        None
    } else {
        match after_prefix(m.content->0, OMITTED_ROUNDS_PREFIX@) {
            Some(rest) => match split_at_first(rest, OMITTED_ROUNDS_SUFFIX@) {
                Some((count, tail)) => if tail.len() == 0 {
                    parsed_usize(count)
                } else {
                    None
                },
                None => None,
            },
            None => None,
        }
    }
}

/// How many omitted rounds a message notes, if it is such a note.
pub fn omitted_round_count(message: &Message) -> (r: Option<usize>)
    ensures
        match r {
            Some(n) => omitted(message@) == Some(n as nat),
            None => omitted(message@) is None,
        },
{
    if !same_text(message.role.as_str(), "system") {
        return None;
    }
    match &message.content {
        Some(content) => match strip_prefix(content.as_str(), OMITTED_ROUNDS_PREFIX) {
            Some(rest) => match split_first(rest.as_str(), OMITTED_ROUNDS_SUFFIX) {
                Some((count, tail)) => if tail.as_str().is_empty() {
                    parse_usize(count.as_str())
                } else {
                    None
                },
                None => None,
            },
            None => None,
        },
        None => None,
    }
}

/// The note on omitted rounds.
pub open spec fn omission_note(total: nat) -> Seq<char> {
    OMITTED_ROUNDS_PREFIX@ + decimal(total) + OMITTED_ROUNDS_SUFFIX@
}

/// Writes the note on omitted rounds.
pub fn omission_text(total: usize) -> (r: String)
    ensures
        r@ == omission_note(total as nat),
{
    let mut r: String = OMITTED_ROUNDS_PREFIX.to_owned();
    r.append(decimal_text(total as u64).as_str());
    r.append(OMITTED_ROUNDS_SUFFIX);
    r
}

/// The note on omitted rounds reads back.
pub proof fn lemma_note_reads_back(total: nat)
    requires
        total <= usize::MAX,
    ensures
        omitted(MessageView::plain("system"@, omission_note(total))) == Some(total),
{
    reveal_strlit("[早期 ");
    reveal_strlit(" 轮对话因超出上下文已省略]");
    let prefix = OMITTED_ROUNDS_PREFIX@;
    let suffix = OMITTED_ROUNDS_SUFFIX@;
    let digits = decimal(total);
    let note = omission_note(total);
    lemma_decimal_value(total);
    lemma_decimal_round_trip(total);
    assert(note.subrange(0, prefix.len() as int) =~= prefix);
    let rest = note.subrange(prefix.len() as int, note.len() as int);
    assert(rest =~= digits + suffix);
    let d = digits.len() as int;
    assert(rest.subrange(d, d + suffix.len()) =~= suffix);
    assert forall|j: int| 0 <= j < d implies !occurs_at(rest, suffix, j) by {
        if occurs_at(rest, suffix, j) {
            assert(rest.subrange(j, j + suffix.len())[0] == rest[j]);
            assert(rest[j] == digits[j]);
        }
    }
    lemma_split_at(rest, suffix, d);
    assert(rest.take(d) =~= digits);
}

/// The messages that are no notes on omitted rounds.
pub open spec fn without_notes(s: Seq<MessageView>) -> Seq<MessageView>
    decreases s.len(),
{
    if s.len() == 0 {
        s
    } else if omitted(s.last()) is Some {
        without_notes(s.drop_last())
    } else {
        without_notes(s.drop_last()).push(s.last())
    }
}

/// How many omitted rounds the messages note in all.
pub open spec fn noted(s: Seq<MessageView>) -> nat
    decreases s.len(),
{
    if s.len() == 0 {
        0
    } else {
        noted(s.drop_last()) + match omitted(s.last()) {
            Some(n) => n,
            None => 0,
        }
    }
}

/// A number, or the greatest `usize` where it is greater.
pub open spec fn size_capped(n: nat) -> nat {
    if n <= usize::MAX {
        n
    } else {
        usize::MAX as nat
    }
}

/// Takes the notes on omitted rounds out, and adds up what they note.
pub fn take_notes(messages: &Vec<Message>) -> (r: (Vec<Message>, usize))
    ensures
        views(r.0@) == without_notes(views(messages@)),
        r.1 == size_capped(noted(views(messages@))),
{
    let mut kept: Vec<Message> = Vec::new();
    let mut total: usize = 0;
    let ghost s = views(messages@);
    let mut i: usize = 0;
    assert(views(kept@) =~= without_notes(s.take(0)));
    while i < messages.len()
        invariant
            i <= messages@.len(),
            s == views(messages@),
            views(kept@) == without_notes(s.take(i as int)),
            total == size_capped(noted(s.take(i as int))),
        decreases messages@.len() - i,
    {
        proof {
            assert(s.take(i + 1).drop_last() =~= s.take(i as int));
            assert(s.take(i + 1).last() == messages@[i as int]@);
        }
        match omitted_round_count(&messages[i]) {
            Some(count) => {
                total = total.saturating_add(count);
            },
            None => {
                let ghost before = kept@;
                let copy: Message = messages[i].clone();
                kept.push(copy);
                proof {
                    lemma_views_push(before, copy);
                }
            },
        }
        i = i + 1;
    }
    assert(s.take(i as int) =~= s);
    (kept, total)
}

/// The place of the last user message.
pub open spec fn last_user(s: Seq<MessageView>) -> Option<int>
    decreases s.len(),
{
    if s.len() == 0 {
        None
    } else if s.last().role == "user"@ {
        Some(s.len() - 1)
    } else {
        last_user(s.drop_last())
    }
}

/// The place of the last user message.
pub fn find_last_user(messages: &[Message]) -> (r: Option<usize>)
    ensures
        match r {
            Some(i) => last_user(views(messages@)) == Some(i as int) && i < messages@.len(),
            None => last_user(views(messages@)) is None,
        },
{
    let ghost s = views(messages@);
    let mut n: usize = messages.len();
    assert(s.take(n as int) =~= s);
    while n > 0
        invariant
            n <= messages@.len(),
            s == views(messages@),
            last_user(s) == last_user(s.take(n as int)),
        decreases n,
    {
        proof {
            assert(s.take(n as int).drop_last() =~= s.take(n - 1));
            assert(s.take(n as int).last() == messages@[n - 1]@);
        }
        if same_text(messages[n - 1].role.as_str(), "user") {
            return Some(n - 1);
        }
        n = n - 1;
    }
    None
}

/// The last user message is a user message, and no other follows it.
pub proof fn lemma_last_user(s: Seq<MessageView>)
    ensures
        match last_user(s) {
            Some(i) => 0 <= i < s.len() && s[i].role == "user"@ && forall|j: int|
                i < j < s.len() ==> (#[trigger] s[j]).role != "user"@,
            None => forall|j: int| 0 <= j < s.len() ==> (#[trigger] s[j]).role != "user"@,
        },
    decreases s.len(),
{
    if s.len() > 0 && s.last().role != "user"@ {
        let t = s.drop_last();
        lemma_last_user(t);
        assert(forall|j: int| 0 <= j < t.len() ==> #[trigger] s[j] == t[j]);
    }
}

/// Where the instructions at the front end.
pub open spec fn leading_instructions(s: Seq<MessageView>) -> int
    decreases s.len(),
{
    if s.len() > 0 && s[0].role == "system"@ {
        leading_instructions(s.drop_first()) + 1
    } else {
        0
    }
}

/// Where the instructions at the front end.
pub fn front_instructions(messages: &[Message]) -> (r: usize)
    ensures
        r == leading_instructions(views(messages@)),
        r <= messages@.len(),
{
    let ghost s = views(messages@);
    let mut i: usize = 0;
    assert(s.skip(0) =~= s);
    while i < messages.len() && same_text(messages[i].role.as_str(), "system")
        invariant
            i <= messages@.len(),
            s == views(messages@),
            leading_instructions(s) == i + leading_instructions(s.skip(i as int)),
        decreases messages@.len() - i,
    {
        proof {
            assert(s.skip(i as int)[0] == messages@[i as int]@);
            assert(s.skip(i as int).drop_first() =~= s.skip(i + 1));
        }
        i = i + 1;
    }
    proof {
        if i < messages@.len() {
            assert(s.skip(i as int)[0] == messages@[i as int]@);
        }
    }
    i
}

/// Notes on omitted rounds add up, wherever they stand: what is noted in one part and in another is
/// noted in both together, and a note counts for the number that it tells. Taking notes out takes
/// nothing else out.
pub proof fn lemma_notes_add_up(a: Seq<MessageView>, b: Seq<MessageView>, m: MessageView, n: nat)
    requires
        n <= usize::MAX,
    ensures
        noted(a + b) == noted(a) + noted(b),
        without_notes(a + b) == without_notes(a) + without_notes(b),
        noted(seq![MessageView::plain("system"@, omission_note(n))]) == n,
        without_notes(seq![MessageView::plain("system"@, omission_note(n))])
            == Seq::<MessageView>::empty(),
        omitted(m) is None ==> noted(seq![m]) == 0 && without_notes(seq![m]) == seq![m],
        m.role != "system"@ ==> omitted(m) is None,
    decreases b.len(),
{
    let none = Seq::<MessageView>::empty();
    let note = MessageView::plain("system"@, omission_note(n));
    lemma_note_reads_back(n);
    assert(seq![m].drop_last() =~= none && seq![note].drop_last() =~= none);
    assert(without_notes(none) =~= none && noted(none) == 0);
    assert(none.push(m) =~= seq![m]);
    if b.len() == 0 {
        assert(a + b =~= a);
        assert(without_notes(a) + without_notes(b) =~= without_notes(a));
    } else {
        lemma_notes_add_up(a, b.drop_last(), m, n);
        assert((a + b).drop_last() =~= a + b.drop_last());
        assert((a + b).last() == b.last());
        assert(without_notes(a + b) =~= without_notes(a) + without_notes(b));
    }
}

/// Blocks follow each other without a gap from the first message to the last, and none is empty. A
/// message that calls tools is in one block with all results that follow it at once; every other
/// message is a block of its own.
pub proof fn lemma_blocks_hold_together(s: Seq<MessageView>, from: int, k: int)
    requires
        0 <= from < s.len(),
    ensures
        ({
            let b = blocks_from(s, from);
            &&& b.len() > 0
            &&& b[0].0 == from
            &&& b.last().1 == s.len()
            &&& 0 <= k < b.len() ==> {
                let (begin, end) = b[k];
                let calls = s[begin].role == "assistant"@ && s[begin].calls_tools();
                &&& from <= begin < end <= s.len()
                &&& k + 1 < b.len() ==> b[k + 1].0 == end
                &&& !calls ==> end == begin + 1
                &&& forall|j: int| begin < j < end ==> (#[trigger] s[j]).role == "tool"@
                &&& calls && end < s.len() ==> s[end].role != "tool"@
            }
        }),
    decreases s.len() - from,
{
    lemma_results_end(s, from + 1);
    let e = block_end(s, from);
    let b = blocks_from(s, from);
    let rest = blocks_from(s, e);
    assert(b == seq![(from, e)] + rest);
    assert(b[0] == (from, e));
    if e < s.len() {
        lemma_blocks_hold_together(s, e, k - 1);
        lemma_blocks_hold_together(s, e, 0);
        assert(b.last() == rest.last());
        if k > 0 && k < b.len() {
            assert(b[k] == rest[k - 1]);
            if k + 1 < b.len() {
                assert(b[k + 1] == rest[k]);
            }
        }
    } else {
        assert(rest =~= Seq::<(int, int)>::empty());
        assert(b.last() == b[0]);
    }
}

} // verus!
