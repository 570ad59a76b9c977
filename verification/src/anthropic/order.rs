//! The order of the events of a stream.

use crate::anthropic::response::{function_text, stop_reason};
use crate::anthropic::sse::{
    ascending, block_index, blocks_after, blocks_after_delta, call_events, calls_events,
    choices_events, chunk_choices, chunk_events, chunk_fits, closing_events, delta_calls,
    delta_events, delta_fits, delta_text, finish_reason, index_fits, is_ascending, tools_after,
    Blocks, StreamEventView,
};
use crate::json::JsonView;
use vstd::prelude::*;

verus! {

/// Whether a block with that index is open.
pub open spec fn is_open(blocks: Blocks, index: int) -> bool {
    0 <= index <= usize::MAX && (blocks.tools.contains(index as usize) || (blocks.has_text && index
        == 0))
}

/// How far a message has come: which blocks are open, or that it has ended.
pub enum Stage {
    Open(Blocks),
    Ended,
}

/// The stage after an event, where the event is in order: a block is started once,
/// the text block at index zero and a tool block at another, it is written to and
/// stopped only while open, and the message ends with no block open, after which
/// nothing comes.
pub open spec fn played(event: StreamEventView, stage: Stage) -> Option<Stage> {
    match stage {
        Stage::Open(blocks) => played_open(event, blocks),
        Stage::Ended => None,
    }
}

/// The stage after an event that comes while these blocks are open.
pub open spec fn played_open(event: StreamEventView, blocks: Blocks) -> Option<Stage> {
    match event {
        StreamEventView::TextStart => if !blocks.has_text {
            Some(Stage::Open(Blocks { has_text: true, tools: blocks.tools }))
        } else {
            None
        },
        StreamEventView::TextDelta { .. } => if blocks.has_text {
            Some(Stage::Open(blocks))
        } else {
            None
        },
        StreamEventView::ToolStart { index, .. } => if 1 <= index <= usize::MAX
            && !blocks.tools.contains(index as usize) {
            Some(
                Stage::Open(
                    Blocks {
                        has_text: blocks.has_text,
                        tools: blocks.tools.insert(index as usize),
                    },
                ),
            )
        } else {
            None
        },
        StreamEventView::ToolDelta { index, .. } => if 1 <= index <= usize::MAX
            && blocks.tools.contains(index as usize) {
            Some(Stage::Open(blocks))
        } else {
            None
        },
        StreamEventView::BlockStop { index } => if is_open(blocks, index) {
            Some(
                Stage::Open(
                    Blocks {
                        has_text: blocks.has_text && index != 0,
                        tools: blocks.tools.remove(index as usize),
                    },
                ),
            )
        } else {
            None
        },
        StreamEventView::MessageDelta { .. } => if blocks == no_blocks() {
            Some(Stage::Open(blocks))
        } else {
            None
        },
        StreamEventView::MessageStop => if blocks == no_blocks() {
            Some(Stage::Ended)
        } else {
            None
        },
    }
}

/// No block is open.
pub open spec fn no_blocks() -> Blocks {
    Blocks { has_text: false, tools: Set::empty() }
}

/// The stage after the events, where each is in order.
pub open spec fn played_all(events: Seq<StreamEventView>, stage: Stage) -> Option<Stage>
    decreases events.len(),
{
    if events.len() == 0 {
        Some(stage)
    } else {
        match played_all(events.drop_last(), stage) {
            Some(before) => played(events.last(), before),
            None => None,
        }
    }
}

proof fn lemma_played_add(a: Seq<StreamEventView>, b: Seq<StreamEventView>, stage: Stage)
    ensures
        played_all(a + b, stage) == match played_all(a, stage) {
            Some(between) => played_all(b, between),
            None => None,
        },
    decreases b.len(),
{
    if b.len() == 0 {
        assert(a + b =~= a);
    } else {
        lemma_played_add(a, b.drop_last(), stage);
        assert((a + b).drop_last() =~= a + b.drop_last());
        assert((a + b).last() == b.last());
    }
}

proof fn lemma_played_one(event: StreamEventView, stage: Stage)
    ensures
        played_all(seq![event], stage) == played(event, stage),
{
    reveal_with_fuel(played_all, 2);
    assert(seq![event].drop_last() =~= Seq::empty());
    assert(seq![event].last() == event);
}

proof fn lemma_played_call(call: JsonView, position: int, blocks: Blocks)
    requires
        index_fits(call, position),
        position >= 0,
    ensures
        played_all(call_events(call, position, blocks.tools), Stage::Open(blocks)) == Some(
            Stage::Open(
                Blocks {
                    has_text: blocks.has_text,
                    tools: blocks.tools.insert(block_index(call, position) as usize),
                },
            ),
        ),
{
    let index = block_index(call, position);
    let after = Blocks {
        has_text: blocks.has_text,
        tools: blocks.tools.insert(index as usize),
    };
    let start = StreamEventView::ToolStart {
        index,
        id: call.str_or("id"@, ""@),
        name: function_text(call, "name"@, ""@),
    };
    let delta = StreamEventView::ToolDelta {
        index,
        json: function_text(call, "arguments"@, ""@),
    };
    let events = call_events(call, position, blocks.tools);
    let none = Seq::<StreamEventView>::empty();
    if blocks.tools.contains(index as usize) {
        assert(blocks.tools.insert(index as usize) =~= blocks.tools);
        if function_text(call, "arguments"@, ""@).len() > 0 {
            assert(events =~= seq![delta]);
            lemma_played_one(delta, Stage::Open(blocks));
        } else {
            assert(events =~= none);
        }
    } else {
        lemma_played_one(start, Stage::Open(blocks));
        lemma_played_one(delta, Stage::Open(after));
        if function_text(call, "arguments"@, ""@).len() > 0 {
            assert(events =~= seq![start] + seq![delta]);
            lemma_played_add(seq![start], seq![delta], Stage::Open(blocks));
        } else {
            assert(events =~= seq![start]);
        }
    }
}

proof fn lemma_played_calls(calls: Seq<JsonView>, blocks: Blocks)
    requires
        forall|i: int| 0 <= i < calls.len() ==> index_fits(#[trigger] calls[i], i),
    ensures
        played_all(calls_events(calls, blocks.tools), Stage::Open(blocks)) == Some(
            Stage::Open(
                Blocks { has_text: blocks.has_text, tools: tools_after(calls, blocks.tools) },
            ),
        ),
    decreases calls.len(),
{
    if calls.len() > 0 {
        let front = calls.drop_last();
        assert(forall|i: int| 0 <= i < front.len() ==> front[i] == calls[i]);
        lemma_played_calls(front, blocks);
        let between = Blocks {
            has_text: blocks.has_text,
            tools: tools_after(front, blocks.tools),
        };
        assert(index_fits(calls[calls.len() - 1], calls.len() - 1));
        lemma_played_call(calls.last(), calls.len() - 1, between);
        lemma_played_add(
            calls_events(front, blocks.tools),
            call_events(calls.last(), calls.len() - 1, between.tools),
            Stage::Open(blocks),
        );
    }
}

proof fn lemma_played_delta(delta: JsonView, blocks: Blocks)
    requires
        delta_fits(delta),
    ensures
        played_all(delta_events(delta, blocks), Stage::Open(blocks)) == Some(
            Stage::Open(blocks_after_delta(delta, blocks)),
        ),
{
    let calls = calls_events(delta_calls(delta), blocks.tools);
    match delta_text(delta) {
        Some(text) => {
            let start = StreamEventView::TextStart;
            let added = StreamEventView::TextDelta { text };
            let spoken = Blocks { has_text: true, tools: blocks.tools };
            lemma_played_one(start, Stage::Open(blocks));
            lemma_played_one(added, Stage::Open(spoken));
            lemma_played_calls(delta_calls(delta), spoken);
            if blocks.has_text {
                lemma_played_add(seq![added], calls, Stage::Open(blocks));
            } else {
                lemma_played_add(seq![start], seq![added], Stage::Open(blocks));
                assert(seq![start] + seq![added] =~= seq![start, added]);
                lemma_played_add(seq![start, added], calls, Stage::Open(blocks));
            }
        },
        None => {
            lemma_played_calls(delta_calls(delta), blocks);
            assert(delta_events(delta, blocks) =~= calls);
        },
    }
}

proof fn lemma_played_choices(choices: Seq<JsonView>, blocks: Blocks)
    requires
        forall|i: int|
            0 <= i < choices.len() ==> ((#[trigger] choices[i]).get("delta"@) matches Some(delta)
                ==> delta_fits(delta)),
    ensures
        played_all(choices_events(choices, blocks), Stage::Open(blocks)) == Some(
            Stage::Open(blocks_after(choices, blocks)),
        ),
    decreases choices.len(),
{
    if choices.len() > 0 {
        let front = choices.drop_last();
        assert(forall|i: int| 0 <= i < front.len() ==> front[i] == choices[i]);
        lemma_played_choices(front, blocks);
        match choices.last().get("delta"@) {
            Some(delta) => {
                assert(choices[choices.len() - 1].get("delta"@) == Some(delta));
                let between = blocks_after(front, blocks);
                lemma_played_delta(delta, between);
                lemma_played_add(
                    choices_events(front, blocks),
                    delta_events(delta, between),
                    Stage::Open(blocks),
                );
            },
            None => {},
        }
    }
}

/// The open blocks with an index below `bound`, in ascending order.
proof fn lemma_ascending_below(blocks: Blocks, bound: nat) -> (list: Seq<usize>)
    requires
        bound <= usize::MAX + 1,
    ensures
        forall|i: int, j: int| 0 <= i < j < list.len() ==> list[i] < list[j],
        forall|x: usize| #[trigger] list.contains(x) <==> x < bound && is_open(blocks, x as int),
    decreases bound,
{
    if bound == 0 {
        Seq::empty()
    } else {
        let below = lemma_ascending_below(blocks, (bound - 1) as nat);
        let top = (bound - 1) as usize;
        if is_open(blocks, top as int) {
            let list = below.push(top);
            assert forall|x: usize| #[trigger] list.contains(x) <==> x < bound && is_open(
                blocks,
                x as int,
            ) by {
                if below.contains(x) {
                    assert(list[below.index_of(x)] == x);
                }
                if list.contains(x) && x != top {
                    assert(below[list.index_of(x)] == x);
                }
                assert(list[below.len() as int] == top);
            }
            assert forall|i: int, j: int| 0 <= i < j < list.len() implies list[i] < list[j] by {
                if j == below.len() {
                    assert(below.contains(below[i]));
                }
            }
            list
        } else {
            below
        }
    }
}

/// The open blocks can be listed in ascending order.
pub proof fn lemma_ascending(blocks: Blocks)
    ensures
        is_ascending(ascending(blocks), blocks),
{
    let list = lemma_ascending_below(blocks, (usize::MAX + 1) as nat);
    assert(is_ascending(list, blocks));
}

/// Stopping the blocks of an ascending list leaves none open.
proof fn lemma_played_stops(stops: Seq<usize>, blocks: Blocks, n: int)
    requires
        is_ascending(stops, blocks),
        0 <= n <= stops.len(),
    ensures
        ({
            let events = Seq::new(
                n as nat,
                |i: int| StreamEventView::BlockStop { index: stops[i] as int },
            );
            played_all(events, Stage::Open(blocks)) matches Some(Stage::Open(left))
                && is_ascending(stops.skip(n), left)
        }),
    decreases n,
{
    let events = Seq::new(
        n as nat,
        |i: int| StreamEventView::BlockStop { index: stops[i] as int },
    );
    if n == 0 {
        assert(stops.skip(0) =~= stops);
    } else {
        lemma_played_stops(stops, blocks, n - 1);
        let front = Seq::new(
            (n - 1) as nat,
            |i: int| StreamEventView::BlockStop { index: stops[i] as int },
        );
        assert(events.drop_last() =~= front);
        let left = played_all(front, Stage::Open(blocks))->0->Open_0;
        let rest = stops.skip(n - 1);
        let x = stops[n - 1];
        assert(rest[0] == x);
        assert(rest.contains(x));
        assert(is_open(left, x as int));
        let after = played_open(events.last(), left)->0->Open_0;
        let tail = stops.skip(n);
        assert forall|y: usize| #[trigger]
            tail.contains(y) <==> after.tools.contains(y) || (after.has_text && y == 0) by {
            if tail.contains(y) {
                let k = tail.index_of(y);
                assert(rest[k + 1] == y);
                assert(rest.contains(y));
                assert(x < y);
            }
            if after.tools.contains(y) || (after.has_text && y == 0) {
                assert(rest.contains(y));
                let k = rest.index_of(y);
                assert(k > 0);
                assert(tail[k - 1] == y);
            }
        }
        assert(is_ascending(tail, after));
    }
}

proof fn lemma_played_closing(reason: Seq<char>, blocks: Blocks)
    ensures
        played_all(closing_events(reason, blocks), Stage::Open(blocks)) == Some(Stage::Ended),
{
    let stops = ascending(blocks);
    lemma_ascending(blocks);
    lemma_played_stops(stops, blocks, stops.len() as int);
    let stop_events = Seq::new(
        stops.len(),
        |i: int| StreamEventView::BlockStop { index: stops[i] as int },
    );
    let left = played_all(stop_events, Stage::Open(blocks))->0->Open_0;
    let tail = stops.skip(stops.len() as int);
    assert(tail.len() == 0);
    assert forall|x: usize| !left.tools.contains(x) by {
        assert(!tail.contains(x));
    }
    assert(!left.has_text) by {
        assert(!tail.contains(0));
    }
    assert(left.tools =~= Set::empty());
    let said = StreamEventView::MessageDelta { reason: stop_reason(reason) };
    let done = StreamEventView::MessageStop;
    lemma_played_one(said, Stage::Open(left));
    lemma_played_one(done, Stage::Open(left));
    lemma_played_add(seq![said], seq![done], Stage::Open(left));
    assert(seq![said] + seq![done] =~= seq![said, done]);
    lemma_played_add(stop_events, seq![said, done], Stage::Open(blocks));
}

/// The events of a chunk are in order: each block is started once before it is
/// written to, no tool block has the text block's index, and where the chunk
/// ends the message every open block is stopped once before that.
pub proof fn chunk_events_are_in_order(chunk: JsonView, blocks: Blocks)
    requires
        chunk_fits(chunk),
    ensures
        played_all(chunk_events(chunk, blocks), Stage::Open(blocks)) == match finish_reason(
            chunk_choices(chunk),
        ) {
            Some(_) => Some(Stage::Ended),
            None => Some(Stage::Open(blocks_after(chunk_choices(chunk), blocks))),
        },
{
    let choices = chunk_choices(chunk);
    lemma_played_choices(choices, blocks);
    match finish_reason(choices) {
        Some(reason) => {
            let after = blocks_after(choices, blocks);
            lemma_played_closing(reason, after);
            lemma_played_add(
                choices_events(choices, blocks),
                closing_events(reason, after),
                Stage::Open(blocks),
            );
        },
        None => {},
    }
}

/// The blocks open after the chunks of a stream.
pub open spec fn stream_blocks(chunks: Seq<JsonView>) -> Blocks
    decreases chunks.len(),
{
    if chunks.len() == 0 {
        no_blocks()
    } else {
        blocks_after(chunk_choices(chunks.last()), stream_blocks(chunks.drop_last()))
    }
}

/// The events of the chunks of a stream.
pub open spec fn stream_events(chunks: Seq<JsonView>) -> Seq<StreamEventView>
    decreases chunks.len(),
{
    if chunks.len() == 0 {
        Seq::empty()
    } else {
        stream_events(chunks.drop_last()) + chunk_events(
            chunks.last(),
            stream_blocks(chunks.drop_last()),
        )
    }
}

/// Whether a chunk ends the message.
pub open spec fn ends_message(chunk: JsonView) -> bool {
    finish_reason(chunk_choices(chunk)) is Some
}

/// Over a whole stream, in which nothing is said after the chunk that ends the
/// message, the events are in order from the first to the last.
pub proof fn stream_events_are_in_order(chunks: Seq<JsonView>)
    requires
        forall|i: int| 0 <= i < chunks.len() ==> chunk_fits(#[trigger] chunks[i]),
        forall|i: int, j: int|
            0 <= i < j < chunks.len() && ends_message(#[trigger] chunks[i]) ==> chunk_events(
                #[trigger] chunks[j],
                stream_blocks(chunks.take(j)),
            ).len() == 0,
    ensures
        played_all(stream_events(chunks), Stage::Open(no_blocks())) == Some(
            if exists|i: int| 0 <= i < chunks.len() && ends_message(#[trigger] chunks[i]) {
                Stage::Ended
            } else {
                Stage::Open(stream_blocks(chunks))
            },
        ),
    decreases chunks.len(),
{
    if chunks.len() > 0 {
        let front = chunks.drop_last();
        let n = front.len() as int;
        let last = chunks[n];
        assert(forall|i: int| 0 <= i < n ==> front[i] == chunks[i]);
        assert forall|i: int, j: int|
            0 <= i < j < n && ends_message(#[trigger] front[i]) implies chunk_events(
            #[trigger] front[j],
            stream_blocks(front.take(j)),
        ).len() == 0 by {
            assert(ends_message(chunks[i]));
            assert(front.take(j) =~= chunks.take(j));
            assert(front[j] == chunks[j]);
        }
        stream_events_are_in_order(front);
        assert(chunk_fits(chunks[n]));
        let events = chunk_events(last, stream_blocks(front));
        lemma_played_add(stream_events(front), events, Stage::Open(no_blocks()));
        if exists|i: int| 0 <= i < n && ends_message(#[trigger] front[i]) {
            let i = choose|i: int| 0 <= i < n && ends_message(#[trigger] front[i]);
            assert(ends_message(chunks[i]));
            assert(chunks.take(n) =~= front);
            assert(chunk_events(chunks[n], stream_blocks(chunks.take(n))).len() == 0);
            assert(events =~= Seq::empty());
        } else {
            chunk_events_are_in_order(last, stream_blocks(front));
        }
    }
}

/// The index of the block that an event starts.
pub open spec fn started_index(event: StreamEventView) -> Option<int> {
    match event {
        StreamEventView::TextStart => Some(0int),
        StreamEventView::ToolStart { index, .. } => Some(index),
        _ => None,
    }
}

/// The index of the block that an event writes to or stops.
pub open spec fn used_index(event: StreamEventView) -> Option<int> {
    match event {
        StreamEventView::TextDelta { .. } => Some(0int),
        StreamEventView::ToolDelta { index, .. } => Some(index),
        StreamEventView::BlockStop { index } => Some(index),
        _ => None,
    }
}

/// Whether one of the events starts the block with that index.
pub open spec fn starts(events: Seq<StreamEventView>, index: int) -> bool {
    exists|i: int| 0 <= i < events.len() && #[trigger] started_index(events[i]) == Some(index)
}

/// Whether the events, which come while these blocks are open, start none of them
/// and no block twice, and write to and stop only blocks that are open or that an
/// earlier one started; and whether the blocks open afterwards are those that were
/// open and those that were started.
pub open spec fn starts_once(
    events: Seq<StreamEventView>,
    before: Blocks,
    after: Blocks,
) -> bool {
    &&& forall|i: int, j: int|
        0 <= i < j < events.len() && #[trigger] started_index(events[i]) is Some
            ==> #[trigger] started_index(events[j]) != started_index(events[i])
    &&& forall|i: int|
        0 <= i < events.len() ==> (#[trigger] started_index(events[i]) matches Some(index)
            ==> !is_open(before, index))
    &&& forall|i: int|
        0 <= i < events.len() ==> (#[trigger] used_index(events[i]) matches Some(index)
            ==> is_open(before, index) || starts(events.take(i), index))
    &&& forall|index: int| #[trigger]
        is_open(after, index) <==> is_open(before, index) || starts(events, index)
}

proof fn lemma_starts_add(a: Seq<StreamEventView>, b: Seq<StreamEventView>, index: int)
    ensures
        starts(a + b, index) <==> starts(a, index) || starts(b, index),
{
    let both = a + b;
    if starts(a, index) {
        let i = choose|i: int|
            0 <= i < a.len() && #[trigger] started_index(a[i]) == Some(index);
        assert(started_index(both[i]) == Some(index));
    }
    if starts(b, index) {
        let i = choose|i: int|
            0 <= i < b.len() && #[trigger] started_index(b[i]) == Some(index);
        assert(started_index(both[a.len() + i]) == Some(index));
    }
    if starts(both, index) {
        let i = choose|i: int|
            0 <= i < both.len() && #[trigger] started_index(both[i]) == Some(index);
        if i < a.len() {
            assert(started_index(a[i]) == Some(index));
        } else {
            assert(started_index(b[i - a.len()]) == Some(index));
        }
    }
}

/// Events that start each block once, and then others that do.
proof fn lemma_starts_once_add(
    a: Seq<StreamEventView>,
    b: Seq<StreamEventView>,
    before: Blocks,
    between: Blocks,
    after: Blocks,
)
    requires
        starts_once(a, before, between),
        starts_once(b, between, after),
    ensures
        starts_once(a + b, before, after),
{
    let both = a + b;
    let n = a.len() as int;
    assert forall|i: int, j: int|
        0 <= i < j < both.len() && #[trigger] started_index(
            both[i],
        ) is Some implies #[trigger] started_index(both[j]) != started_index(both[i]) by {
        if j < n {
            assert(started_index(a[i]) is Some);
            assert(started_index(a[j]) != started_index(a[i]));
        } else if i >= n {
            assert(started_index(b[i - n]) is Some);
            assert(started_index(b[j - n]) != started_index(b[i - n]));
        } else {
            let index = started_index(a[i])->0;
            assert(starts(a, index));
            assert(is_open(between, index));
            assert(started_index(b[j - n]) != Some(index));
        }
    }
    assert forall|i: int| 0 <= i < both.len() implies (#[trigger] started_index(
        both[i],
    ) matches Some(index) ==> !is_open(before, index)) by {
        if i < n {
            assert(started_index(a[i]) == started_index(both[i]));
        } else {
            assert(started_index(b[i - n]) == started_index(both[i]));
            if started_index(both[i]) is Some {
                assert(!is_open(between, started_index(both[i])->0));
            }
        }
    }
    assert forall|i: int| 0 <= i < both.len() implies (#[trigger] used_index(
        both[i],
    ) matches Some(index) ==> is_open(before, index) || starts(both.take(i), index)) by {
        if used_index(both[i]) is Some {
            let index = used_index(both[i])->0;
            if i < n {
                assert(used_index(a[i]) == Some(index));
                assert(both.take(i) =~= a.take(i));
            } else {
                assert(used_index(b[i - n]) == Some(index));
                assert(both.take(i) =~= a + b.take(i - n));
                lemma_starts_add(a, b.take(i - n), index);
                assert(is_open(between, index) || starts(b.take(i - n), index));
            }
        }
    }
    assert forall|index: int| #[trigger]
        is_open(after, index) <==> is_open(before, index) || starts(both, index) by {
        lemma_starts_add(a, b, index);
        assert(is_open(between, index) <==> is_open(before, index) || starts(a, index));
    }
}

proof fn lemma_no_event_starts_once(blocks: Blocks)
    ensures
        starts_once(Seq::empty(), blocks, blocks),
{
}

proof fn lemma_one_start(event: StreamEventView, before: Blocks, after: Blocks)
    requires
        used_index(event) matches Some(index) ==> is_open(before, index) && after == before,
        started_index(event) matches Some(index) ==> !is_open(before, index) && forall|x: int|
            #[trigger] is_open(after, x) <==> is_open(before, x) || x == index,
        used_index(event) is None && started_index(event) is None ==> after == before,
    ensures
        starts_once(seq![event], before, after),
{
    let events = seq![event];
    assert(events[0] == event);
    assert forall|index: int| starts(events, index) <==> started_index(event) == Some(index) by {
        if started_index(event) == Some(index) {
            assert(started_index(events[0]) == Some(index));
        }
    }
}

proof fn lemma_call_starts_once(call: JsonView, position: int, blocks: Blocks)
    requires
        index_fits(call, position),
        position >= 0,
    ensures
        starts_once(
            call_events(call, position, blocks.tools),
            blocks,
            Blocks {
                has_text: blocks.has_text,
                tools: blocks.tools.insert(block_index(call, position) as usize),
            },
        ),
{
    let index = block_index(call, position);
    let after = Blocks {
        has_text: blocks.has_text,
        tools: blocks.tools.insert(index as usize),
    };
    let start = StreamEventView::ToolStart {
        index,
        id: call.str_or("id"@, ""@),
        name: function_text(call, "name"@, ""@),
    };
    let delta = StreamEventView::ToolDelta {
        index,
        json: function_text(call, "arguments"@, ""@),
    };
    let events = call_events(call, position, blocks.tools);
    assert(is_open(after, index));
    lemma_one_start(delta, after, after);
    lemma_no_event_starts_once(after);
    if blocks.tools.contains(index as usize) {
        assert(after.tools =~= blocks.tools);
        if function_text(call, "arguments"@, ""@).len() > 0 {
            assert(events =~= seq![delta]);
        } else {
            assert(events =~= Seq::empty());
        }
    } else {
        lemma_one_start(start, blocks, after);
        if function_text(call, "arguments"@, ""@).len() > 0 {
            assert(events =~= seq![start] + seq![delta]);
            lemma_starts_once_add(seq![start], seq![delta], blocks, after, after);
        } else {
            assert(events =~= seq![start]);
        }
    }
}

proof fn lemma_calls_start_once(calls: Seq<JsonView>, blocks: Blocks)
    requires
        forall|i: int| 0 <= i < calls.len() ==> index_fits(#[trigger] calls[i], i),
    ensures
        starts_once(
            calls_events(calls, blocks.tools),
            blocks,
            Blocks { has_text: blocks.has_text, tools: tools_after(calls, blocks.tools) },
        ),
    decreases calls.len(),
{
    if calls.len() == 0 {
        lemma_no_event_starts_once(blocks);
    } else {
        let front = calls.drop_last();
        assert(forall|i: int| 0 <= i < front.len() ==> front[i] == calls[i]);
        lemma_calls_start_once(front, blocks);
        let between = Blocks {
            has_text: blocks.has_text,
            tools: tools_after(front, blocks.tools),
        };
        assert(index_fits(calls[calls.len() - 1], calls.len() - 1));
        lemma_call_starts_once(calls.last(), calls.len() - 1, between);
        lemma_starts_once_add(
            calls_events(front, blocks.tools),
            call_events(calls.last(), calls.len() - 1, between.tools),
            blocks,
            between,
            Blocks { has_text: blocks.has_text, tools: tools_after(calls, blocks.tools) },
        );
    }
}

proof fn lemma_delta_starts_once(delta: JsonView, blocks: Blocks)
    requires
        delta_fits(delta),
        !blocks.tools.contains(0),
    ensures
        starts_once(delta_events(delta, blocks), blocks, blocks_after_delta(delta, blocks)),
        !blocks_after_delta(delta, blocks).tools.contains(0),
{
    let calls = calls_events(delta_calls(delta), blocks.tools);
    lemma_tools_are_not_text(delta_calls(delta), blocks.tools);
    match delta_text(delta) {
        Some(text) => {
            let start = StreamEventView::TextStart;
            let added = StreamEventView::TextDelta { text };
            let spoken = Blocks { has_text: true, tools: blocks.tools };
            lemma_one_start(added, spoken, spoken);
            lemma_calls_start_once(delta_calls(delta), spoken);
            let after = blocks_after_delta(delta, blocks);
            if blocks.has_text {
                lemma_starts_once_add(seq![added], calls, blocks, spoken, after);
            } else {
                lemma_one_start(start, blocks, spoken);
                lemma_starts_once_add(seq![start], seq![added], blocks, spoken, spoken);
                assert(seq![start] + seq![added] =~= seq![start, added]);
                lemma_starts_once_add(seq![start, added], calls, blocks, spoken, after);
            }
        },
        None => {
            lemma_calls_start_once(delta_calls(delta), blocks);
            assert(delta_events(delta, blocks) =~= calls);
        },
    }
}

/// No tool block has the index of the text block.
proof fn lemma_tools_are_not_text(calls: Seq<JsonView>, tools: Set<usize>)
    requires
        forall|i: int| 0 <= i < calls.len() ==> index_fits(#[trigger] calls[i], i),
        !tools.contains(0),
    ensures
        !tools_after(calls, tools).contains(0),
    decreases calls.len(),
{
    if calls.len() > 0 {
        let front = calls.drop_last();
        assert(forall|i: int| 0 <= i < front.len() ==> front[i] == calls[i]);
        lemma_tools_are_not_text(front, tools);
        assert(index_fits(calls[calls.len() - 1], calls.len() - 1));
    }
}

proof fn lemma_choices_start_once(choices: Seq<JsonView>, blocks: Blocks)
    requires
        forall|i: int|
            0 <= i < choices.len() ==> ((#[trigger] choices[i]).get("delta"@) matches Some(delta)
                ==> delta_fits(delta)),
        !blocks.tools.contains(0),
    ensures
        starts_once(choices_events(choices, blocks), blocks, blocks_after(choices, blocks)),
        !blocks_after(choices, blocks).tools.contains(0),
    decreases choices.len(),
{
    if choices.len() == 0 {
        lemma_no_event_starts_once(blocks);
    } else {
        let front = choices.drop_last();
        assert(forall|i: int| 0 <= i < front.len() ==> front[i] == choices[i]);
        lemma_choices_start_once(front, blocks);
        match choices.last().get("delta"@) {
            Some(delta) => {
                assert(choices[choices.len() - 1].get("delta"@) == Some(delta));
                let between = blocks_after(front, blocks);
                lemma_delta_starts_once(delta, between);
                lemma_starts_once_add(
                    choices_events(front, blocks),
                    delta_events(delta, between),
                    blocks,
                    between,
                    blocks_after(choices, blocks),
                );
            },
            None => {},
        }
    }
}

proof fn lemma_closing_starts_none(reason: Seq<char>, blocks: Blocks)
    ensures
        starts_once(closing_events(reason, blocks), blocks, blocks),
{
    let events = closing_events(reason, blocks);
    let stops = ascending(blocks);
    lemma_ascending(blocks);
    assert forall|i: int| 0 <= i < events.len() implies #[trigger] started_index(
        events[i],
    ) is None by {
        if i < stops.len() {
            assert(events[i] == StreamEventView::BlockStop { index: stops[i] as int });
        }
    }
    assert forall|i: int| 0 <= i < events.len() implies (#[trigger] used_index(
        events[i],
    ) matches Some(index) ==> is_open(blocks, index)) by {
        if i < stops.len() {
            assert(events[i] == StreamEventView::BlockStop { index: stops[i] as int });
            assert(stops.contains(stops[i]));
        }
    }
}

/// Over any stream each block is started at most once, is written to and stopped
/// only after that, and the blocks that count as open are those that were started.
pub proof fn blocks_start_once(chunks: Seq<JsonView>)
    requires
        forall|i: int| 0 <= i < chunks.len() ==> chunk_fits(#[trigger] chunks[i]),
    ensures
        starts_once(stream_events(chunks), no_blocks(), stream_blocks(chunks)),
        !stream_blocks(chunks).tools.contains(0),
    decreases chunks.len(),
{
    if chunks.len() == 0 {
        lemma_no_event_starts_once(no_blocks());
    } else {
        let front = chunks.drop_last();
        assert(forall|i: int| 0 <= i < front.len() ==> front[i] == chunks[i]);
        blocks_start_once(front);
        assert(chunk_fits(chunks[chunks.len() - 1]));
        let between = stream_blocks(front);
        let choices = chunk_choices(chunks.last());
        let after = blocks_after(choices, between);
        lemma_choices_start_once(choices, between);
        match finish_reason(choices) {
            Some(reason) => {
                lemma_closing_starts_none(reason, after);
                lemma_starts_once_add(
                    choices_events(choices, between),
                    closing_events(reason, after),
                    between,
                    after,
                    after,
                );
            },
            None => {},
        }
        lemma_starts_once_add(
            stream_events(front),
            chunk_events(chunks.last(), between),
            no_blocks(),
            between,
            after,
        );
    }
}

} // verus!
