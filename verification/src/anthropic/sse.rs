//! Streams: from the chunks of an OpenAI stream to the events of an Anthropic
//! stream.

use crate::anthropic::response::{
    function_text, function_text_of, message_object, message_object_of, stop_reason, stop_reason_of,
};
use crate::codec::{depth_limit, json_of_text, json_text, lemma_with_reads_back, reads_back};
use crate::json::{group_json, items_model, Json, JsonView};
use crate::text::is_one_line;
use std::collections::HashSet;
use vstd::prelude::*;

verus! {

broadcast use {group_json, vstd::std_specs::hash::group_hash_axioms};

/// An event of the stream.
#[derive(Debug, PartialEq, Eq)]
pub enum StreamEvent {
    TextStart,
    TextDelta { text: String },
    ToolStart { index: usize, id: String, name: String },
    ToolDelta { index: usize, json: String },
    BlockStop { index: usize },
    MessageDelta { reason: String },
    MessageStop,
}

/// What an event stands for.
pub enum StreamEventView {
    TextStart,
    TextDelta { text: Seq<char> },
    ToolStart { index: int, id: Seq<char>, name: Seq<char> },
    ToolDelta { index: int, json: Seq<char> },
    BlockStop { index: int },
    MessageDelta { reason: Seq<char> },
    MessageStop,
}

impl View for StreamEvent {
    type V = StreamEventView;

    open spec fn view(&self) -> StreamEventView {
        match *self {
            StreamEvent::TextStart => StreamEventView::TextStart,
            StreamEvent::TextDelta { text } => StreamEventView::TextDelta { text: text@ },
            StreamEvent::ToolStart { index, id, name } => StreamEventView::ToolStart {
                index: index as int,
                id: id@,
                name: name@,
            },
            StreamEvent::ToolDelta { index, json } => StreamEventView::ToolDelta {
                index: index as int,
                json: json@,
            },
            StreamEvent::BlockStop { index } => StreamEventView::BlockStop { index: index as int },
            StreamEvent::MessageDelta { reason } => StreamEventView::MessageDelta {
                reason: reason@,
            },
            StreamEvent::MessageStop => StreamEventView::MessageStop,
        }
    }
}

/// What the events of a list stand for.
pub open spec fn events_view(events: Seq<StreamEvent>) -> Seq<StreamEventView> {
    Seq::new(events.len(), |i: int| events[i]@)
}

impl StreamEventView {
    /// The type of the event.
    pub open spec fn name(self) -> Seq<char> {
        match self {
            StreamEventView::TextStart => "content_block_start"@,
            StreamEventView::TextDelta { .. } => "content_block_delta"@,
            StreamEventView::ToolStart { .. } => "content_block_start"@,
            StreamEventView::ToolDelta { .. } => "content_block_delta"@,
            StreamEventView::BlockStop { .. } => "content_block_stop"@,
            StreamEventView::MessageDelta { .. } => "message_delta"@,
            StreamEventView::MessageStop => "message_stop"@,
        }
    }

    /// The data of the event.
    pub open spec fn payload(self) -> JsonView {
        let head = JsonView::object().with("type"@, JsonView::String(self.name()));
        match self {
            StreamEventView::TextStart => head.with("index"@, JsonView::Int(0)).with(
                "content_block"@,
                JsonView::object().with("type"@, JsonView::String("text"@)).with(
                    "text"@,
                    JsonView::String(""@),
                ),
            ),
            StreamEventView::TextDelta { text } => head.with("index"@, JsonView::Int(0)).with(
                "delta"@,
                JsonView::object().with("type"@, JsonView::String("text_delta"@)).with(
                    "text"@,
                    JsonView::String(text),
                ),
            ),
            StreamEventView::ToolStart { index, id, name } => head.with(
                "index"@,
                JsonView::Int(index),
            ).with(
                "content_block"@,
                JsonView::object().with("type"@, JsonView::String("tool_use"@)).with(
                    "id"@,
                    JsonView::String(id),
                ).with("name"@, JsonView::String(name)).with("input"@, JsonView::object()),
            ),
            StreamEventView::ToolDelta { index, json } => head.with(
                "index"@,
                JsonView::Int(index),
            ).with(
                "delta"@,
                JsonView::object().with("type"@, JsonView::String("input_json_delta"@)).with(
                    "partial_json"@,
                    JsonView::String(json),
                ),
            ),
            StreamEventView::BlockStop { index } => head.with("index"@, JsonView::Int(index)),
            StreamEventView::MessageDelta { reason } => head.with(
                "delta"@,
                JsonView::object().with("stop_reason"@, JsonView::String(reason)).with(
                    "stop_sequence"@,
                    JsonView::Null,
                ),
            ).with("usage"@, JsonView::object().with("output_tokens"@, JsonView::Int(0))),
            StreamEventView::MessageStop => head,
        }
    }
}

impl StreamEvent {
    /// The type of the event.
    pub fn name(&self) -> (r: String)
        ensures
            r@ == self@.name(),
    {
        match self {
            StreamEvent::TextStart => "content_block_start".to_owned(),
            StreamEvent::TextDelta { .. } => "content_block_delta".to_owned(),
            StreamEvent::ToolStart { .. } => "content_block_start".to_owned(),
            StreamEvent::ToolDelta { .. } => "content_block_delta".to_owned(),
            StreamEvent::BlockStop { .. } => "content_block_stop".to_owned(),
            StreamEvent::MessageDelta { .. } => "message_delta".to_owned(),
            StreamEvent::MessageStop => "message_stop".to_owned(),
        }
    }

    /// The data of the event.
    pub fn payload(&self) -> (r: Json)
        ensures
            r@ == self@.payload(),
    {
        let head: Json = Json::object().with("type", Json::String(self.name()));
        match self {
            StreamEvent::TextStart => head.with("index", Json::Unsigned(0)).with(
                "content_block",
                Json::object().with("type", Json::text("text")).with("text", Json::text("")),
            ),
            StreamEvent::TextDelta { text } => head.with("index", Json::Unsigned(0)).with(
                "delta",
                Json::object().with("type", Json::text("text_delta")).with(
                    "text",
                    Json::text(text.as_str()),
                ),
            ),
            StreamEvent::ToolStart { index, id, name } => head.with(
                "index",
                Json::Unsigned(*index as u64),
            ).with(
                "content_block",
                Json::object().with("type", Json::text("tool_use")).with(
                    "id",
                    Json::text(id.as_str()),
                ).with("name", Json::text(name.as_str())).with("input", Json::object()),
            ),
            StreamEvent::ToolDelta { index, json } => head.with(
                "index",
                Json::Unsigned(*index as u64),
            ).with(
                "delta",
                Json::object().with("type", Json::text("input_json_delta")).with(
                    "partial_json",
                    Json::text(json.as_str()),
                ),
            ),
            StreamEvent::BlockStop { index } => head.with("index", Json::Unsigned(*index as u64)),
            StreamEvent::MessageDelta { reason } => head.with(
                "delta",
                Json::object().with("stop_reason", Json::text(reason.as_str())).with(
                    "stop_sequence",
                    Json::Null,
                ),
            ).with("usage", Json::object().with("output_tokens", Json::Unsigned(0))),
            StreamEvent::MessageStop => head,
        }
    }
}

/// The blocks that a stream has opened: the text block, and the tool blocks by
/// their index.
pub struct Blocks {
    pub has_text: bool,
    pub tools: Set<usize>,
}

/// The index of the block of a tool call: one more than the index that the call
/// names, else than its position, so that it differs from the text block's.
pub open spec fn block_index(call: JsonView, position: int) -> int {
    match call.u64_at("index"@) {
        Some(n) => (n as usize) + 1,
        None => position + 1,
    }
}

/// Whether the index of the block of a tool call can be held.
pub open spec fn index_fits(call: JsonView, position: int) -> bool {
    block_index(call, position) <= usize::MAX
}

/// The events of one tool call.
pub open spec fn call_events(call: JsonView, position: int, tools: Set<usize>) -> Seq<
    StreamEventView,
> {
    let index = block_index(call, position);
    let start = if tools.contains(index as usize) {
        Seq::empty()
    } else {
        seq![
            StreamEventView::ToolStart {
                index,
                id: call.str_or("id"@, ""@),
                name: function_text(call, "name"@, ""@),
            },
        ]
    };
    let json = function_text(call, "arguments"@, ""@);
    if json.len() > 0 {
        start.push(StreamEventView::ToolDelta { index, json })
    } else {
        start
    }
}

/// The tool blocks open after the tool calls.
pub open spec fn tools_after(calls: Seq<JsonView>, tools: Set<usize>) -> Set<usize>
    decreases calls.len(),
{
    if calls.len() == 0 {
        tools
    } else {
        tools_after(calls.drop_last(), tools).insert(
            block_index(calls.last(), calls.len() - 1) as usize,
        )
    }
}

/// The events of the tool calls.
pub open spec fn calls_events(calls: Seq<JsonView>, tools: Set<usize>) -> Seq<StreamEventView>
    decreases calls.len(),
{
    if calls.len() == 0 {
        Seq::empty()
    } else {
        calls_events(calls.drop_last(), tools) + call_events(
            calls.last(),
            calls.len() - 1,
            tools_after(calls.drop_last(), tools),
        )
    }
}

/// The text that a delta adds: none where it is empty.
pub open spec fn delta_text(delta: JsonView) -> Option<Seq<char>> {
    match delta.str_at("content"@) {
        Some(text) => if text.len() > 0 {
            Some(text)
        } else {
            None
        },
        None => None,
    }
}

/// The tool calls that a delta adds to.
pub open spec fn delta_calls(delta: JsonView) -> Seq<JsonView> {
    match delta.array_at("tool_calls"@) {
        Some(calls) => calls,
        None => Seq::empty(),
    }
}

/// The events of a delta: its text, then its tool calls.
pub open spec fn delta_events(delta: JsonView, blocks: Blocks) -> Seq<StreamEventView> {
    let spoken = match delta_text(delta) {
        Some(text) => if blocks.has_text {
            seq![StreamEventView::TextDelta { text }]
        } else {
            seq![StreamEventView::TextStart, StreamEventView::TextDelta { text }]
        },
        None => Seq::empty(),
    };
    spoken + calls_events(delta_calls(delta), blocks.tools)
}

/// The blocks open after a delta.
pub open spec fn blocks_after_delta(delta: JsonView, blocks: Blocks) -> Blocks {
    Blocks {
        has_text: blocks.has_text || delta_text(delta) is Some,
        tools: tools_after(delta_calls(delta), blocks.tools),
    }
}

/// The blocks open after the choices.
pub open spec fn blocks_after(choices: Seq<JsonView>, blocks: Blocks) -> Blocks
    decreases choices.len(),
{
    if choices.len() == 0 {
        blocks
    } else {
        let before = blocks_after(choices.drop_last(), blocks);
        match choices.last().get("delta"@) {
            Some(delta) => blocks_after_delta(delta, before),
            None => before,
        }
    }
}

/// The events of the choices.
pub open spec fn choices_events(choices: Seq<JsonView>, blocks: Blocks) -> Seq<StreamEventView>
    decreases choices.len(),
{
    if choices.len() == 0 {
        Seq::empty()
    } else {
        let before = choices_events(choices.drop_last(), blocks);
        match choices.last().get("delta"@) {
            Some(delta) => before + delta_events(
                delta,
                blocks_after(choices.drop_last(), blocks),
            ),
            None => before,
        }
    }
}

/// The finish reason of the last choice that gives one.
pub open spec fn finish_reason(choices: Seq<JsonView>) -> Option<Seq<char>>
    decreases choices.len(),
{
    if choices.len() == 0 {
        None
    } else {
        match choices.last().str_at("finish_reason"@) {
            Some(reason) => Some(reason),
            None => finish_reason(choices.drop_last()),
        }
    }
}

/// Whether the list names each index of the open blocks once, in ascending order.
pub open spec fn is_ascending(list: Seq<usize>, blocks: Blocks) -> bool {
    &&& forall|i: int, j: int| 0 <= i < j < list.len() ==> list[i] < list[j]
    &&& forall|x: usize| #[trigger]
        list.contains(x) <==> blocks.tools.contains(x) || (blocks.has_text && x == 0)
}

/// The indices of the open blocks in ascending order.
pub open spec fn ascending(blocks: Blocks) -> Seq<usize> {
    choose|list: Seq<usize>| is_ascending(list, blocks)
}

/// The events that end a message: each open block stops, then the message.
pub open spec fn closing_events(reason: Seq<char>, blocks: Blocks) -> Seq<StreamEventView> {
    let stops = ascending(blocks);
    Seq::new(
        stops.len(),
        |i: int| StreamEventView::BlockStop { index: stops[i] as int },
    ) + seq![
        StreamEventView::MessageDelta { reason: stop_reason(reason) },
        StreamEventView::MessageStop,
    ]
}

/// The choices of a chunk.
pub open spec fn chunk_choices(chunk: JsonView) -> Seq<JsonView> {
    match chunk.array_at("choices"@) {
        Some(choices) => choices,
        None => Seq::empty(),
    }
}

/// The events of a chunk.
pub open spec fn chunk_events(chunk: JsonView, blocks: Blocks) -> Seq<StreamEventView> {
    let choices = chunk_choices(chunk);
    let events = choices_events(choices, blocks);
    match finish_reason(choices) {
        Some(reason) => events + closing_events(reason, blocks_after(choices, blocks)),
        None => events,
    }
}

/// Whether the index of every tool block of a delta can be held.
pub open spec fn delta_fits(delta: JsonView) -> bool {
    forall|i: int|
        0 <= i < delta_calls(delta).len() ==> index_fits(#[trigger] delta_calls(delta)[i], i)
}

/// Whether the index of every tool block of a chunk can be held.
pub open spec fn chunk_fits(chunk: JsonView) -> bool {
    forall|i: int|
        0 <= i < chunk_choices(chunk).len() ==> ((
        #[trigger] chunk_choices(chunk)[i]).get("delta"@) matches Some(delta) ==> delta_fits(delta))
}

/// Only one list names the indices in ascending order.
pub proof fn lemma_ascending_unique(a: Seq<usize>, b: Seq<usize>, blocks: Blocks)
    requires
        is_ascending(a, blocks),
        is_ascending(b, blocks),
    ensures
        a == b,
    decreases a.len(),
{
    if a.len() == 0 {
        if b.len() > 0 {
            assert(b.contains(b[0]));
            assert(a.contains(b[0]));
        }
        assert(a =~= b);
    } else {
        assert(a.contains(a.last()));
        assert(b.contains(a.last()));
        assert(b.contains(b.last()));
        assert(a.contains(b.last()));
        let x = a.last();
        let at_a = a.index_of(b.last());
        let at_b = b.index_of(x);
        assert(b[at_b] == x && a[at_a] == b.last());
        assert(a.last() == b.last());
        let rest = Blocks {
            has_text: blocks.has_text && x != 0,
            tools: blocks.tools.remove(x),
        };
        lemma_drop_greatest(a, blocks);
        lemma_drop_greatest(b, blocks);
        lemma_ascending_unique(a.drop_last(), b.drop_last(), rest);
        assert(a =~= a.drop_last().push(x));
        assert(b =~= b.drop_last().push(x));
    }
}

proof fn lemma_drop_greatest(a: Seq<usize>, blocks: Blocks)
    requires
        is_ascending(a, blocks),
        a.len() > 0,
    ensures
        is_ascending(
            a.drop_last(),
            Blocks {
                has_text: blocks.has_text && a.last() != 0,
                tools: blocks.tools.remove(a.last()),
            },
        ),
{
    let x = a.last();
    let rest = Blocks { has_text: blocks.has_text && x != 0, tools: blocks.tools.remove(x) };
    assert forall|y: usize| #[trigger]
        a.drop_last().contains(y) <==> rest.tools.contains(y) || (rest.has_text && y == 0) by {
        if a.drop_last().contains(y) {
            let i = a.drop_last().index_of(y);
            assert(a[i] == y);
            assert(a.contains(y));
            assert(y < x);
        }
        if rest.tools.contains(y) || (rest.has_text && y == 0) {
            assert(y != x);
            assert(a.contains(y));
            let i = a.index_of(y);
            assert(a[i] == y && i < a.len() - 1);
            assert(a.drop_last()[i] == y);
        }
    }
}

/// Inserts a number into an ascending list that may hold it already.
fn insert_ascending(list: &mut Vec<usize>, x: usize)
    requires
        forall|i: int, j: int| 0 <= i < j < old(list)@.len() ==> old(list)@[i] < old(list)@[j],
    ensures
        forall|i: int, j: int|
            0 <= i < j < final(list)@.len() ==> final(list)@[i] < final(list)@[j],
        forall|y: usize| #[trigger]
            final(list)@.contains(y) <==> old(list)@.contains(y) || y == x,
{
    let ghost before = list@;
    let mut i: usize = 0;
    while i < list.len() && list[i] < x
        invariant
            i <= list@.len(),
            list@ == before,
            forall|k: int| 0 <= k < i ==> before[k] < x,
        decreases list@.len() - i,
    {
        i += 1;
    }
    if i < list.len() && list[i] == x {
        assert(before.contains(x));
        return ;
    }
    list.insert(i, x);
    assert(list@[i as int] == x);
    assert forall|y: usize| #[trigger] list@.contains(y) <==> before.contains(y) || y == x by {
        if before.contains(y) {
            let k = before.index_of(y);
            if k < i {
                assert(list@[k] == y);
            } else {
                assert(list@[k + 1] == y);
            }
        }
        if list@.contains(y) {
            let k = list@.index_of(y);
            if k < i {
                assert(before[k] == y);
            } else if k > i {
                assert(before[k - 1] == y);
            }
        }
    }
}

/// The indices of the open blocks in ascending order.
fn open_indices(has_text: bool, tools: &HashSet<usize>) -> (r: Vec<usize>)
    ensures
        r@ == ascending(Blocks { has_text, tools: tools@ }),
{
    let mut out: Vec<usize> = Vec::new();
    if has_text {
        out.push(0);
        assert(out@[0] == 0);
    }
    for index in it: tools.iter()
        invariant
            it.seq().unref().to_set() == tools@,
            forall|i: int, j: int| 0 <= i < j < out@.len() ==> out@[i] < out@[j],
            forall|x: usize| #[trigger]
                out@.contains(x) ==> (has_text && x == 0) || tools@.contains(x),
            has_text ==> out@.contains(0),
            forall|x: usize| #[trigger]
                tools@.contains(x) ==> out@.contains(x) || exists|j: int|
                    it.index() <= j < it.seq().len() && #[trigger] it.seq().unref()[j] == x,
    {
        assert(it.seq().unref()[it.index() as int] == *index);
        assert(it.seq().unref().to_set().contains(*index));
        insert_ascending(&mut out, *index);
    }
    proof {
        let blocks = Blocks { has_text, tools: tools@ };
        assert(is_ascending(out@, blocks));
        lemma_ascending_unique(out@, ascending(blocks), blocks);
    }
    out
}

/// Appends the events of one tool call.
fn push_call_events(
    call: &Json,
    position: usize,
    tools: &mut HashSet<usize>,
    out: &mut Vec<StreamEvent>,
)
    requires
        index_fits(call@, position as int),
    ensures
        events_view(final(out)@) == events_view(old(out)@) + call_events(
            call@,
            position as int,
            old(tools)@,
        ),
        final(tools)@ == old(tools)@.insert(block_index(call@, position as int) as usize),
{
    let ghost start = events_view(out@);
    let index: usize = match call.u64_at("index") {
        Some(n) => (n as usize) + 1,
        None => position + 1,
    };
    if !tools.contains(&index) {
        out.push(
            StreamEvent::ToolStart {
                index,
                id: call.str_or("id", "").to_owned(),
                name: function_text_of(call, "name", "").to_owned(),
            },
        );
    }
    tools.insert(index);
    let json: &str = function_text_of(call, "arguments", "");
    if !json.is_empty() {
        out.push(StreamEvent::ToolDelta { index, json: json.to_owned() });
    }
    assert(tools@ =~= old(tools)@.insert(index));
    assert(events_view(out@) =~= start + call_events(call@, position as int, old(tools)@));
}

/// Appends the events of a delta.
fn push_delta_events(
    delta: &Json,
    has_text: &mut bool,
    tools: &mut HashSet<usize>,
    out: &mut Vec<StreamEvent>,
)
    requires
        delta_fits(delta@),
    ensures
        events_view(final(out)@) == events_view(old(out)@) + delta_events(
            delta@,
            Blocks { has_text: *old(has_text), tools: old(tools)@ },
        ),
        blocks_after_delta(delta@, Blocks { has_text: *old(has_text), tools: old(tools)@ }) == (
        Blocks { has_text: *final(has_text), tools: final(tools)@ }),
{
    let ghost blocks = Blocks { has_text: *has_text, tools: tools@ };
    let ghost start = events_view(out@);
    match delta.str_at("content") {
        Some(text) => {
            if !text.is_empty() {
                if !*has_text {
                    out.push(StreamEvent::TextStart);
                    *has_text = true;
                }
                out.push(StreamEvent::TextDelta { text: text.to_owned() });
            }
        },
        None => {},
    }
    let ghost spoken = events_view(out@);
    match delta.array_at("tool_calls") {
        Some(calls) => {
            let ghost all = items_model(calls@);
            assert(delta_calls(delta@) == all);
            let mut i: usize = 0;
            assert(all.take(0) =~= Seq::empty());
            assert(spoken =~= spoken + calls_events(all.take(0), blocks.tools));
            while i < calls.len()
                invariant
                    i <= calls@.len(),
                    all == items_model(calls@),
                    forall|k: int| 0 <= k < all.len() ==> index_fits(#[trigger] all[k], k),
                    tools@ == tools_after(all.take(i as int), blocks.tools),
                    events_view(out@) == spoken + calls_events(all.take(i as int), blocks.tools),
                decreases calls@.len() - i,
            {
                assert(all.take(i + 1).drop_last() =~= all.take(i as int));
                assert(all.take(i + 1).last() == all[i as int]);
                assert(all[i as int] == calls@[i as int]@);
                push_call_events(&calls[i], i, tools, out);
                assert(events_view(out@) =~= spoken + calls_events(all.take(i + 1), blocks.tools));
                i += 1;
            }
            assert(all.take(i as int) =~= all);
        },
        None => {},
    }
    assert(events_view(out@) =~= start + delta_events(delta@, blocks));
}

/// The events of a chunk, and the blocks open after it.
pub fn chunk_to_events(
    chunk: &Json,
    has_text: &mut bool,
    opened_tool_indices: &mut HashSet<usize>,
) -> (r: Vec<StreamEvent>)
    requires
        chunk_fits(chunk@),
    ensures
        events_view(r@) == chunk_events(
            chunk@,
            Blocks { has_text: *old(has_text), tools: old(opened_tool_indices)@ },
        ),
        blocks_after(
            chunk_choices(chunk@),
            Blocks { has_text: *old(has_text), tools: old(opened_tool_indices)@ },
        ) == (Blocks { has_text: *final(has_text), tools: final(opened_tool_indices)@ }),
{
    let ghost blocks = Blocks { has_text: *has_text, tools: opened_tool_indices@ };
    let ghost all = chunk_choices(chunk@);
    let mut out: Vec<StreamEvent> = Vec::new();
    let mut reason: Option<String> = None;
    match chunk.array_at("choices") {
        Some(choices) => {
            let mut i: usize = 0;
            assert(all.take(0) =~= Seq::empty());
            assert(events_view(out@) =~= choices_events(all.take(0), blocks));
            while i < choices.len()
                invariant
                    i <= choices@.len(),
                    chunk_fits(chunk@),
                    all == chunk_choices(chunk@),
                    all == items_model(choices@),
                    blocks_after(all.take(i as int), blocks) == (Blocks {
                        has_text: *has_text,
                        tools: opened_tool_indices@,
                    }),
                    events_view(out@) == choices_events(all.take(i as int), blocks),
                    match reason {
                        Some(text) => finish_reason(all.take(i as int)) == Some(text@),
                        None => finish_reason(all.take(i as int)) is None,
                    },
                decreases choices@.len() - i,
            {
                assert(all.take(i + 1).drop_last() =~= all.take(i as int));
                assert(all.take(i + 1).last() == all[i as int]);
                assert(chunk_choices(chunk@)[i as int] == choices@[i as int]@);
                match choices[i].get("delta") {
                    Some(delta) => {
                        push_delta_events(delta, has_text, opened_tool_indices, &mut out);
                    },
                    None => {},
                }
                match choices[i].str_at("finish_reason") {
                    Some(text) => {
                        reason = Some(text.to_owned());
                    },
                    None => {},
                }
                i += 1;
            }
            assert(all.take(i as int) =~= all);
        },
        None => {
            assert(events_view(out@) =~= choices_events(all, blocks));
        },
    }
    match reason {
        Some(reason) => {
            let ghost before = events_view(out@);
            let ghost open = Blocks { has_text: *has_text, tools: opened_tool_indices@ };
            let stops: Vec<usize> = open_indices(*has_text, opened_tool_indices);
            let mut i: usize = 0;
            while i < stops.len()
                invariant
                    i <= stops@.len(),
                    out@.len() == before.len() + i,
                    forall|k: int| 0 <= k < before.len() ==> (#[trigger] out@[k])@ == before[k],
                    forall|k: int|
                        before.len() <= k < out@.len() ==> (#[trigger] out@[k])@ == (
                        StreamEventView::BlockStop { index: stops@[k - before.len()] as int }),
                decreases stops@.len() - i,
            {
                out.push(StreamEvent::BlockStop { index: stops[i] });
                i += 1;
            }
            out.push(StreamEvent::MessageDelta { reason: stop_reason_of(reason.as_str()) });
            out.push(StreamEvent::MessageStop);
            assert(events_view(out@) =~= before + closing_events(reason@, open));
        },
        None => {},
    }
    out
}

/// Whether the index of every tool block of a chunk can be held.
pub fn is_chunk_fit(chunk: &Json) -> (r: bool)
    ensures
        r == chunk_fits(chunk@),
{
    match chunk.array_at("choices") {
        Some(choices) => {
            let ghost all = chunk_choices(chunk@);
            let mut i: usize = 0;
            while i < choices.len()
                invariant
                    i <= choices@.len(),
                    all == chunk_choices(chunk@),
                    all == items_model(choices@),
                    forall|k: int|
                        0 <= k < i ==> ((#[trigger] all[k]).get("delta"@) matches Some(delta)
                            ==> delta_fits(delta)),
                decreases choices@.len() - i,
            {
                assert(all[i as int] == choices@[i as int]@);
                match choices[i].get("delta") {
                    Some(delta) => {
                        if !is_delta_fit(delta) {
                            assert(chunk_choices(chunk@)[i as int].get("delta"@) == Some(delta@));
                            return false;
                        }
                    },
                    None => {},
                }
                i += 1;
            }
            true
        },
        None => true,
    }
}

fn is_delta_fit(delta: &Json) -> (r: bool)
    ensures
        r == delta_fits(delta@),
{
    match delta.array_at("tool_calls") {
        Some(calls) => {
            let ghost all = delta_calls(delta@);
            let mut i: usize = 0;
            while i < calls.len()
                invariant
                    i <= calls@.len(),
                    all == delta_calls(delta@),
                    all == items_model(calls@),
                    forall|k: int| 0 <= k < i ==> index_fits(#[trigger] all[k], k),
                decreases calls@.len() - i,
            {
                assert(all[i as int] == calls@[i as int]@);
                match calls[i].u64_at("index") {
                    Some(n) => {
                        if (n as usize) == usize::MAX {
                            assert(!index_fits(delta_calls(delta@)[i as int], i as int));
                            return false;
                        }
                    },
                    None => {},
                }
                i += 1;
            }
            true
        },
        None => true,
    }
}

/// An event as it goes out: its type and its data as text.
pub open spec fn rendered(event: StreamEventView) -> (Seq<char>, Seq<char>) {
    (event.name(), json_text(event.payload()))
}

/// The events of a list as they go out.
pub open spec fn rendered_all(events: Seq<StreamEventView>) -> Seq<(Seq<char>, Seq<char>)> {
    Seq::new(events.len(), |i: int| rendered(events[i]))
}

/// The pairs of texts of a list.
pub open spec fn pairs(list: Seq<(String, String)>) -> Seq<(Seq<char>, Seq<char>)> {
    Seq::new(list.len(), |i: int| (list[i].0@, list[i].1@))
}

/// Whether no line ends in any of the texts.
pub open spec fn are_one_line(list: Seq<(String, String)>) -> bool {
    forall|i: int|
        0 <= i < list.len() ==> is_one_line((#[trigger] list[i]).0@) && is_one_line(list[i].1@)
}

/// Whether the data of each event spells its payload.
pub open spec fn spell_payloads(
    list: Seq<(Seq<char>, Seq<char>)>,
    events: Seq<StreamEventView>,
) -> bool {
    &&& list.len() == events.len()
    &&& forall|i: int|
        0 <= i < list.len() ==> json_of_text((#[trigger] list[i]).1) == Some(events[i].payload())
}

/// Reveals how long the names of the members of an event are.
proof fn lemma_member_names()
    ensures
        "$serde_json::private::RawValue"@.len() == 30,
        "type"@.len() == 4,
        "index"@.len() == 5,
        "content_block"@.len() == 13,
        "delta"@.len() == 5,
        "usage"@.len() == 5,
        "text"@.len() == 4,
        "id"@.len() == 2,
        "name"@.len() == 4,
        "input"@.len() == 5,
        "partial_json"@.len() == 12,
        "stop_reason"@.len() == 11,
        "stop_sequence"@.len() == 13,
        "output_tokens"@.len() == 13,
        "input_tokens"@.len() == 12,
        "message"@.len() == 7,
        "role"@.len() == 4,
        "content"@.len() == 7,
        "model"@.len() == 5,
{
    reveal_strlit("$serde_json::private::RawValue");
    reveal_strlit("type");
    reveal_strlit("index");
    reveal_strlit("content_block");
    reveal_strlit("delta");
    reveal_strlit("usage");
    reveal_strlit("text");
    reveal_strlit("id");
    reveal_strlit("name");
    reveal_strlit("input");
    reveal_strlit("partial_json");
    reveal_strlit("stop_reason");
    reveal_strlit("stop_sequence");
    reveal_strlit("output_tokens");
    reveal_strlit("input_tokens");
    reveal_strlit("message");
    reveal_strlit("role");
    reveal_strlit("content");
    reveal_strlit("model");
}

/// The payload of an event names its type, and reads back as it was written.
pub proof fn lemma_payload(event: StreamEvent)
    ensures
        event@.payload().str_at("type"@) == Some(event@.name()),
        reads_back(event@.payload(), depth_limit()),
{
    broadcast use lemma_with_reads_back;

    lemma_member_names();
}

/// The data of the event that starts a message names its type, and reads back as it
/// was written.
pub proof fn lemma_message_start(id: Seq<char>, model: Seq<char>)
    ensures
        message_start(id, model).str_at("type"@) == Some("message_start"@),
        reads_back(message_start(id, model), depth_limit()),
{
    broadcast use lemma_with_reads_back;

    lemma_member_names();
}

proof fn lemma_names_are_one_line(event: StreamEventView)
    ensures
        is_one_line(event.name()),
{
    reveal_strlit("content_block_start");
    reveal_strlit("content_block_delta");
    reveal_strlit("content_block_stop");
    reveal_strlit("message_delta");
    reveal_strlit("message_stop");
}

/// The events of the chunk that a text spells: none where it spells no value.
pub open spec fn text_events(chunk: Option<JsonView>, blocks: Blocks) -> Seq<StreamEventView> {
    match chunk {
        Some(chunk) => chunk_events(chunk, blocks),
        None => Seq::empty(),
    }
}

/// The blocks open after the chunk that a text spells.
pub open spec fn blocks_after_text(chunk: Option<JsonView>, blocks: Blocks) -> Blocks {
    match chunk {
        Some(chunk) => blocks_after(chunk_choices(chunk), blocks),
        None => blocks,
    }
}

/// Whether the index of every tool block can be held of the chunk that a text
/// spells, if it spells one.
pub open spec fn text_fits(chunk: Option<JsonView>) -> bool {
    match chunk {
        Some(chunk) => chunk_fits(chunk),
        None => true,
    }
}

/// The events as they go out.
pub fn render_all(events: &Vec<StreamEvent>) -> (r: Vec<(String, String)>)
    ensures
        pairs(r@) == rendered_all(events_view(events@)),
        are_one_line(r@),
        spell_payloads(pairs(r@), events_view(events@)),
{
    let mut out: Vec<(String, String)> = Vec::new();
    let mut i: usize = 0;
    while i < events.len()
        invariant
            i <= events@.len(),
            out@.len() == i,
            forall|k: int|
                0 <= k < i ==> ((#[trigger] out@[k]).0@, out@[k].1@) == rendered(events@[k]@),
            are_one_line(out@),
            forall|k: int|
                0 <= k < i ==> json_of_text((#[trigger] out@[k]).1@) == Some(events@[k]@.payload()),
        decreases events@.len() - i,
    {
        proof {
            lemma_names_are_one_line(events@[i as int]@);
            lemma_payload(events@[i as int]);
        }
        out.push((events[i].name(), events[i].payload().to_text()));
        i += 1;
    }
    assert(pairs(out@) =~= rendered_all(events_view(events@)));
    out
}

/// Turns one chunk of an OpenAI stream into the events of an Anthropic stream.
///
/// A text that spells no value gives none. `has_text` and `opened_tool_indices`
/// hold the blocks that the stream has opened so far.
pub fn sse_chunk_to_anthropic(
    openai_chunk: &str,
    has_text: &mut bool,
    opened_tool_indices: &mut HashSet<usize>,
) -> (r: Vec<(String, String)>)
    requires
        text_fits(json_of_text(openai_chunk@)),
    ensures
        pairs(r@) == rendered_all(
            text_events(
                json_of_text(openai_chunk@),
                Blocks { has_text: *old(has_text), tools: old(opened_tool_indices)@ },
            ),
        ),
        blocks_after_text(
            json_of_text(openai_chunk@),
            Blocks { has_text: *old(has_text), tools: old(opened_tool_indices)@ },
        ) == (Blocks { has_text: *final(has_text), tools: final(opened_tool_indices)@ }),
        are_one_line(r@),
        spell_payloads(
            pairs(r@),
            text_events(
                json_of_text(openai_chunk@),
                Blocks { has_text: *old(has_text), tools: old(opened_tool_indices)@ },
            ),
        ),
{
    match Json::parse(openai_chunk) {
        Some(chunk) => {
            let events: Vec<StreamEvent> = chunk_to_events(&chunk, has_text, opened_tool_indices);
            render_all(&events)
        },
        None => {
            let out: Vec<(String, String)> = Vec::new();
            assert(pairs(out@) =~= rendered_all(Seq::empty()));
            out
        },
    }
}

/// As `sse_chunk_to_anthropic`, for any text. Where the index of a tool block
/// cannot be held, nothing is handed out and the open blocks stay as they are.
pub fn try_sse_chunk_to_anthropic(
    openai_chunk: &str,
    has_text: &mut bool,
    opened_tool_indices: &mut HashSet<usize>,
) -> (r: Option<Vec<(String, String)>>)
    ensures
        r is Some <==> text_fits(json_of_text(openai_chunk@)),
        match r {
            Some(events) => {
                &&& pairs(events@) == rendered_all(
                    text_events(
                        json_of_text(openai_chunk@),
                        Blocks { has_text: *old(has_text), tools: old(opened_tool_indices)@ },
                    ),
                )
                &&& blocks_after_text(
                    json_of_text(openai_chunk@),
                    Blocks { has_text: *old(has_text), tools: old(opened_tool_indices)@ },
                ) == (Blocks { has_text: *final(has_text), tools: final(opened_tool_indices)@ })
                &&& are_one_line(events@)
                &&& spell_payloads(
                    pairs(events@),
                    text_events(
                        json_of_text(openai_chunk@),
                        Blocks { has_text: *old(has_text), tools: old(opened_tool_indices)@ },
                    ),
                )
            },
            None => *final(has_text) == *old(has_text) && final(opened_tool_indices)@ == old(
                opened_tool_indices,
            )@,
        },
{
    let fit: bool = match Json::parse(openai_chunk) {
        Some(chunk) => is_chunk_fit(&chunk),
        None => true,
    };
    if fit {
        Some(sse_chunk_to_anthropic(openai_chunk, has_text, opened_tool_indices))
    } else {
        None
    }
}

/// The data of the event that starts a message.
pub open spec fn message_start(id: Seq<char>, model: Seq<char>) -> JsonView {
    JsonView::object().with("type"@, JsonView::String("message_start"@)).with(
        "message"@,
        message_object(id, model, Seq::empty(), JsonView::Null, 0, 0),
    )
}

/// The data of the event that starts a message.
pub fn message_start_of(id: &str, model: &str) -> (r: Json)
    ensures
        r@ == message_start(id@, model@),
{
    Json::object().with("type", Json::text("message_start")).with(
        "message",
        message_object_of(id, model, Vec::new(), Json::Null, 0, 0),
    )
}

/// The event that starts a message.
pub fn sse_message_start(id: &str, model: &str) -> (r: (String, String))
    ensures
        r.0@ == "message_start"@,
        r.1@ == json_text(message_start(id@, model@)),
        is_one_line(r.1@),
        json_of_text(r.1@) == Some(message_start(id@, model@)),
{
    proof {
        lemma_message_start(id@, model@);
    }
    ("message_start".to_owned(), message_start_of(id, model).to_text())
}

} // verus!
