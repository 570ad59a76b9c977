//! What is said is carried over: by the events of a stream, and by an answer that
//! is sent back in the next request.

use crate::anthropic::order::{is_open, lemma_ascending, stream_blocks, stream_events};
use crate::anthropic::request::{
    is_block, text_if_any, text_parts, tool_calls, tool_input, tool_messages,
};
use crate::anthropic::response::{
    call_input, function_text, message_content, text_content, tool_use, tool_uses,
};
use crate::anthropic::sse::{
    ascending, block_index, blocks_after, call_events, calls_events, choices_events, chunk_choices,
    chunk_events, chunk_fits, closing_events, delta_calls, delta_events, delta_fits, delta_text,
    finish_reason, index_fits, message_start, tools_after, Blocks, StreamEventView,
};
use crate::codec::json_text;
use crate::json::{has_only, text_under, JsonView};
use vstd::prelude::*;

verus! {

/// Where something is said: in the text, or in the input of the tool block with
/// that index.
pub enum Place {
    Text,
    Tool(int),
}

/// What an event says at that place.
pub open spec fn said(event: StreamEventView, place: Place) -> Seq<char> {
    match (event, place) {
        (StreamEventView::TextDelta { text }, Place::Text) => text,
        (StreamEventView::ToolDelta { index, json }, Place::Tool(at)) => if index == at {
            json
        } else {
            Seq::empty()
        },
        _ => Seq::empty(),
    }
}

/// What the events say at that place, put together.
pub open spec fn said_by(events: Seq<StreamEventView>, place: Place) -> Seq<char>
    decreases events.len(),
{
    if events.len() == 0 {
        Seq::empty()
    } else {
        said_by(events.drop_last(), place) + said(events.last(), place)
    }
}

/// What the tool calls of a delta say at that place, put together.
pub open spec fn said_in_calls(calls: Seq<JsonView>, place: Place) -> Seq<char>
    decreases calls.len(),
{
    if calls.len() == 0 {
        Seq::empty()
    } else {
        said_in_calls(calls.drop_last(), place) + if place == Place::Tool(
            block_index(calls.last(), calls.len() - 1),
        ) {
            function_text(calls.last(), "arguments"@, ""@)
        } else {
            Seq::empty()
        }
    }
}

/// What a delta says at that place.
pub open spec fn said_in_delta(delta: JsonView, place: Place) -> Seq<char> {
    match place {
        Place::Text => delta.str_or("content"@, Seq::empty()),
        Place::Tool(_) => said_in_calls(delta_calls(delta), place),
    }
}

/// What the choices of a chunk say at that place, put together.
pub open spec fn said_in_choices(choices: Seq<JsonView>, place: Place) -> Seq<char>
    decreases choices.len(),
{
    if choices.len() == 0 {
        Seq::empty()
    } else {
        said_in_choices(choices.drop_last(), place) + match choices.last().get("delta"@) {
            Some(delta) => said_in_delta(delta, place),
            None => Seq::empty(),
        }
    }
}

/// What the chunks of a stream say at that place, put together.
pub open spec fn said_in_stream(chunks: Seq<JsonView>, place: Place) -> Seq<char>
    decreases chunks.len(),
{
    if chunks.len() == 0 {
        Seq::empty()
    } else {
        said_in_stream(chunks.drop_last(), place) + said_in_choices(
            chunk_choices(chunks.last()),
            place,
        )
    }
}

proof fn lemma_said_by_add(a: Seq<StreamEventView>, b: Seq<StreamEventView>, place: Place)
    ensures
        said_by(a + b, place) == said_by(a, place) + said_by(b, place),
    decreases b.len(),
{
    if b.len() == 0 {
        assert(a + b =~= a);
        assert(said_by(a, place) + said_by(b, place) =~= said_by(a, place));
    } else {
        lemma_said_by_add(a, b.drop_last(), place);
        assert((a + b).drop_last() =~= a + b.drop_last());
        assert(said_by(a + b, place) =~= said_by(a, place) + said_by(b, place));
    }
}

proof fn lemma_nothing_said(events: Seq<StreamEventView>, place: Place)
    requires
        forall|i: int|
            0 <= i < events.len() ==> said(#[trigger] events[i], place) == Seq::<char>::empty(),
    ensures
        said_by(events, place) == Seq::<char>::empty(),
    decreases events.len(),
{
    if events.len() > 0 {
        assert(said(events[events.len() - 1], place) == Seq::<char>::empty());
        let front = events.drop_last();
        assert forall|i: int| 0 <= i < front.len() implies said(#[trigger] front[i], place)
            == Seq::<char>::empty() by {
            assert(front[i] == events[i]);
        }
        lemma_nothing_said(front, place);
        assert(said_by(events, place) =~= Seq::<char>::empty());
    }
}

proof fn lemma_said_by_call(call: JsonView, position: int, tools: Set<usize>, place: Place)
    ensures
        said_by(call_events(call, position, tools), place) == if place == Place::Tool(
            block_index(call, position),
        ) {
            function_text(call, "arguments"@, ""@)
        } else {
            Seq::empty()
        },
{
    reveal_with_fuel(said_by, 3);
    let events = call_events(call, position, tools);
    let json = function_text(call, "arguments"@, ""@);
    if json.len() > 0 {
        lemma_nothing_said(events.drop_last(), place);
        assert(said_by(events, place) =~= said(events.last(), place));
    } else {
        lemma_nothing_said(events, place);
        assert(json =~= Seq::empty());
    }
}

proof fn lemma_said_by_calls(calls: Seq<JsonView>, tools: Set<usize>, place: Place)
    ensures
        said_by(calls_events(calls, tools), place) == said_in_calls(calls, place),
    decreases calls.len(),
{
    if calls.len() > 0 {
        let front = calls.drop_last();
        let between = tools_after(front, tools);
        lemma_said_by_calls(front, tools, place);
        lemma_said_by_call(calls.last(), calls.len() - 1, between, place);
        lemma_said_by_add(
            calls_events(front, tools),
            call_events(calls.last(), calls.len() - 1, between),
            place,
        );
    }
}

proof fn lemma_no_text_in_calls(calls: Seq<JsonView>)
    ensures
        said_in_calls(calls, Place::Text) == Seq::<char>::empty(),
    decreases calls.len(),
{
    if calls.len() > 0 {
        lemma_no_text_in_calls(calls.drop_last());
        assert(said_in_calls(calls, Place::Text) =~= Seq::<char>::empty());
    }
}

proof fn lemma_said_by_delta(delta: JsonView, blocks: Blocks, place: Place)
    ensures
        said_by(delta_events(delta, blocks), place) == said_in_delta(delta, place),
{
    reveal_with_fuel(said_by, 3);
    let calls = calls_events(delta_calls(delta), blocks.tools);
    lemma_said_by_calls(delta_calls(delta), blocks.tools, place);
    lemma_no_text_in_calls(delta_calls(delta));
    let text = delta.str_or("content"@, Seq::empty());
    let spoken = match delta_text(delta) {
        Some(text) => if blocks.has_text {
            seq![StreamEventView::TextDelta { text }]
        } else {
            seq![StreamEventView::TextStart, StreamEventView::TextDelta { text }]
        },
        None => Seq::empty(),
    };
    lemma_said_by_add(spoken, calls, place);
    if delta_text(delta) is Some {
        lemma_nothing_said(spoken.drop_last(), place);
        assert(said_by(spoken, place) =~= said(spoken.last(), place));
    } else {
        assert(text =~= Seq::empty());
    }
    assert(said_by(delta_events(delta, blocks), place) =~= said_in_delta(delta, place));
}

proof fn lemma_said_by_choices(choices: Seq<JsonView>, blocks: Blocks, place: Place)
    ensures
        said_by(choices_events(choices, blocks), place) == said_in_choices(choices, place),
    decreases choices.len(),
{
    if choices.len() > 0 {
        let front = choices.drop_last();
        lemma_said_by_choices(front, blocks, place);
        match choices.last().get("delta"@) {
            Some(delta) => {
                let between = blocks_after(front, blocks);
                lemma_said_by_delta(delta, between, place);
                lemma_said_by_add(
                    choices_events(front, blocks),
                    delta_events(delta, between),
                    place,
                );
            },
            None => {
                assert(said_in_choices(choices, place) =~= said_in_choices(front, place));
            },
        }
    }
}

/// The events of a chunk say what the chunk says: in the text and in each tool
/// block, nothing more and nothing less.
pub proof fn chunk_events_say_the_same(chunk: JsonView, blocks: Blocks, place: Place)
    ensures
        said_by(chunk_events(chunk, blocks), place) == said_in_choices(chunk_choices(chunk), place),
{
    let choices = chunk_choices(chunk);
    lemma_said_by_choices(choices, blocks, place);
    match finish_reason(choices) {
        Some(reason) => {
            let closing = closing_events(reason, blocks_after(choices, blocks));
            let stops = ascending(blocks_after(choices, blocks));
            assert forall|i: int| 0 <= i < closing.len() implies said(#[trigger] closing[i], place)
                == Seq::<char>::empty() by {
                if i < stops.len() {
                    assert(closing[i] == StreamEventView::BlockStop { index: stops[i] as int });
                }
            }
            lemma_nothing_said(closing, place);
            lemma_said_by_add(choices_events(choices, blocks), closing, place);
            assert(said_by(chunk_events(chunk, blocks), place) =~= said_in_choices(
                choices,
                place,
            ));
        },
        None => {},
    }
}

/// Over a whole stream the events say what the chunks say: in the text and in each
/// tool block, nothing more and nothing less.
pub proof fn stream_events_say_the_same(chunks: Seq<JsonView>, place: Place)
    ensures
        said_by(stream_events(chunks), place) == said_in_stream(chunks, place),
    decreases chunks.len(),
{
    if chunks.len() > 0 {
        let front = chunks.drop_last();
        stream_events_say_the_same(front, place);
        chunk_events_say_the_same(chunks.last(), stream_blocks(front), place);
        lemma_said_by_add(
            stream_events(front),
            chunk_events(chunks.last(), stream_blocks(front)),
            place,
        );
    }
}

/// A tool call as it is sent back: with the id and the name that it had, and with
/// arguments that write out what its own arguments spell.
pub open spec fn returned_call(call: JsonView) -> JsonView {
    JsonView::object().with("id"@, JsonView::String(call.str_or("id"@, ""@))).with(
        "type"@,
        JsonView::String("function"@),
    ).with(
        "function"@,
        JsonView::object().with("name"@, JsonView::String(function_text(call, "name"@, ""@))).with(
            "arguments"@,
            JsonView::String(json_text(call_input(call))),
        ),
    )
}

proof fn lemma_returned_calls(calls: Seq<JsonView>, before: Seq<JsonView>)
    ensures
        text_parts(before + tool_uses(calls)) == text_parts(before),
        tool_messages(before + tool_uses(calls)) == tool_messages(before),
        tool_calls(before + tool_uses(calls)) == tool_calls(before) + Seq::new(
            calls.len(),
            |i: int| returned_call(calls[i]),
        ),
    decreases calls.len(),
{
    let blocks = before + tool_uses(calls);
    let returned = Seq::new(calls.len(), |i: int| returned_call(calls[i]));
    if calls.len() == 0 {
        assert(blocks =~= before);
        assert(tool_calls(before) + returned =~= tool_calls(before));
    } else {
        let call = calls.last();
        let block = tool_use(call, call_input(call));
        lemma_returned_calls(calls.drop_last(), before);
        assert(blocks.drop_last() =~= before + tool_uses(calls.drop_last()));
        assert(blocks.last() == block);
        reveal_strlit("type");
        reveal_strlit("id");
        reveal_strlit("name");
        reveal_strlit("input");
        reveal_strlit("tool_use");
        reveal_strlit("text");
        reveal_strlit("tool_result");
        assert("type"@.len() == 4 && "id"@.len() == 2 && "name"@.len() == 4 && "input"@.len() == 5);
        assert("type"@[0] != "name"@[0]);
        assert("tool_use"@.len() == 8 && "text"@.len() == 4 && "tool_result"@.len() == 11);
        assert(block.str_at("type"@) == Some("tool_use"@));
        assert(block.str_or("id"@, ""@) == call.str_or("id"@, ""@));
        assert(block.str_or("name"@, ""@) == function_text(call, "name"@, ""@));
        assert(tool_input(block) == call_input(call));
        assert(is_block(block, "tool_use"@));
        assert(!is_block(block, "text"@));
        assert(!is_block(block, "tool_result"@));
        let front = Seq::new(
            calls.drop_last().len(),
            |i: int| returned_call(calls.drop_last()[i]),
        );
        assert(returned =~= front.push(returned_call(call)));
        assert(tool_calls(blocks) =~= tool_calls(before) + returned);
    }
}

/// An answer that is sent back in the next request says there what it said: the
/// same text, where it had one, and the same tool calls, with arguments that write
/// out what their own arguments spell.
pub proof fn answers_are_sent_back(message: JsonView)
    ensures
        ({
            let blocks = message_content(message);
            let calls = match message.array_at("tool_calls"@) {
                Some(calls) => calls,
                None => Seq::empty(),
            };
            &&& text_parts(blocks) == match message.str_at("content"@) {
                Some(text) => if text.len() > 0 {
                    seq![text]
                } else {
                    Seq::empty()
                },
                None => Seq::empty(),
            }
            &&& tool_calls(blocks) == Seq::new(calls.len(), |i: int| returned_call(calls[i]))
            &&& tool_messages(blocks) == Seq::<JsonView>::empty()
        }),
{
    let calls = match message.array_at("tool_calls"@) {
        Some(calls) => calls,
        None => Seq::empty(),
    };
    let spoken = text_content(message);
    assert(message_content(message) =~= spoken + tool_uses(calls));
    lemma_returned_calls(calls, spoken);
    if spoken.len() > 0 {
        let block = spoken[0];
        let none = spoken.drop_last();
        assert(none =~= Seq::<JsonView>::empty());
        reveal_strlit("type");
        reveal_strlit("text");
        reveal_strlit("tool_use");
        reveal_strlit("tool_result");
        assert("type"@[1] != "text"@[1]);
        assert("tool_use"@.len() == 8 && "text"@.len() == 4 && "tool_result"@.len() == 11);
        assert(block.str_at("type"@) == Some("text"@));
        assert(is_block(block, "text"@));
        assert(!is_block(block, "tool_use"@));
        assert(!is_block(block, "tool_result"@));
        assert(text_parts(none) =~= Seq::<Seq<char>>::empty());
        assert(tool_calls(none) =~= Seq::<JsonView>::empty());
        assert(tool_messages(none) =~= Seq::<JsonView>::empty());
        assert(text_parts(spoken) =~= seq![message.str_at("content"@)->0]);
    }
    assert(tool_calls(spoken) =~= Seq::<JsonView>::empty());
    let returned = Seq::new(calls.len(), |i: int| returned_call(calls[i]));
    assert(tool_calls(spoken) + returned =~= returned);
}

/// A tool call as a chunk of a stream has it: for which block, with which id, name and
/// arguments.
pub struct Call {
    pub index: int,
    pub id: Seq<char>,
    pub name: Seq<char>,
    pub arguments: Seq<char>,
}

/// The items of the array under that name: none where there is no array.
pub open spec fn items_under(value: JsonView, name: Seq<char>) -> Seq<JsonView> {
    match value.get(name) {
        Some(JsonView::Array(items)) => items,
        _ => Seq::empty(),
    }
}

/// What stands under that name: null where nothing does.
pub open spec fn under(value: JsonView, name: Seq<char>) -> JsonView {
    match value.get(name) {
        Some(member) => member,
        None => JsonView::Null,
    }
}

/// A tool call, read at its position in the list. Its block comes one after the index
/// that it names, or else one after its position.
pub open spec fn read_call(call: JsonView, position: int) -> Call {
    Call {
        index: 1 + match call.get("index"@) {
            Some(JsonView::Int(n)) => if 0 <= n <= u64::MAX {
                ((n as u64) as usize) as int
            } else {
                position
            },
            _ => position,
        },
        id: text_under(call, "id"@),
        name: text_under(under(call, "function"@), "name"@),
        arguments: text_under(under(call, "function"@), "arguments"@),
    }
}

/// The tool calls of a choice.
pub open spec fn calls_in_choice(choice: JsonView) -> Seq<Call> {
    let calls = items_under(under(choice, "delta"@), "tool_calls"@);
    Seq::new(calls.len(), |i: int| read_call(calls[i], i))
}

/// The tool calls of some choices, one choice after the other.
pub open spec fn calls_in_choices(choices: Seq<JsonView>) -> Seq<Call>
    decreases choices.len(),
{
    if choices.len() == 0 {
        Seq::empty()
    } else {
        calls_in_choices(choices.drop_last()) + calls_in_choice(choices.last())
    }
}

/// The tool calls of a stream, one chunk after the other.
pub open spec fn calls_in_stream(chunks: Seq<JsonView>) -> Seq<Call>
    decreases chunks.len(),
{
    if chunks.len() == 0 {
        Seq::empty()
    } else {
        calls_in_stream(chunks.drop_last()) + calls_in_choices(
            items_under(chunks.last(), "choices"@),
        )
    }
}

/// Whether a tool call is the first of its block.
pub open spec fn is_first(calls: Seq<Call>, i: int) -> bool {
    forall|j: int| 0 <= j < i ==> (#[trigger] calls[j]).index != calls[i].index
}

/// The block that an event starts for a tool: its index, the id of the call and the
/// name of the tool.
pub open spec fn tool_started(event: StreamEventView) -> Option<(int, Seq<char>, Seq<char>)> {
    match event {
        StreamEventView::ToolStart { index, id, name } => Some((index, id, name)),
        _ => None,
    }
}

/// Whether the events start the block of a tool call, with its id and its name.
pub open spec fn starts_call(events: Seq<StreamEventView>, call: Call) -> bool {
    exists|i: int|
        0 <= i < events.len() && #[trigger] tool_started(events[i]) == Some(
            (call.index, call.id, call.name),
        )
}

/// Whether an event starts the block of the first of these calls that is for that
/// block, with its id and its name.
pub open spec fn is_started_by(event: StreamEventView, calls: Seq<Call>) -> bool {
    tool_started(event) matches Some(started) ==> exists|i: int|
        0 <= i < calls.len() && #[trigger] is_first(calls, i) && started == (
            calls[i].index,
            calls[i].id,
            calls[i].name,
        )
}

/// Whether the events start, for these calls after those, the block of each call that
/// is the first of its block, with its id and its name, and no other block for a tool.
pub open spec fn start_the_calls(
    events: Seq<StreamEventView>,
    earlier: Seq<Call>,
    calls: Seq<Call>,
) -> bool {
    let all = earlier + calls;
    &&& forall|k: int|
        earlier.len() <= k < all.len() && #[trigger] is_first(all, k) ==> starts_call(
            events,
            all[k],
        )
    &&& forall|i: int| 0 <= i < events.len() ==> is_started_by(#[trigger] events[i], all)
}

/// Whether the blocks that are open for tools are those of these calls.
pub open spec fn opened_by(tools: Set<usize>, calls: Seq<Call>) -> bool {
    &&& forall|x: usize| #[trigger]
        tools.contains(x) <==> exists|i: int|
            0 <= i < calls.len() && (#[trigger] calls[i]).index == x
    &&& forall|i: int|
        0 <= i < calls.len() ==> 1 <= (#[trigger] calls[i]).index <= usize::MAX
}

proof fn lemma_read_call(call: JsonView, position: int)
    ensures
        read_call(call, position).index == block_index(call, position),
        read_call(call, position).id == call.str_or("id"@, ""@),
        read_call(call, position).name == function_text(call, "name"@, ""@),
        read_call(call, position).arguments == function_text(call, "arguments"@, ""@),
{
    reveal_strlit("");
    assert(""@ =~= Seq::<char>::empty());
}

/// Starting some calls and then more.
proof fn lemma_start_the_calls_add(
    a: Seq<StreamEventView>,
    b: Seq<StreamEventView>,
    earlier: Seq<Call>,
    first: Seq<Call>,
    second: Seq<Call>,
)
    requires
        start_the_calls(a, earlier, first),
        start_the_calls(b, earlier + first, second),
    ensures
        start_the_calls(a + b, earlier, first + second),
{
    let both = a + b;
    let some = earlier + first;
    let all = earlier + (first + second);
    assert(all =~= some + second);
    assert forall|k: int|
        earlier.len() <= k < all.len() && #[trigger] is_first(all, k) implies starts_call(
        both,
        all[k],
    ) by {
        if k < some.len() {
            assert(forall|j: int| 0 <= j < some.len() ==> some[j] == all[j]);
            assert(is_first(some, k));
            let i = choose|i: int|
                0 <= i < a.len() && #[trigger] tool_started(a[i]) == Some(
                    (some[k].index, some[k].id, some[k].name),
                );
            assert(tool_started(both[i]) == tool_started(a[i]));
        } else {
            assert(starts_call(b, (some + second)[k]));
            let i = choose|i: int|
                0 <= i < b.len() && #[trigger] tool_started(b[i]) == Some(
                    (all[k].index, all[k].id, all[k].name),
                );
            assert(tool_started(both[a.len() + i]) == tool_started(b[i]));
        }
    }
    assert forall|i: int| 0 <= i < both.len() implies is_started_by(#[trigger] both[i], all) by {
        if i < a.len() {
            assert(is_started_by(a[i], some));
            if tool_started(a[i]) is Some {
                let k = choose|k: int|
                    0 <= k < some.len() && #[trigger] is_first(some, k) && tool_started(a[i])->0
                        == (some[k].index, some[k].id, some[k].name);
                assert(forall|j: int| 0 <= j < some.len() ==> some[j] == all[j]);
                assert(is_first(all, k));
            }
        } else {
            assert(is_started_by(b[i - a.len()], some + second));
        }
    }
}

proof fn lemma_nothing_starts(events: Seq<StreamEventView>, earlier: Seq<Call>)
    requires
        forall|i: int| 0 <= i < events.len() ==> tool_started(#[trigger] events[i]) is None,
    ensures
        start_the_calls(events, earlier, Seq::empty()),
{
    assert(earlier + Seq::<Call>::empty() =~= earlier);
}

proof fn lemma_call_starts(
    call: JsonView,
    position: int,
    tools: Set<usize>,
    earlier: Seq<Call>,
)
    requires
        index_fits(call, position),
        position >= 0,
        opened_by(tools, earlier),
    ensures
        start_the_calls(
            call_events(call, position, tools),
            earlier,
            seq![read_call(call, position)],
        ),
        opened_by(
            tools.insert(block_index(call, position) as usize),
            earlier + seq![read_call(call, position)],
        ),
{
    lemma_read_call(call, position);
    let events = call_events(call, position, tools);
    let read = read_call(call, position);
    let all = earlier + seq![read];
    let n = earlier.len() as int;
    let index = read.index as usize;
    assert(all[n] == read);
    assert(forall|j: int| 0 <= j < n ==> all[j] == earlier[j]);
    assert(is_first(all, n) <==> !tools.contains(index)) by {
        if tools.contains(index) {
            let i = choose|i: int| 0 <= i < earlier.len() && (#[trigger] earlier[i]).index == index;
            assert(all[i].index == all[n].index);
        }
        if !is_first(all, n) {
            let j = choose|j: int| 0 <= j < n && (#[trigger] all[j]).index == all[n].index;
            assert(earlier[j].index == index);
        }
    }
    if !tools.contains(index) {
        assert(tool_started(events[0]) == Some((read.index, read.id, read.name)));
    }
    assert forall|i: int| 0 <= i < events.len() implies is_started_by(
        #[trigger] events[i],
        all,
    ) by {
        if tool_started(events[i]) is Some {
            assert(is_first(all, n));
        }
    }
    let after = tools.insert(index);
    assert forall|x: usize| #[trigger] after.contains(x) <==> exists|i: int|
        0 <= i < all.len() && (#[trigger] all[i]).index == x by {
        if tools.contains(x) {
            let i = choose|i: int| 0 <= i < earlier.len() && (#[trigger] earlier[i]).index == x;
            assert(all[i].index == x);
        }
        if x == index {
            assert(all[n].index == x);
        }
        if exists|i: int| 0 <= i < all.len() && (#[trigger] all[i]).index == x {
            let i = choose|i: int| 0 <= i < all.len() && (#[trigger] all[i]).index == x;
            if i < n {
                assert(earlier[i].index == x);
            }
        }
    }
}

/// The tool calls of a list, read in their positions.
spec fn read_calls(calls: Seq<JsonView>) -> Seq<Call> {
    Seq::new(calls.len(), |i: int| read_call(calls[i], i))
}

proof fn lemma_calls_start(calls: Seq<JsonView>, tools: Set<usize>, earlier: Seq<Call>)
    requires
        forall|i: int| 0 <= i < calls.len() ==> index_fits(#[trigger] calls[i], i),
        opened_by(tools, earlier),
    ensures
        start_the_calls(calls_events(calls, tools), earlier, read_calls(calls)),
        opened_by(tools_after(calls, tools), earlier + read_calls(calls)),
    decreases calls.len(),
{
    if calls.len() == 0 {
        lemma_nothing_starts(Seq::empty(), earlier);
        assert(read_calls(calls) =~= Seq::empty());
        assert(earlier + read_calls(calls) =~= earlier);
    } else {
        let front = calls.drop_last();
        assert(forall|i: int| 0 <= i < front.len() ==> front[i] == calls[i]);
        lemma_calls_start(front, tools, earlier);
        let between = tools_after(front, tools);
        let n = calls.len() - 1;
        assert(index_fits(calls[n], n));
        lemma_call_starts(calls.last(), n, between, earlier + read_calls(front));
        assert(read_calls(calls) =~= read_calls(front) + seq![read_call(calls.last(), n)]);
        lemma_start_the_calls_add(
            calls_events(front, tools),
            call_events(calls.last(), n, between),
            earlier,
            read_calls(front),
            seq![read_call(calls.last(), n)],
        );
        assert(earlier + read_calls(calls) =~= (earlier + read_calls(front)) + seq![
            read_call(calls.last(), n),
        ]);
    }
}

proof fn lemma_choices_start(choices: Seq<JsonView>, blocks: Blocks, earlier: Seq<Call>)
    requires
        forall|i: int|
            0 <= i < choices.len() ==> ((#[trigger] choices[i]).get("delta"@) matches Some(delta)
                ==> delta_fits(delta)),
        opened_by(blocks.tools, earlier),
    ensures
        start_the_calls(choices_events(choices, blocks), earlier, calls_in_choices(choices)),
        opened_by(blocks_after(choices, blocks).tools, earlier + calls_in_choices(choices)),
    decreases choices.len(),
{
    if choices.len() == 0 {
        lemma_nothing_starts(Seq::empty(), earlier);
        assert(earlier + calls_in_choices(choices) =~= earlier);
    } else {
        let front = choices.drop_last();
        assert(forall|i: int| 0 <= i < front.len() ==> front[i] == choices[i]);
        lemma_choices_start(front, blocks, earlier);
        let some = earlier + calls_in_choices(front);
        let own = calls_in_choice(choices.last());
        assert(earlier + calls_in_choices(choices) =~= some + own);
        match choices.last().get("delta"@) {
            Some(delta) => {
                assert(choices[choices.len() - 1].get("delta"@) == Some(delta));
                let between = blocks_after(front, blocks);
                let calls = delta_calls(delta);
                assert(own =~= read_calls(calls));
                lemma_calls_start(calls, between.tools, some);
                let events = delta_events(delta, between);
                let spoken = events.take(events.len() - calls_events(calls, between.tools).len());
                assert(events =~= spoken + calls_events(calls, between.tools));
                lemma_nothing_starts(spoken, some);
                assert(some + Seq::<Call>::empty() =~= some);
                lemma_start_the_calls_add(
                    spoken,
                    calls_events(calls, between.tools),
                    some,
                    Seq::empty(),
                    own,
                );
                assert(Seq::<Call>::empty() + own =~= own);
                lemma_start_the_calls_add(
                    choices_events(front, blocks),
                    events,
                    earlier,
                    calls_in_choices(front),
                    own,
                );
            },
            None => {
                assert(own =~= Seq::empty());
                assert(calls_in_choices(choices) =~= calls_in_choices(front));
            },
        }
    }
}

/// Over any stream, the block of a tool is started with the id and the name of the
/// first tool call for that block: each such call starts its block, and nothing else
/// starts a block for a tool.
pub proof fn tool_blocks_name_their_tools(chunks: Seq<JsonView>)
    requires
        forall|i: int| 0 <= i < chunks.len() ==> chunk_fits(#[trigger] chunks[i]),
    ensures
        forall|k: int|
            0 <= k < calls_in_stream(chunks).len() && #[trigger] is_first(
                calls_in_stream(chunks),
                k,
            ) ==> starts_call(stream_events(chunks), calls_in_stream(chunks)[k]),
        forall|i: int|
            0 <= i < stream_events(chunks).len() ==> is_started_by(
                #[trigger] stream_events(chunks)[i],
                calls_in_stream(chunks),
            ),
        opened_by(stream_blocks(chunks).tools, calls_in_stream(chunks)),
{
    lemma_stream_starts(chunks);
    assert(Seq::<Call>::empty() + calls_in_stream(chunks) =~= calls_in_stream(chunks));
}

proof fn lemma_stream_starts(chunks: Seq<JsonView>)
    requires
        forall|i: int| 0 <= i < chunks.len() ==> chunk_fits(#[trigger] chunks[i]),
    ensures
        start_the_calls(stream_events(chunks), Seq::empty(), calls_in_stream(chunks)),
        opened_by(stream_blocks(chunks).tools, calls_in_stream(chunks)),
    decreases chunks.len(),
{
    let none = Seq::<Call>::empty();
    if chunks.len() == 0 {
        lemma_nothing_starts(Seq::empty(), none);
    } else {
        let front = chunks.drop_last();
        assert(forall|i: int| 0 <= i < front.len() ==> front[i] == chunks[i]);
        lemma_stream_starts(front);
        assert(chunk_fits(chunks[chunks.len() - 1]));
        let earlier = calls_in_stream(front);
        let between = stream_blocks(front);
        let choices = chunk_choices(chunks.last());
        let own = calls_in_choices(choices);
        assert(choices =~= items_under(chunks.last(), "choices"@));
        lemma_choices_start(choices, between, earlier);
        let events = chunk_events(chunks.last(), between);
        match finish_reason(choices) {
            Some(reason) => {
                let after = blocks_after(choices, between);
                let closing = closing_events(reason, after);
                let stops = ascending(after);
                assert forall|i: int| 0 <= i < closing.len() implies tool_started(
                    #[trigger] closing[i],
                ) is None by {
                    if i < stops.len() {
                        assert(closing[i] == StreamEventView::BlockStop { index: stops[i] as int });
                    }
                }
                lemma_nothing_starts(closing, earlier + own);
                lemma_start_the_calls_add(
                    choices_events(choices, between),
                    closing,
                    earlier,
                    own,
                    Seq::empty(),
                );
                assert(own + Seq::<Call>::empty() =~= own);
            },
            None => {},
        }
        assert(none + earlier =~= earlier);
        lemma_start_the_calls_add(stream_events(front), events, none, earlier, own);
    }
}

/// The text that an event adds.
pub open spec fn text_added(event: StreamEventView) -> Option<Seq<char>> {
    match event {
        StreamEventView::TextDelta { text } => Some(text),
        _ => None,
    }
}

/// The part of the input of a tool that an event adds, and to which block.
pub open spec fn json_added(event: StreamEventView) -> Option<(int, Seq<char>)> {
    match event {
        StreamEventView::ToolDelta { index, json } => Some((index, json)),
        _ => None,
    }
}

/// The text that a choice adds, where it is not empty.
pub open spec fn text_in_choice(choice: JsonView) -> Option<Seq<char>> {
    let text = text_under(under(choice, "delta"@), "content"@);
    if text.len() > 0 {
        Some(text)
    } else {
        None
    }
}

/// The texts that a stream adds, one chunk after the other.
pub open spec fn texts_in_stream(chunks: Seq<JsonView>) -> Seq<Seq<char>>
    decreases chunks.len(),
{
    if chunks.len() == 0 {
        Seq::empty()
    } else {
        texts_in_stream(chunks.drop_last()) + items_under(chunks.last(), "choices"@).filter_map(
            |choice: JsonView| text_in_choice(choice),
        )
    }
}

/// What a tool call adds to the input of its tool, where that is not empty.
pub open spec fn json_in_call(call: Call) -> Option<(int, Seq<char>)> {
    if call.arguments.len() > 0 {
        Some((call.index, call.arguments))
    } else {
        None
    }
}

/// The reason to stop of a chunk: that of its last choice which gives one.
pub open spec fn reason_in_chunk(chunk: JsonView) -> Option<Seq<char>> {
    let reasons = items_under(chunk, "choices"@).filter_map(
        |choice: JsonView| text_if_any(choice, "finish_reason"@),
    );
    if reasons.len() == 0 {
        None
    } else if reasons.last() == "length"@ {
        Some("max_tokens"@)
    } else if reasons.last() == "tool_calls"@ {
        Some("tool_use"@)
    } else {
        Some("end_turn"@)
    }
}

proof fn lemma_filter_map_add<A, B>(a: Seq<A>, b: Seq<A>, f: spec_fn(A) -> Option<B>)
    ensures
        (a + b).filter_map(f) == a.filter_map(f) + b.filter_map(f),
    decreases b.len(),
{
    if b.len() == 0 {
        assert(a + b =~= a);
        assert(a.filter_map(f) + b.filter_map(f) =~= a.filter_map(f));
    } else {
        lemma_filter_map_add(a, b.drop_last(), f);
        assert((a + b).drop_last() =~= a + b.drop_last());
        assert((a + b).filter_map(f) =~= a.filter_map(f) + b.filter_map(f));
    }
}

proof fn lemma_filter_map_none<A, B>(a: Seq<A>, f: spec_fn(A) -> Option<B>)
    requires
        forall|i: int| 0 <= i < a.len() ==> f(#[trigger] a[i]) is None,
    ensures
        a.filter_map(f) == Seq::<B>::empty(),
    decreases a.len(),
{
    if a.len() > 0 {
        let front = a.drop_last();
        assert(forall|i: int| 0 <= i < front.len() ==> front[i] == a[i]);
        assert(f(a[a.len() - 1]) is None);
        lemma_filter_map_none(front, f);
    }
}

proof fn lemma_deltas_of_calls(calls: Seq<JsonView>, tools: Set<usize>)
    ensures
        calls_events(calls, tools).filter_map(|e: StreamEventView| text_added(e)) == Seq::<
            Seq<char>,
        >::empty(),
        calls_events(calls, tools).filter_map(|e: StreamEventView| json_added(e)) == read_calls(
            calls,
        ).filter_map(|c: Call| json_in_call(c)),
    decreases calls.len(),
{
    let texts = |e: StreamEventView| text_added(e);
    let jsons = |e: StreamEventView| json_added(e);
    let wanted = |c: Call| json_in_call(c);
    if calls.len() == 0 {
        assert(read_calls(calls) =~= Seq::empty());
    } else {
        let front = calls.drop_last();
        let n = calls.len() - 1;
        let own = call_events(calls.last(), n, tools_after(front, tools));
        lemma_deltas_of_calls(front, tools);
        lemma_read_call(calls.last(), n);
        assert(read_calls(calls).drop_last() =~= read_calls(front));
        lemma_filter_map_add(calls_events(front, tools), own, texts);
        lemma_filter_map_add(calls_events(front, tools), own, jsons);
        lemma_filter_map_none(own, texts);
        let json = function_text(calls.last(), "arguments"@, ""@);
        if json.len() > 0 {
            lemma_filter_map_none(own.drop_last(), jsons);
        } else {
            lemma_filter_map_none(own, jsons);
        }
        assert(calls_events(calls, tools).filter_map(jsons) =~= read_calls(calls).filter_map(
            wanted,
        ));
    }
}

proof fn lemma_deltas_of_choices(choices: Seq<JsonView>, blocks: Blocks)
    ensures
        choices_events(choices, blocks).filter_map(|e: StreamEventView| text_added(e))
            == choices.filter_map(|choice: JsonView| text_in_choice(choice)),
        choices_events(choices, blocks).filter_map(|e: StreamEventView| json_added(e))
            == calls_in_choices(choices).filter_map(|c: Call| json_in_call(c)),
    decreases choices.len(),
{
    let texts = |e: StreamEventView| text_added(e);
    let jsons = |e: StreamEventView| json_added(e);
    let wanted = |c: Call| json_in_call(c);
    if choices.len() > 0 {
        let front = choices.drop_last();
        lemma_deltas_of_choices(front, blocks);
        let own = calls_in_choice(choices.last());
        lemma_filter_map_add(calls_in_choices(front), own, wanted);
        match choices.last().get("delta"@) {
            Some(delta) => {
                let between = blocks_after(front, blocks);
                let calls = delta_calls(delta);
                let events = delta_events(delta, between);
                let later = calls_events(calls, between.tools);
                let spoken = events.take(events.len() - later.len());
                assert(own =~= read_calls(calls));
                lemma_deltas_of_calls(calls, between.tools);
                assert(events =~= spoken + later);
                lemma_filter_map_add(choices_events(front, blocks), events, texts);
                lemma_filter_map_add(choices_events(front, blocks), events, jsons);
                lemma_filter_map_add(spoken, later, texts);
                lemma_filter_map_add(spoken, later, jsons);
                lemma_filter_map_none(spoken, jsons);
                if delta_text(delta) is Some {
                    lemma_filter_map_none(spoken.drop_last(), texts);
                    assert(spoken.filter_map(texts) =~= seq![delta_text(delta)->0]);
                } else {
                    assert(spoken =~= Seq::empty());
                }
            },
            None => {
                assert(own =~= Seq::empty());
            },
        }
        assert(choices_events(choices, blocks).filter_map(texts) =~= choices.filter_map(
            |choice: JsonView| text_in_choice(choice),
        ));
        assert(choices_events(choices, blocks).filter_map(jsons) =~= calls_in_choices(
            choices,
        ).filter_map(wanted));
    }
}

/// Over any stream, each text that is not empty goes out as it came, and so does each
/// part of the arguments of a tool call, to the block of that call; nothing else is
/// added to a block.
pub proof fn deltas_go_out_as_they_came(chunks: Seq<JsonView>)
    ensures
        stream_events(chunks).filter_map(|e: StreamEventView| text_added(e)) == texts_in_stream(
            chunks,
        ),
        stream_events(chunks).filter_map(|e: StreamEventView| json_added(e)) == calls_in_stream(
            chunks,
        ).filter_map(|c: Call| json_in_call(c)),
    decreases chunks.len(),
{
    let texts = |e: StreamEventView| text_added(e);
    let jsons = |e: StreamEventView| json_added(e);
    if chunks.len() > 0 {
        let front = chunks.drop_last();
        deltas_go_out_as_they_came(front);
        let blocks = stream_blocks(front);
        let choices = chunk_choices(chunks.last());
        let events = chunk_events(chunks.last(), blocks);
        assert(choices =~= items_under(chunks.last(), "choices"@));
        lemma_deltas_of_choices(choices, blocks);
        lemma_closing_adds_nothing(chunks.last(), blocks);
        lemma_filter_map_add(stream_events(front), events, texts);
        lemma_filter_map_add(stream_events(front), events, jsons);
        lemma_filter_map_add(
            calls_in_stream(front),
            calls_in_choices(choices),
            |c: Call| json_in_call(c),
        );
    }
}

proof fn lemma_closing_adds_nothing(chunk: JsonView, blocks: Blocks)
    ensures
        chunk_events(chunk, blocks).filter_map(|e: StreamEventView| text_added(e))
            == choices_events(chunk_choices(chunk), blocks).filter_map(
            |e: StreamEventView| text_added(e),
        ),
        chunk_events(chunk, blocks).filter_map(|e: StreamEventView| json_added(e))
            == choices_events(chunk_choices(chunk), blocks).filter_map(
            |e: StreamEventView| json_added(e),
        ),
{
    let texts = |e: StreamEventView| text_added(e);
    let jsons = |e: StreamEventView| json_added(e);
    let choices = chunk_choices(chunk);
    let events = choices_events(choices, blocks);
    match finish_reason(choices) {
        Some(reason) => {
            let after = blocks_after(choices, blocks);
            let closing = closing_events(reason, after);
            let stops = ascending(after);
            assert forall|i: int| 0 <= i < closing.len() implies text_added(
                #[trigger] closing[i],
            ) is None && json_added(closing[i]) is None by {
                if i < stops.len() {
                    assert(closing[i] == StreamEventView::BlockStop { index: stops[i] as int });
                }
            }
            lemma_filter_map_none(closing, texts);
            lemma_filter_map_none(closing, jsons);
            lemma_filter_map_add(events, closing, texts);
            lemma_filter_map_add(events, closing, jsons);
            assert(chunk_events(chunk, blocks).filter_map(texts) =~= events.filter_map(texts));
            assert(chunk_events(chunk, blocks).filter_map(jsons) =~= events.filter_map(jsons));
        },
        None => {},
    }
}

/// Whether an event is one of those that end a message.
pub open spec fn is_closing(event: StreamEventView) -> bool {
    event is BlockStop || event is MessageDelta || event is MessageStop
}

proof fn lemma_reason(choices: Seq<JsonView>)
    ensures
        ({
            let reasons = choices.filter_map(
                |choice: JsonView| text_if_any(choice, "finish_reason"@),
            );
            finish_reason(choices) == if reasons.len() > 0 {
                Some(reasons.last())
            } else {
                None
            }
        }),
    decreases choices.len(),
{
    if choices.len() > 0 {
        lemma_reason(choices.drop_last());
    }
}

/// A chunk that gives no reason to stop ends nothing. One that does ends the message:
/// after all else that it says, each block that is open then is stopped, in ascending
/// order, then the reason is given in the words of the Anthropic format, and then the
/// message stops.
pub proof fn a_reason_to_stop_ends_the_message(chunk: JsonView, blocks: Blocks) -> (from: int)
    ensures
        ({
            let events = chunk_events(chunk, blocks);
            let open = blocks_after(items_under(chunk, "choices"@), blocks);
            let n = events.len() as int;
            &&& 0 <= from <= n
            &&& forall|i: int| 0 <= i < from ==> !is_closing(#[trigger] events[i])
            &&& match reason_in_chunk(chunk) {
                Some(reason) => {
                    &&& from <= n - 2
                    &&& events[n - 2] == (StreamEventView::MessageDelta { reason })
                    &&& events[n - 1] == StreamEventView::MessageStop
                    &&& forall|i: int|
                        from <= i < n - 2 ==> (
                        #[trigger] events[i] matches StreamEventView::BlockStop { index } && is_open(
                            open,
                            index,
                        ))
                    &&& forall|i: int, j: int|
                        from <= i < j < n - 2 ==> (#[trigger] events[i])->BlockStop_index < (
                        #[trigger] events[j])->BlockStop_index
                    &&& forall|x: int| #[trigger]
                        is_open(open, x) ==> exists|i: int|
                            from <= i < n - 2 && #[trigger] events[i] == (
                            StreamEventView::BlockStop { index: x })
                },
                None => from == n,
            }
        }),
{
    let choices = chunk_choices(chunk);
    assert(choices =~= items_under(chunk, "choices"@));
    let spoken = choices_events(choices, blocks);
    let events = chunk_events(chunk, blocks);
    let open = blocks_after(choices, blocks);
    let from = spoken.len() as int;
    lemma_reason(choices);
    lemma_choices_close_nothing(choices, blocks);
    match finish_reason(choices) {
        Some(reason) => {
            let n = events.len() as int;
            let stops = ascending(open);
            lemma_ascending(open);
            reveal_strlit("length");
            reveal_strlit("tool_calls");
            assert("length"@.len() != "tool_calls"@.len());
            assert(forall|i: int| 0 <= i < from ==> events[i] == spoken[i]);
            assert forall|i: int| from <= i < n - 2 implies events[i] == (
            StreamEventView::BlockStop { index: stops[i - from] as int }) && is_open(
                open,
                stops[i - from] as int,
            ) by {
                assert(stops.contains(stops[i - from]));
            }
            assert forall|x: int| #[trigger] is_open(open, x) implies exists|i: int|
                from <= i < n - 2 && #[trigger] events[i] == (StreamEventView::BlockStop {
                    index: x,
                }) by {
                assert(stops.contains(x as usize));
                let k = stops.index_of(x as usize);
                assert(events[from + k] == (StreamEventView::BlockStop { index: x }));
            }
        },
        None => {},
    }
    from
}

proof fn lemma_choices_close_nothing(choices: Seq<JsonView>, blocks: Blocks)
    ensures
        forall|i: int|
            0 <= i < choices_events(choices, blocks).len() ==> !is_closing(
                #[trigger] choices_events(choices, blocks)[i],
            ),
    decreases choices.len(),
{
    if choices.len() > 0 {
        let front = choices.drop_last();
        lemma_choices_close_nothing(front, blocks);
        let before = choices_events(front, blocks);
        let events = choices_events(choices, blocks);
        match choices.last().get("delta"@) {
            Some(delta) => {
                let between = blocks_after(front, blocks);
                let own = delta_events(delta, between);
                let calls = calls_events(delta_calls(delta), between.tools);
                lemma_calls_are_calls(delta_calls(delta), between.tools);
                assert forall|i: int| 0 <= i < events.len() implies !is_closing(
                    #[trigger] events[i],
                ) by {
                    if i < before.len() {
                        assert(events[i] == before[i]);
                    } else {
                        let k = i - before.len();
                        assert(events[i] == own[k]);
                        if k >= own.len() - calls.len() {
                            assert(own[k] == calls[k - (own.len() - calls.len())]);
                        }
                    }
                }
            },
            None => {},
        }
    }
}

/// The events of tool calls start blocks for tools, and write to them.
proof fn lemma_calls_are_calls(calls: Seq<JsonView>, tools: Set<usize>)
    ensures
        forall|i: int|
            0 <= i < calls_events(calls, tools).len() ==> ((#[trigger] calls_events(
                calls,
                tools,
            )[i]) is ToolStart || calls_events(calls, tools)[i] is ToolDelta),
    decreases calls.len(),
{
    if calls.len() > 0 {
        let front = calls.drop_last();
        lemma_calls_are_calls(front, tools);
        let before = calls_events(front, tools);
        let events = calls_events(calls, tools);
        let own = call_events(calls.last(), calls.len() - 1, tools_after(front, tools));
        assert forall|i: int| 0 <= i < events.len() implies ((#[trigger] events[i]) is ToolStart
            || events[i] is ToolDelta) by {
            if i < before.len() {
                assert(events[i] == before[i]);
            } else {
                assert(events[i] == own[i - before.len()]);
            }
        }
    }
}

/// What a choice says comes before the tools that it calls.
pub proof fn text_comes_before_tools(choice: JsonView, chunk: JsonView, blocks: Blocks)
    requires
        chunk.get("choices"@) == Some(JsonView::Array(seq![choice])),
    ensures
        forall|i: int, j: int|
            0 <= i < j < chunk_events(chunk, blocks).len() && ((#[trigger] chunk_events(
                chunk,
                blocks,
            )[i]) is ToolStart || chunk_events(chunk, blocks)[i] is ToolDelta) ==> !((
            #[trigger] chunk_events(chunk, blocks)[j]) is TextStart) && !(chunk_events(
                chunk,
                blocks,
            )[j] is TextDelta),
{
    let choices = seq![choice];
    let events = chunk_events(chunk, blocks);
    assert(choices.drop_last() =~= Seq::empty());
    assert(blocks_after(choices.drop_last(), blocks) == blocks);
    let spoken = choices_events(choices, blocks);
    let closing = match finish_reason(choices) {
        Some(reason) => closing_events(reason, blocks_after(choices, blocks)),
        None => Seq::empty(),
    };
    assert(events =~= spoken + closing);
    let stops = ascending(blocks_after(choices, blocks));
    assert forall|i: int| 0 <= i < closing.len() implies is_closing(#[trigger] closing[i]) by {
        if i < stops.len() {
            assert(closing[i] == StreamEventView::BlockStop { index: stops[i] as int });
        }
    }
    match choice.get("delta"@) {
        Some(delta) => {
            assert(choices_events(choices.drop_last(), blocks) =~= Seq::empty());
            assert(spoken =~= delta_events(delta, blocks));
            let calls = calls_events(delta_calls(delta), blocks.tools);
            lemma_calls_are_calls(delta_calls(delta), blocks.tools);
            let m = spoken.len() - calls.len();
            assert forall|i: int| m <= i < spoken.len() implies (#[trigger] spoken[i]) is ToolStart
                || spoken[i] is ToolDelta by {
                assert(spoken[i] == calls[i - m]);
            }
            assert forall|j: int| m <= j < events.len() implies !((
            #[trigger] events[j]) is TextStart) && !(events[j] is TextDelta) by {
                if j < spoken.len() {
                    assert(events[j] == spoken[j]);
                } else {
                    assert(is_closing(closing[j - spoken.len()]));
                }
            }
        },
        None => {
            assert(choices.last() == choice);
            assert(choices_events(choices.drop_last(), blocks) =~= Seq::empty());
            assert(spoken =~= Seq::empty());
            assert forall|j: int| 0 <= j < events.len() implies is_closing(
                #[trigger] events[j],
            ) by {
                assert(events[j] == closing[j]);
            }
        },
    }
}

/// Reveals that the names of members differ.
proof fn lemma_names_differ()
    ensures
        "id"@.len() == 2,
        "type"@.len() == 4 && "type"@[0] == 't' && "type"@[1] == 'y',
        "name"@.len() == 4 && "name"@[0] == 'n',
        "role"@.len() == 4 && "role"@[0] == 'r',
        "text"@.len() == 4 && "text"@[0] == 't' && "text"@[1] == 'e',
        "index"@.len() == 5 && "index"@[1] == 'n' && "index"@[2] == 'd',
        "input"@.len() == 5 && "input"@[1] == 'n' && "input"@[2] == 'p',
        "delta"@.len() == 5 && "delta"@[1] == 'e',
        "usage"@.len() == 5 && "usage"@[1] == 's',
        "model"@.len() == 5 && "model"@[1] == 'o',
        "message"@.len() == 7 && "message"@[0] == 'm',
        "content"@.len() == 7 && "content"@[0] == 'c',
        "stop_reason"@.len() == 11,
        "partial_json"@.len() == 12,
        "input_tokens"@.len() == 12,
        "content_block"@.len() == 13 && "content_block"@[0] == 'c',
        "stop_sequence"@.len() == 13 && "stop_sequence"@[0] == 's',
        "output_tokens"@.len() == 13 && "output_tokens"@[0] == 'o',
{
    reveal_strlit("id");
    reveal_strlit("type");
    reveal_strlit("name");
    reveal_strlit("role");
    reveal_strlit("text");
    reveal_strlit("index");
    reveal_strlit("input");
    reveal_strlit("delta");
    reveal_strlit("usage");
    reveal_strlit("model");
    reveal_strlit("message");
    reveal_strlit("content");
    reveal_strlit("stop_reason");
    reveal_strlit("partial_json");
    reveal_strlit("input_tokens");
    reveal_strlit("content_block");
    reveal_strlit("stop_sequence");
    reveal_strlit("output_tokens");
}

/// Whether a member is that text.
pub open spec fn is_text(value: JsonView, name: Seq<char>, text: Seq<char>) -> bool {
    value.get(name) == Some(JsonView::String(text))
}

/// Whether a member is that integer.
pub open spec fn is_int(value: JsonView, name: Seq<char>, n: int) -> bool {
    value.get(name) == Some(JsonView::Int(n))
}

/// The data of an event say what the event is: of which type, for which block, and
/// what it brings.
pub proof fn events_say_what_they_are(event: StreamEventView)
    ensures
        ({
            let data = event.payload();
            &&& is_text(data, "type"@, event.name())
            &&& match event {
                StreamEventView::TextStart => {
                    let block = under(data, "content_block"@);
                    &&& event.name() == "content_block_start"@
                    &&& is_int(data, "index"@, 0)
                    &&& is_text(block, "type"@, "text"@)
                    &&& is_text(block, "text"@, ""@)
                    &&& has_only(block, seq!["type"@, "text"@])
                    &&& has_only(data, seq!["type"@, "index"@, "content_block"@])
                },
                StreamEventView::TextDelta { text } => {
                    let delta = under(data, "delta"@);
                    &&& event.name() == "content_block_delta"@
                    &&& is_int(data, "index"@, 0)
                    &&& is_text(delta, "type"@, "text_delta"@)
                    &&& is_text(delta, "text"@, text)
                    &&& has_only(delta, seq!["type"@, "text"@])
                    &&& has_only(data, seq!["type"@, "index"@, "delta"@])
                },
                StreamEventView::ToolStart { index, id, name } => {
                    let block = under(data, "content_block"@);
                    &&& event.name() == "content_block_start"@
                    &&& is_int(data, "index"@, index)
                    &&& is_text(block, "type"@, "tool_use"@)
                    &&& is_text(block, "id"@, id)
                    &&& is_text(block, "name"@, name)
                    &&& block.get("input"@) == Some(JsonView::Object(Map::empty()))
                    &&& has_only(block, seq!["type"@, "id"@, "name"@, "input"@])
                    &&& has_only(data, seq!["type"@, "index"@, "content_block"@])
                },
                StreamEventView::ToolDelta { index, json } => {
                    let delta = under(data, "delta"@);
                    &&& event.name() == "content_block_delta"@
                    &&& is_int(data, "index"@, index)
                    &&& is_text(delta, "type"@, "input_json_delta"@)
                    &&& is_text(delta, "partial_json"@, json)
                    &&& has_only(delta, seq!["type"@, "partial_json"@])
                    &&& has_only(data, seq!["type"@, "index"@, "delta"@])
                },
                StreamEventView::BlockStop { index } => {
                    &&& event.name() == "content_block_stop"@
                    &&& is_int(data, "index"@, index)
                    &&& has_only(data, seq!["type"@, "index"@])
                },
                StreamEventView::MessageDelta { reason } => {
                    let delta = under(data, "delta"@);
                    &&& event.name() == "message_delta"@
                    &&& is_text(delta, "stop_reason"@, reason)
                    &&& delta.get("stop_sequence"@) == Some(JsonView::Null)
                    &&& is_int(under(data, "usage"@), "output_tokens"@, 0)
                    &&& has_only(delta, seq!["stop_reason"@, "stop_sequence"@])
                    &&& has_only(under(data, "usage"@), seq!["output_tokens"@])
                    &&& has_only(data, seq!["type"@, "delta"@, "usage"@])
                },
                StreamEventView::MessageStop => {
                    &&& event.name() == "message_stop"@
                    &&& has_only(data, seq!["type"@])
                },
            }
        }),
{
    lemma_names_differ();
    let data = event.payload();
    match event {
        StreamEventView::TextStart => {
            lemma_has_only_two(under(data, "content_block"@), "type"@, "text"@);
            lemma_has_only_three(data, "type"@, "index"@, "content_block"@);
        },
        StreamEventView::TextDelta { text } => {
            lemma_has_only_two(under(data, "delta"@), "type"@, "text"@);
            lemma_has_only_three(data, "type"@, "index"@, "delta"@);
        },
        StreamEventView::ToolStart { index, id, name } => {
            lemma_has_only_four(under(data, "content_block"@), "type"@, "id"@, "name"@, "input"@);
            lemma_has_only_three(data, "type"@, "index"@, "content_block"@);
        },
        StreamEventView::ToolDelta { index, json } => {
            lemma_has_only_two(under(data, "delta"@), "type"@, "partial_json"@);
            lemma_has_only_three(data, "type"@, "index"@, "delta"@);
        },
        StreamEventView::BlockStop { index } => {
            lemma_has_only_two(data, "type"@, "index"@);
        },
        StreamEventView::MessageDelta { reason } => {
            lemma_has_only_two(under(data, "delta"@), "stop_reason"@, "stop_sequence"@);
            lemma_has_only_one(under(data, "usage"@), "output_tokens"@);
            lemma_has_only_three(data, "type"@, "delta"@, "usage"@);
        },
        StreamEventView::MessageStop => {
            lemma_has_only_one(data, "type"@);
        },
    }
}

proof fn lemma_has_only_one(value: JsonView, a: Seq<char>)
    requires
        forall|name: Seq<char>| #[trigger] value.get(name) is Some ==> name == a,
    ensures
        has_only(value, seq![a]),
{
    let names = seq![a];
    assert(names[0] == a);
}

proof fn lemma_has_only_two(value: JsonView, a: Seq<char>, b: Seq<char>)
    requires
        forall|name: Seq<char>| #[trigger] value.get(name) is Some ==> name == a || name == b,
    ensures
        has_only(value, seq![a, b]),
{
    let names = seq![a, b];
    assert(names[0] == a && names[1] == b);
}

proof fn lemma_has_only_three(value: JsonView, a: Seq<char>, b: Seq<char>, c: Seq<char>)
    requires
        forall|name: Seq<char>| #[trigger]
            value.get(name) is Some ==> name == a || name == b || name == c,
    ensures
        has_only(value, seq![a, b, c]),
{
    let names = seq![a, b, c];
    assert(names[0] == a && names[1] == b && names[2] == c);
}

proof fn lemma_has_only_four(
    value: JsonView,
    a: Seq<char>,
    b: Seq<char>,
    c: Seq<char>,
    d: Seq<char>,
)
    requires
        forall|name: Seq<char>| #[trigger]
            value.get(name) is Some ==> name == a || name == b || name == c || name == d,
    ensures
        has_only(value, seq![a, b, c, d]),
{
    let names = seq![a, b, c, d];
    assert(names[0] == a && names[1] == b && names[2] == c && names[3] == d);
}

/// A message starts as the assistant's, with its id and its model, and with nothing
/// said and nothing counted.
pub proof fn a_message_starts_with_nothing_said(id: Seq<char>, model: Seq<char>)
    ensures
        ({
            let data = message_start(id, model);
            let message = under(data, "message"@);
            &&& is_text(data, "type"@, "message_start"@)
            &&& has_only(data, seq!["type"@, "message"@])
            &&& is_text(message, "id"@, id)
            &&& is_text(message, "model"@, model)
            &&& is_text(message, "type"@, "message"@)
            &&& is_text(message, "role"@, "assistant"@)
            &&& message.get("content"@) == Some(JsonView::Array(Seq::empty()))
            &&& message.get("stop_reason"@) == Some(JsonView::Null)
            &&& message.get("stop_sequence"@) == Some(JsonView::Null)
            &&& is_int(under(message, "usage"@), "input_tokens"@, 0)
            &&& is_int(under(message, "usage"@), "output_tokens"@, 0)
            &&& has_only(under(message, "usage"@), seq!["input_tokens"@, "output_tokens"@])
            &&& has_only(
                message,
                seq![
                    "id"@,
                    "type"@,
                    "role"@,
                    "model"@,
                    "content"@,
                    "stop_reason"@,
                    "stop_sequence"@,
                    "usage"@,
                ],
            )
        }),
{
    lemma_names_differ();
    let data = message_start(id, model);
    let message = under(data, "message"@);
    lemma_has_only_two(data, "type"@, "message"@);
    lemma_has_only_two(under(message, "usage"@), "input_tokens"@, "output_tokens"@);
    let names = seq![
        "id"@,
        "type"@,
        "role"@,
        "model"@,
        "content"@,
        "stop_reason"@,
        "stop_sequence"@,
        "usage"@,
    ];
    assert(names[0] == "id"@ && names[1] == "type"@ && names[2] == "role"@);
    assert(names[3] == "model"@ && names[4] == "content"@ && names[5] == "stop_reason"@);
    assert(names[6] == "stop_sequence"@ && names[7] == "usage"@);
}

/// A chunk fits where no tool call in it has a block whose index cannot be held.
pub proof fn chunks_fit_where_their_indexes_do(chunk: JsonView)
    ensures
        chunk_fits(chunk) <==> forall|c: int, i: int|
            0 <= c < items_under(chunk, "choices"@).len() && 0 <= i < calls_in_choice(
                items_under(chunk, "choices"@)[c],
            ).len() ==> (#[trigger] calls_in_choice(items_under(chunk, "choices"@)[c])[i]).index
                <= usize::MAX,
{
    let choices = items_under(chunk, "choices"@);
    assert(chunk_choices(chunk) == choices);
    if chunk_fits(chunk) {
        assert forall|c: int, i: int|
            0 <= c < choices.len() && 0 <= i < calls_in_choice(choices[c]).len() implies (
        #[trigger] calls_in_choice(choices[c])[i]).index <= usize::MAX by {
            lemma_choice_fits(choices[c]);
        }
    } else {
        let c = choose|c: int|
            0 <= c < choices.len() && !((#[trigger] choices[c]).get("delta"@) matches Some(delta)
                ==> delta_fits(delta));
        lemma_choice_fits(choices[c]);
        let i = choose|i: int|
            0 <= i < calls_in_choice(choices[c]).len() && !((#[trigger] calls_in_choice(
                choices[c],
            )[i]).index <= usize::MAX);
        assert(!(calls_in_choice(choices[c])[i].index <= usize::MAX));
    }
}

proof fn lemma_choice_fits(choice: JsonView)
    ensures
        (choice.get("delta"@) matches Some(delta) ==> delta_fits(delta)) <==> forall|i: int|
            0 <= i < calls_in_choice(choice).len() ==> (#[trigger] calls_in_choice(choice)[i]).index
                <= usize::MAX,
{
    let calls = items_under(under(choice, "delta"@), "tool_calls"@);
    match choice.get("delta"@) {
        Some(delta) => {
            assert(delta_calls(delta) == calls);
            if delta_fits(delta) {
                assert forall|i: int| 0 <= i < calls_in_choice(choice).len() implies (
                #[trigger] calls_in_choice(choice)[i]).index <= usize::MAX by {
                    assert(index_fits(calls[i], i));
                }
            } else {
                let i = choose|i: int|
                    0 <= i < calls.len() && !index_fits(#[trigger] calls[i], i);
                assert(calls_in_choice(choice)[i].index > usize::MAX);
            }
        },
        None => {
            assert(calls_in_choice(choice).len() == 0);
        },
    }
}

} // verus!
