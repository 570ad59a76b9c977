//! Requests: from the Anthropic format to the OpenAI format.

use crate::codec::{depth_limit, json_of_text, json_text, reads_back};
use crate::json::{group_json, has_only, items_model, text_under, Json, JsonView};
use crate::text::{join, joined, same_text, texts};
use vstd::prelude::*;

verus! {

broadcast use group_json;

/// A chat message.
pub open spec fn chat_message(role: Seq<char>, content: JsonView) -> JsonView {
    JsonView::object().with("role"@, JsonView::String(role)).with("content"@, content)
}

/// The texts of the blocks that have one.
pub open spec fn block_texts(blocks: Seq<JsonView>) -> Seq<Seq<char>>
    decreases blocks.len(),
{
    if blocks.len() == 0 {
        Seq::empty()
    } else {
        let before = block_texts(blocks.drop_last());
        match blocks.last().str_at("text"@) {
            Some(text) => before.push(text),
            None => before,
        }
    }
}

/// The message that a system prompt becomes: none where the prompt is empty or
/// has no text.
pub open spec fn system_messages(body: JsonView) -> Seq<JsonView> {
    match body.get("system"@) {
        Some(JsonView::String(s)) => if s.len() > 0 {
            seq![chat_message("system"@, JsonView::String(s))]
        } else {
            Seq::empty()
        },
        Some(JsonView::Array(blocks)) => if block_texts(blocks).len() > 0 {
            seq![
                chat_message("system"@, JsonView::String(join(block_texts(blocks), "\n"@))),
            ]
        } else {
            Seq::empty()
        },
        _ => Seq::empty(),
    }
}

/// Whether a content block is of that type.
pub open spec fn is_block(block: JsonView, kind: Seq<char>) -> bool {
    block.str_at("type"@) == Some(kind)
}

/// The texts of the text blocks.
pub open spec fn text_parts(blocks: Seq<JsonView>) -> Seq<Seq<char>>
    decreases blocks.len(),
{
    if blocks.len() == 0 {
        Seq::empty()
    } else {
        let before = text_parts(blocks.drop_last());
        if is_block(blocks.last(), "text"@) {
            match blocks.last().str_at("text"@) {
                Some(text) => before.push(text),
                None => before,
            }
        } else {
            before
        }
    }
}

/// The input of a tool use: null where it has none.
pub open spec fn tool_input(block: JsonView) -> JsonView {
    match block.get("input"@) {
        Some(input) => input,
        None => JsonView::Null,
    }
}

/// The tool call that a tool use becomes, with its arguments as text.
pub open spec fn tool_call(block: JsonView, arguments: Seq<char>) -> JsonView {
    JsonView::object().with("id"@, JsonView::String(block.str_or("id"@, ""@))).with(
        "type"@,
        JsonView::String("function"@),
    ).with(
        "function"@,
        JsonView::object().with("name"@, JsonView::String(block.str_or("name"@, ""@))).with(
            "arguments"@,
            JsonView::String(arguments),
        ),
    )
}

/// The tool calls that the tool uses among the blocks become. The arguments are
/// the input written out.
pub open spec fn tool_calls(blocks: Seq<JsonView>) -> Seq<JsonView>
    decreases blocks.len(),
{
    if blocks.len() == 0 {
        Seq::empty()
    } else {
        let before = tool_calls(blocks.drop_last());
        if is_block(blocks.last(), "tool_use"@) {
            before.push(tool_call(blocks.last(), json_text(tool_input(blocks.last()))))
        } else {
            before
        }
    }
}

/// The content of a tool result as text: a text as it is, anything else written
/// out, nothing where there is none.
pub open spec fn result_text(block: JsonView) -> Seq<char> {
    match block.get("content"@) {
        Some(JsonView::String(s)) => s,
        Some(content) => json_text(content),
        None => Seq::empty(),
    }
}

/// The message that a tool result becomes, with its content as text.
pub open spec fn tool_message(block: JsonView, content: Seq<char>) -> JsonView {
    JsonView::object().with("role"@, JsonView::String("tool"@)).with(
        "tool_call_id"@,
        JsonView::String(block.str_or("tool_use_id"@, ""@)),
    ).with("content"@, JsonView::String(content))
}

/// The messages that the tool results among the blocks become.
pub open spec fn tool_messages(blocks: Seq<JsonView>) -> Seq<JsonView>
    decreases blocks.len(),
{
    if blocks.len() == 0 {
        Seq::empty()
    } else {
        let before = tool_messages(blocks.drop_last());
        if is_block(blocks.last(), "tool_result"@) {
            before.push(tool_message(blocks.last(), result_text(blocks.last())))
        } else {
            before
        }
    }
}

/// The message that carries texts and tool calls: none where there are neither.
pub open spec fn spoken_messages(
    role: Seq<char>,
    parts: Seq<Seq<char>>,
    calls: Seq<JsonView>,
) -> Seq<JsonView> {
    let content = if parts.len() > 0 {
        JsonView::String(join(parts, "\n"@))
    } else {
        JsonView::Null
    };
    if calls.len() > 0 {
        seq![chat_message(role, content).with("tool_calls"@, JsonView::Array(calls))]
    } else if parts.len() > 0 {
        seq![chat_message(role, content)]
    } else {
        Seq::empty()
    }
}

/// The messages that a list of content blocks becomes: texts and tool calls in
/// one, then each tool result in one of its own.
pub open spec fn block_messages(role: Seq<char>, blocks: Seq<JsonView>) -> Seq<JsonView> {
    spoken_messages(role, text_parts(blocks), tool_calls(blocks)) + tool_messages(blocks)
}

/// The messages that one message becomes.
pub open spec fn converted_message(message: JsonView) -> Seq<JsonView> {
    let role = message.str_or("role"@, "user"@);
    match message.get("content"@) {
        Some(JsonView::String(s)) => seq![chat_message(role, JsonView::String(s))],
        Some(JsonView::Array(blocks)) => block_messages(role, blocks),
        _ => seq![chat_message(role, JsonView::Null)],
    }
}

/// The messages that a list of messages becomes.
pub open spec fn converted_messages(messages: Seq<JsonView>) -> Seq<JsonView>
    decreases messages.len(),
{
    if messages.len() == 0 {
        Seq::empty()
    } else {
        converted_messages(messages.drop_last()) + converted_message(messages.last())
    }
}

/// All messages of the OpenAI request.
pub open spec fn openai_messages(body: JsonView) -> Seq<JsonView> {
    system_messages(body) + match body.array_at("messages"@) {
        Some(messages) => converted_messages(messages),
        None => Seq::empty(),
    }
}

/// `out` with the member `from` of the body handed over as `to`, where the body
/// has it.
pub open spec fn carried(
    out: JsonView,
    to: Seq<char>,
    body: JsonView,
    from: Seq<char>,
) -> JsonView {
    match body.get(from) {
        Some(value) => out.with(to, value),
        None => out,
    }
}

/// The function that a tool becomes.
pub open spec fn openai_tool(tool: JsonView) -> JsonView {
    JsonView::object().with("type"@, JsonView::String("function"@)).with(
        "function"@,
        JsonView::object().with("name"@, JsonView::String(tool.str_or("name"@, ""@))).with(
            "description"@,
            JsonView::String(tool.str_or("description"@, ""@)),
        ).with(
            "parameters"@,
            match tool.get("input_schema"@) {
                Some(schema) => schema,
                None => JsonView::Null,
            },
        ),
    )
}

/// The functions that a list of tools becomes.
pub open spec fn openai_tools(tools: Seq<JsonView>) -> Seq<JsonView> {
    Seq::new(tools.len(), |i: int| openai_tool(tools[i]))
}

/// The tool choice: any tool is required, a named one is that function, and
/// anything else is left to the model.
pub open spec fn openai_tool_choice(choice: JsonView) -> JsonView {
    if is_block(choice, "any"@) {
        JsonView::String("required"@)
    } else if is_block(choice, "tool"@) && choice.get("name"@) is Some {
        JsonView::object().with("type"@, JsonView::String("function"@)).with(
            "function"@,
            JsonView::object().with("name"@, choice.get("name"@)->0),
        )
    } else {
        JsonView::String("auto"@)
    }
}

/// `out` with the tools and the tool choice, where the body has tools.
pub open spec fn with_tools(out: JsonView, body: JsonView) -> JsonView {
    match body.array_at("tools"@) {
        Some(tools) => if tools.len() > 0 {
            let named = out.with("tools"@, JsonView::Array(openai_tools(tools)));
            match body.get("tool_choice"@) {
                Some(choice) => named.with("tool_choice"@, openai_tool_choice(choice)),
                None => named,
            }
        } else {
            out
        },
        None => out,
    }
}

/// The OpenAI request that an Anthropic request becomes.
pub open spec fn openai_request(body: JsonView) -> JsonView {
    let o1 = carried(JsonView::object(), "model"@, body, "model"@);
    let o2 = o1.with("messages"@, JsonView::Array(openai_messages(body)));
    let o3 = carried(o2, "max_tokens"@, body, "max_tokens"@);
    let o4 = carried(o3, "temperature"@, body, "temperature"@);
    let o5 = carried(o4, "top_p"@, body, "top_p"@);
    let o6 = carried(o5, "stop"@, body, "stop_sequences"@);
    let o7 = carried(o6, "stream"@, body, "stream"@);
    with_tools(o7, body)
}

/// Whether a content block is of that type.
pub fn is_of_type(block: &Json, kind: &str) -> (r: bool)
    ensures
        r == is_block(block@, kind@),
{
    match block.str_at("type") {
        Some(own) => same_text(own, kind),
        None => false,
    }
}

/// The tool call that a tool use becomes, with its arguments as text.
pub fn tool_call_with(block: &Json, arguments: String) -> (r: Json)
    ensures
        r@ == tool_call(block@, arguments@),
{
    Json::object().with("id", Json::text(block.str_or("id", ""))).with(
        "type",
        Json::text("function"),
    ).with(
        "function",
        Json::object().with("name", Json::text(block.str_or("name", ""))).with(
            "arguments",
            Json::String(arguments),
        ),
    )
}

/// The input of a tool use, written out. What is written spells the input.
pub fn arguments_of(block: &Json) -> (r: String)
    ensures
        r@ == json_text(tool_input(block@)),
        reads_back(tool_input(block@), depth_limit()) ==> json_of_text(r@) == Some(
            tool_input(block@),
        ),
{
    match block.get("input") {
        Some(input) => input.to_text(),
        None => Json::Null.to_text(),
    }
}

/// The message that a tool result becomes, with its content as text.
pub fn tool_message_with(block: &Json, content: String) -> (r: Json)
    ensures
        r@ == tool_message(block@, content@),
{
    Json::object().with("role", Json::text("tool")).with(
        "tool_call_id",
        Json::text(block.str_or("tool_use_id", "")),
    ).with("content", Json::String(content))
}

/// The content of a tool result as text.
fn content_of(block: &Json) -> (r: String)
    ensures
        r@ == result_text(block@),
{
    match block.get("content") {
        Some(Json::String(s)) => s.clone(),
        Some(content) => content.to_text(),
        None => String::new(),
    }
}

/// A chat message.
fn chat(role: &str, content: Json) -> (r: Json)
    ensures
        r@ == chat_message(role@, content@),
{
    Json::object().with("role", Json::text(role)).with("content", content)
}

/// The message that carries texts and tool calls, where there are any.
pub fn spoken(role: &str, parts: &Vec<String>, calls: Vec<Json>) -> (r: Vec<Json>)
    ensures
        items_model(r@) == spoken_messages(role@, texts(parts@), items_model(calls@)),
{
    let mut out: Vec<Json> = Vec::new();
    if calls.len() > 0 || parts.len() > 0 {
        let content: Json = if parts.len() > 0 {
            Json::String(joined(parts, "\n"))
        } else {
            Json::Null
        };
        let mut message: Json = chat(role, content);
        if calls.len() > 0 {
            message.set("tool_calls", Json::Array(calls));
        }
        out.push(message);
    }
    assert(items_model(out@) =~= spoken_messages(role@, texts(parts@), items_model(calls@)));
    out
}

/// Appends the messages that a list of content blocks becomes.
fn push_block_messages(role: &str, blocks: &Vec<Json>, out: &mut Vec<Json>)
    ensures
        items_model(final(out)@) == items_model(old(out)@) + block_messages(
            role@,
            items_model(blocks@),
        ),
{
    let ghost all = items_model(blocks@);
    let mut parts: Vec<String> = Vec::new();
    let mut calls: Vec<Json> = Vec::new();
    let mut results: Vec<Json> = Vec::new();
    let mut i: usize = 0;
    while i < blocks.len()
        invariant
            i <= blocks@.len(),
            all == items_model(blocks@),
            texts(parts@) == text_parts(all.take(i as int)),
            items_model(calls@) == tool_calls(all.take(i as int)),
            items_model(results@) == tool_messages(all.take(i as int)),
        decreases blocks@.len() - i,
    {
        let block: &Json = &blocks[i];
        assert(all.take(i + 1).drop_last() =~= all.take(i as int));
        assert(all.take(i + 1).last() == block@);
        if is_of_type(block, "text") {
            match block.str_at("text") {
                Some(text) => {
                    let ghost before = texts(parts@);
                    parts.push(text.to_owned());
                    assert(texts(parts@) =~= before.push(text@));
                },
                None => {},
            }
        }
        if is_of_type(block, "tool_use") {
            calls.push(tool_call_with(block, arguments_of(block)));
        }
        if is_of_type(block, "tool_result") {
            results.push(tool_message_with(block, content_of(block)));
        }
        i += 1;
    }
    assert(all.take(i as int) =~= all);
    let mut message: Vec<Json> = spoken(role, &parts, calls);
    let ghost start = items_model(out@);
    out.append(&mut message);
    out.append(&mut results);
    assert(items_model(out@) =~= start + block_messages(role@, all));
}

/// Appends the message that a system prompt becomes.
fn push_system_message(body: &Json, out: &mut Vec<Json>)
    ensures
        items_model(final(out)@) == items_model(old(out)@) + system_messages(body@),
{
    let ghost start = items_model(out@);
    match body.get("system") {
        Some(Json::String(s)) => {
            if !s.as_str().is_empty() {
                out.push(chat("system", Json::String(s.clone())));
            }
        },
        Some(Json::Array(blocks)) => {
            let ghost all = items_model(blocks@);
            let mut found: Vec<String> = Vec::new();
            let mut i: usize = 0;
            while i < blocks.len()
                invariant
                    i <= blocks@.len(),
                    all == items_model(blocks@),
                    texts(found@) == block_texts(all.take(i as int)),
                decreases blocks@.len() - i,
            {
                assert(all.take(i + 1).drop_last() =~= all.take(i as int));
                assert(all.take(i + 1).last() == blocks@[i as int]@);
                match blocks[i].str_at("text") {
                    Some(text) => {
                        let ghost before = texts(found@);
                        found.push(text.to_owned());
                        assert(texts(found@) =~= before.push(text@));
                    },
                    None => {},
                }
                i += 1;
            }
            assert(all.take(i as int) =~= all);
            if found.len() > 0 {
                out.push(chat("system", Json::String(joined(&found, "\n"))));
            }
        },
        _ => {},
    }
    assert(items_model(out@) =~= start + system_messages(body@));
}

/// Appends the messages that one message becomes.
fn push_message(message: &Json, out: &mut Vec<Json>)
    ensures
        items_model(final(out)@) == items_model(old(out)@) + converted_message(message@),
{
    let ghost start = items_model(out@);
    let role: &str = message.str_or("role", "user");
    match message.get("content") {
        Some(Json::String(s)) => {
            out.push(chat(role, Json::String(s.clone())));
            assert(items_model(out@) =~= start + converted_message(message@));
        },
        Some(Json::Array(blocks)) => {
            push_block_messages(role, blocks, out);
        },
        _ => {
            out.push(chat(role, Json::Null));
            assert(items_model(out@) =~= start + converted_message(message@));
        },
    }
}

/// All messages of the OpenAI request.
fn messages_of(body: &Json) -> (r: Vec<Json>)
    ensures
        items_model(r@) == openai_messages(body@),
{
    let mut out: Vec<Json> = Vec::new();
    push_system_message(body, &mut out);
    assert(items_model(out@) =~= system_messages(body@));
    match body.array_at("messages") {
        Some(messages) => {
            let ghost all = items_model(messages@);
            let mut i: usize = 0;
            assert(all.take(0) =~= Seq::empty());
            assert(items_model(out@) =~= system_messages(body@) + converted_messages(all.take(0)));
            while i < messages.len()
                invariant
                    i <= messages@.len(),
                    all == items_model(messages@),
                    items_model(out@) == system_messages(body@) + converted_messages(
                        all.take(i as int),
                    ),
                decreases messages@.len() - i,
            {
                assert(all.take(i + 1).drop_last() =~= all.take(i as int));
                assert(all.take(i + 1).last() == messages@[i as int]@);
                push_message(&messages[i], &mut out);
                assert(items_model(out@) =~= system_messages(body@) + converted_messages(
                    all.take(i + 1),
                ));
                i += 1;
            }
            assert(all.take(i as int) =~= all);
        },
        None => {
            assert(items_model(out@) =~= openai_messages(body@));
        },
    }
    out
}

fn tool_of(tool: &Json) -> (r: Json)
    ensures
        r@ == openai_tool(tool@),
{
    let parameters: Json = match tool.get("input_schema") {
        Some(schema) => schema.copy(),
        None => Json::Null,
    };
    Json::object().with("type", Json::text("function")).with(
        "function",
        Json::object().with("name", Json::text(tool.str_or("name", ""))).with(
            "description",
            Json::text(tool.str_or("description", "")),
        ).with("parameters", parameters),
    )
}

fn tools_of(tools: &Vec<Json>) -> (r: Vec<Json>)
    ensures
        items_model(r@) == openai_tools(items_model(tools@)),
{
    let mut out: Vec<Json> = Vec::new();
    let mut i: usize = 0;
    while i < tools.len()
        invariant
            i <= tools@.len(),
            out@.len() == i,
            forall|k: int| 0 <= k < i ==> (#[trigger] out@[k])@ == openai_tool(tools@[k]@),
        decreases tools@.len() - i,
    {
        out.push(tool_of(&tools[i]));
        i += 1;
    }
    assert(items_model(out@) =~= openai_tools(items_model(tools@)));
    out
}

fn tool_choice_of(choice: &Json) -> (r: Json)
    ensures
        r@ == openai_tool_choice(choice@),
{
    if is_of_type(choice, "any") {
        return Json::text("required");
    }
    if is_of_type(choice, "tool") {
        match choice.get("name") {
            Some(name) => {
                return Json::object().with("type", Json::text("function")).with(
                    "function",
                    Json::object().with("name", name.copy()),
                );
            },
            None => {},
        }
    }
    Json::text("auto")
}

/// Hands the member `from` of the body over as `to`, where the body has it.
fn carry(out: &mut Json, to: &str, body: &Json, from: &str)
    requires
        old(out)@ is Object,
    ensures
        final(out)@ == carried(old(out)@, to@, body@, from@),
        final(out)@ is Object,
{
    match body.get(from) {
        Some(value) => {
            out.set(to, value.copy());
        },
        None => {},
    }
}

/// Turns an Anthropic request into the OpenAI request that asks the same.
///
/// The body is left as it was.
pub fn request_to_openai(body: &mut Json) -> (r: Json)
    ensures
        r@ == openai_request(old(body)@),
        *final(body) == *old(body),
{
    let mut openai: Json = Json::object();
    carry(&mut openai, "model", body, "model");
    openai.set("messages", Json::Array(messages_of(body)));
    carry(&mut openai, "max_tokens", body, "max_tokens");
    carry(&mut openai, "temperature", body, "temperature");
    carry(&mut openai, "top_p", body, "top_p");
    carry(&mut openai, "stop", body, "stop_sequences");
    carry(&mut openai, "stream", body, "stream");
    match body.array_at("tools") {
        Some(tools) => {
            if tools.len() > 0 {
                openai.set("tools", Json::Array(tools_of(tools)));
                match body.get("tool_choice") {
                    Some(choice) => {
                        openai.set("tool_choice", tool_choice_of(choice));
                    },
                    None => {},
                }
            }
        },
        None => {},
    }
    openai
}

/// The messages of the OpenAI request that an Anthropic request becomes.
pub open spec fn asked(body: JsonView) -> Seq<JsonView> {
    match openai_request(body).get("messages"@) {
        Some(JsonView::Array(messages)) => messages,
        _ => Seq::empty(),
    }
}

/// Reveals that the names of members differ.
proof fn lemma_names_differ()
    ensures
        "id"@.len() == 2,
        "type"@.len() == 4,
        "role"@.len() == 4,
        "name"@.len() == 4,
        "type"@[0] != "role"@[0] && "type"@[0] != "name"@[0] && "role"@[0] != "name"@[0],
        "stop"@.len() == 4 && "stop"@[0] == 's',
        "type"@[0] == 't' && "role"@[0] == 'r' && "name"@[0] == 'n',
        "model"@.len() == 5 && "model"@[0] == 'm',
        "top_p"@.len() == 5 && "top_p"@[2] == 'p',
        "tools"@.len() == 5 && "tools"@[2] == 'o' && "tools"@[0] == 't' && "top_p"@[0] == 't',
        "stream"@.len() == 6 && "stream"@[1] == 't',
        "system"@.len() == 6 && "system"@[1] == 'y',
        "content"@.len() == 7,
        "messages"@.len() == 8 && "messages"@[0] == 'm',
        "function"@.len() == 8 && "function"@[0] == 'f',
        "arguments"@.len() == 9,
        "max_tokens"@.len() == 10 && "max_tokens"@[0] == 'm',
        "tool_calls"@.len() == 10 && "tool_calls"@[0] == 't',
        "parameters"@.len() == 10 && "parameters"@[0] == 'p',
        "temperature"@.len() == 11 && "temperature"@[1] == 'e',
        "tool_choice"@.len() == 11 && "tool_choice"@[1] == 'o',
        "description"@.len() == 11 && "description"@[0] == 'd',
        "tool_choice"@[0] == 't' && "temperature"@[0] == 't',
        "tool_call_id"@.len() == 12,
        "stop_sequences"@.len() == 14,
{
    reveal_strlit("id");
    reveal_strlit("type");
    reveal_strlit("role");
    reveal_strlit("name");
    reveal_strlit("stop");
    reveal_strlit("model");
    reveal_strlit("top_p");
    reveal_strlit("tools");
    reveal_strlit("stream");
    reveal_strlit("system");
    reveal_strlit("content");
    reveal_strlit("messages");
    reveal_strlit("function");
    reveal_strlit("arguments");
    reveal_strlit("max_tokens");
    reveal_strlit("tool_calls");
    reveal_strlit("parameters");
    reveal_strlit("temperature");
    reveal_strlit("tool_choice");
    reveal_strlit("description");
    reveal_strlit("tool_call_id");
    reveal_strlit("stop_sequences");
}

/// The settings of a request are those that were asked for, under the names that the
/// OpenAI format has for them, and there is nothing that was not asked for.
pub proof fn settings_are_kept(body: JsonView)
    ensures
        ({
            let out = openai_request(body);
            &&& out.get("model"@) == body.get("model"@)
            &&& out.get("max_tokens"@) == body.get("max_tokens"@)
            &&& out.get("temperature"@) == body.get("temperature"@)
            &&& out.get("top_p"@) == body.get("top_p"@)
            &&& out.get("stop"@) == body.get("stop_sequences"@)
            &&& out.get("stream"@) == body.get("stream"@)
            &&& out.get("messages"@) matches Some(JsonView::Array(_))
            &&& has_only(
                out,
                seq![
                    "model"@,
                    "max_tokens"@,
                    "temperature"@,
                    "top_p"@,
                    "stop"@,
                    "stream"@,
                    "messages"@,
                    "tools"@,
                    "tool_choice"@,
                ],
            )
        }),
{
    lemma_names_differ();
    let names = seq![
        "model"@,
        "max_tokens"@,
        "temperature"@,
        "top_p"@,
        "stop"@,
        "stream"@,
        "messages"@,
        "tools"@,
        "tool_choice"@,
    ];
    assert(names[0] == "model"@ && names[1] == "max_tokens"@ && names[2] == "temperature"@);
    assert(names[3] == "top_p"@ && names[4] == "stop"@ && names[5] == "stream"@);
    assert(names[6] == "messages"@ && names[7] == "tools"@ && names[8] == "tool_choice"@);
    assert forall|name: Seq<char>| #[trigger]
        openai_request(body).get(name) is Some implies names.contains(name) by {
        if !names.contains(name) {
            assert(name != names[0] && name != names[1] && name != names[2] && name != names[3]
                && name != names[4] && name != names[5] && name != names[6] && name != names[7]
                && name != names[8]);
        }
    }
}

/// Whether a function of the OpenAI format offers what a tool of the Anthropic format
/// does.
pub open spec fn offers(function: JsonView, tool: JsonView) -> bool {
    &&& function.get("type"@) == Some(JsonView::String("function"@))
    &&& has_only(function, seq!["type"@, "function"@])
    &&& function.get("function"@) matches Some(inner) && {
        &&& inner.get("name"@) == Some(JsonView::String(text_under(tool, "name"@)))
        &&& inner.get("description"@) == Some(JsonView::String(text_under(tool, "description"@)))
        &&& inner.get("parameters"@) == Some(
            match tool.get("input_schema"@) {
                Some(schema) => schema,
                None => JsonView::Null,
            },
        )
        &&& has_only(inner, seq!["name"@, "description"@, "parameters"@])
    }
}

proof fn lemma_offers(tool: JsonView)
    ensures
        offers(openai_tool(tool), tool),
{
    lemma_names_differ();
    reveal_strlit("");
    assert(""@ =~= Seq::<char>::empty());
    let function = openai_tool(tool);
    let inner = function.get("function"@)->0;
    let outer_names = seq!["type"@, "function"@];
    let inner_names = seq!["name"@, "description"@, "parameters"@];
    assert(outer_names[0] == "type"@ && outer_names[1] == "function"@);
    assert(inner_names[0] == "name"@ && inner_names[1] == "description"@ && inner_names[2]
        == "parameters"@);
    assert(has_only(function, outer_names));
    assert(has_only(inner, inner_names));
}

/// The tools of a request are offered, all of them and in their order, and none where
/// there is none.
pub proof fn tools_are_offered(body: JsonView)
    ensures
        match body.get("tools"@) {
            Some(JsonView::Array(tools)) => if tools.len() > 0 {
                openai_request(body).get("tools"@) matches Some(JsonView::Array(functions))
                    && functions.len() == tools.len() && forall|i: int|
                    0 <= i < tools.len() ==> offers(#[trigger] functions[i], tools[i])
            } else {
                openai_request(body).get("tools"@) is None
            },
            _ => openai_request(body).get("tools"@) is None,
        },
{
    lemma_names_differ();
    match body.get("tools"@) {
        Some(JsonView::Array(tools)) => {
            if tools.len() > 0 {
                assert forall|i: int| 0 <= i < tools.len() implies offers(
                    #[trigger] openai_tools(tools)[i],
                    tools[i],
                ) by {
                    lemma_offers(tools[i]);
                }
            }
        },
        _ => {},
    }
}

/// The tool choice of a request: any tool is required where any was asked for, the
/// function of a name where a tool of that name was, and else the model is free.
/// Without tools, or where none is asked for, there is no choice.
pub proof fn the_tool_choice_is_kept(body: JsonView)
    ensures
        ({
            let out = openai_request(body).get("tool_choice"@);
            let has_tools = body.get("tools"@) matches Some(JsonView::Array(tools)) && tools.len()
                > 0;
            match body.get("tool_choice"@) {
                Some(choice) => if has_tools {
                    let kind = choice.get("type"@);
                    &&& out is Some
                    &&& out == Some(JsonView::String("required"@)) <==> kind == Some(
                        JsonView::String("any"@),
                    )
                    &&& out == Some(JsonView::String("auto"@)) <==> kind != Some(
                        JsonView::String("any"@),
                    ) && !(kind == Some(JsonView::String("tool"@)) && choice.get("name"@) is Some)
                    &&& kind == Some(JsonView::String("tool"@)) ==> (choice.get(
                        "name"@,
                    ) matches Some(name) ==> (out->0.get("type"@) == Some(
                        JsonView::String("function"@),
                    ) && has_only(out->0, seq!["type"@, "function"@]) && (out->0.get(
                        "function"@,
                    ) matches Some(function) && function.get("name"@) == Some(name) && has_only(
                        function,
                        seq!["name"@],
                    ))))
                } else {
                    out is None
                },
                None => out is None,
            }
        }),
{
    lemma_names_differ();
    reveal_strlit("any");
    reveal_strlit("tool");
    reveal_strlit("auto");
    reveal_strlit("required");
    assert("any"@.len() == 3 && "tool"@.len() == 4 && "auto"@.len() == 4 && "required"@.len() == 8);
    match body.get("tool_choice"@) {
        Some(choice) => {
            let out = openai_tool_choice(choice);
            if is_block(choice, "tool"@) && !is_block(choice, "any"@) && choice.get(
                "name"@,
            ) is Some {
                let outer_names = seq!["type"@, "function"@];
                assert(outer_names[0] == "type"@ && outer_names[1] == "function"@);
                assert(has_only(out, outer_names));
                let inner_names = seq!["name"@];
                assert(inner_names[0] == "name"@);
                assert(has_only(out.get("function"@)->0, inner_names));
            }
        },
        None => {},
    }
}

/// The messages depend on the system prompt and the turns alone.
pub proof fn messages_come_from_the_prompt_and_the_turns(body: JsonView, other: JsonView)
    requires
        body.get("system"@) == other.get("system"@),
        body.get("messages"@) == other.get("messages"@),
    ensures
        asked(body) == asked(other),
{
    lemma_asked(body);
    lemma_asked(other);
}

proof fn lemma_asked(body: JsonView)
    ensures
        asked(body) == openai_messages(body),
{
    lemma_names_differ();
}

/// The turns of a request are converted one by one, in their order, after the system
/// prompt.
pub proof fn turns_are_converted_one_by_one(
    body: JsonView,
    first: Seq<JsonView>,
    second: Seq<JsonView>,
)
    requires
        body is Object,
    ensures
        asked(body.with("messages"@, JsonView::Array(first + second))) == asked(
            body.with("messages"@, JsonView::Array(first)),
        ) + asked(JsonView::object().with("messages"@, JsonView::Array(second))),
{
    lemma_names_differ();
    lemma_converted_add(first, second);
    let bare = JsonView::object().with("messages"@, JsonView::Array(second));
    assert(system_messages(bare) =~= Seq::empty());
    assert(asked(bare) =~= converted_messages(second));
    assert(asked(body.with("messages"@, JsonView::Array(first + second))) =~= asked(
        body.with("messages"@, JsonView::Array(first)),
    ) + converted_messages(second));
}

proof fn lemma_converted_add(first: Seq<JsonView>, second: Seq<JsonView>)
    ensures
        converted_messages(first + second) == converted_messages(first) + converted_messages(
            second,
        ),
    decreases second.len(),
{
    if second.len() == 0 {
        assert(first + second =~= first);
        assert(converted_messages(first) + converted_messages(second) =~= converted_messages(
            first,
        ));
    } else {
        lemma_converted_add(first, second.drop_last());
        assert((first + second).drop_last() =~= first + second.drop_last());
        assert(converted_messages(first + second) =~= converted_messages(first)
            + converted_messages(second));
    }
}

/// The text under that name, where it is one.
pub open spec fn text_if_any(value: JsonView, name: Seq<char>) -> Option<Seq<char>> {
    match value.get(name) {
        Some(JsonView::String(s)) => Some(s),
        _ => None,
    }
}

/// Whether a message is this and nothing more.
pub open spec fn says(message: JsonView, role: Seq<char>, content: JsonView) -> bool {
    &&& message.get("role"@) == Some(JsonView::String(role))
    &&& message.get("content"@) == Some(content)
    &&& has_only(message, seq!["role"@, "content"@])
}

proof fn lemma_says(role: Seq<char>, content: JsonView)
    ensures
        says(chat_message(role, content), role, content),
{
    lemma_names_differ();
    let names = seq!["role"@, "content"@];
    assert(names[0] == "role"@ && names[1] == "content"@);
    assert(has_only(chat_message(role, content), names));
}

/// The system prompt is the first message, as it is or with its texts put together
/// by line ends; there is none where it is empty or says nothing. Before the turns
/// nothing else is said.
pub proof fn the_system_prompt_comes_first(body: JsonView)
    requires
        body.get("messages"@) matches Some(JsonView::Array(turns)) ==> turns.len() == 0,
    ensures
        match body.get("system"@) {
            Some(JsonView::String(s)) => {
                &&& asked(body).len() == if s.len() > 0 {
                    1int
                } else {
                    0int
                }
                &&& s.len() > 0 ==> says(asked(body)[0], "system"@, JsonView::String(s))
            },
            Some(JsonView::Array(blocks)) => {
                let texts = blocks.filter_map(|block: JsonView| text_if_any(block, "text"@));
                &&& asked(body).len() == if texts.len() > 0 {
                    1int
                } else {
                    0int
                }
                &&& texts.len() > 0 ==> says(
                    asked(body)[0],
                    "system"@,
                    JsonView::String(join(texts, "\n"@)),
                )
            },
            _ => asked(body).len() == 0,
        },
{
    lemma_names_differ();
    match body.get("system"@) {
        Some(JsonView::String(s)) => {
            lemma_says("system"@, JsonView::String(s));
        },
        Some(JsonView::Array(blocks)) => {
            lemma_block_texts(blocks);
            lemma_says("system"@, JsonView::String(join(block_texts(blocks), "\n"@)));
        },
        _ => {},
    }
    assert(asked(body) =~= system_messages(body));
}

proof fn lemma_block_texts(blocks: Seq<JsonView>)
    ensures
        block_texts(blocks) == blocks.filter_map(
            |block: JsonView| text_if_any(block, "text"@),
        ),
    decreases blocks.len(),
{
    if blocks.len() > 0 {
        lemma_block_texts(blocks.drop_last());
        assert(block_texts(blocks) =~= blocks.filter_map(
            |block: JsonView| text_if_any(block, "text"@),
        ));
    }
}

/// The text of a text block.
pub open spec fn spoken_text(block: JsonView) -> Option<Seq<char>> {
    if block.get("type"@) == Some(JsonView::String("text"@)) {
        text_if_any(block, "text"@)
    } else {
        None
    }
}

/// The block, where it is of that type.
pub open spec fn block_if(block: JsonView, kind: Seq<char>) -> Option<JsonView> {
    if block.get("type"@) == Some(JsonView::String(kind)) {
        Some(block)
    } else {
        None
    }
}

/// Whether a tool call calls what a tool use does, with the input written out.
pub open spec fn calls(call: JsonView, block: JsonView) -> bool {
    &&& call.get("id"@) == Some(JsonView::String(text_under(block, "id"@)))
    &&& call.get("type"@) == Some(JsonView::String("function"@))
    &&& has_only(call, seq!["id"@, "type"@, "function"@])
    &&& call.get("function"@) matches Some(function) && {
        &&& function.get("name"@) == Some(JsonView::String(text_under(block, "name"@)))
        &&& function.get("arguments"@) == Some(
            JsonView::String(
                json_text(
                    match block.get("input"@) {
                        Some(input) => input,
                        None => JsonView::Null,
                    },
                ),
            ),
        )
        &&& has_only(function, seq!["name"@, "arguments"@])
    }
}

/// Whether a message reports what a tool result does: a text as it is, anything else
/// written out.
pub open spec fn reports(message: JsonView, block: JsonView) -> bool {
    &&& message.get("role"@) == Some(JsonView::String("tool"@))
    &&& message.get("tool_call_id"@) == Some(JsonView::String(text_under(block, "tool_use_id"@)))
    &&& message.get("content"@) == Some(
        JsonView::String(
            match block.get("content"@) {
                Some(JsonView::String(s)) => s,
                Some(content) => json_text(content),
                None => Seq::empty(),
            },
        ),
    )
    &&& has_only(message, seq!["role"@, "tool_call_id"@, "content"@])
}

/// Whether the messages say what a list of content blocks does, in that role: the
/// texts put together by line ends and the tool uses in one, if there are any, then
/// the tool results in one each, all in their order.
pub open spec fn say_the_blocks(
    messages: Seq<JsonView>,
    role: Seq<char>,
    blocks: Seq<JsonView>,
) -> bool {
    let texts = blocks.filter_map(|block: JsonView| spoken_text(block));
    let uses = blocks.filter_map(|block: JsonView| block_if(block, "tool_use"@));
    let results = blocks.filter_map(|block: JsonView| block_if(block, "tool_result"@));
    let spoken = if texts.len() > 0 || uses.len() > 0 {
        1int
    } else {
        0int
    };
    &&& messages.len() == spoken + results.len()
    &&& spoken == 1 ==> {
        let message = messages[0];
        &&& message.get("role"@) == Some(JsonView::String(role))
        &&& message.get("content"@) == Some(
            if texts.len() > 0 {
                JsonView::String(join(texts, "\n"@))
            } else {
                JsonView::Null
            },
        )
        &&& has_only(message, seq!["role"@, "content"@, "tool_calls"@])
        &&& message.get("tool_calls"@) is Some <==> uses.len() > 0
        &&& uses.len() > 0 ==> (message.get("tool_calls"@) matches Some(JsonView::Array(list))
            && list.len() == uses.len() && forall|i: int|
            0 <= i < uses.len() ==> calls(#[trigger] list[i], uses[i]))
    }
    &&& forall|i: int|
        0 <= i < results.len() ==> reports(messages[spoken + i], #[trigger] results[i])
}

/// A turn keeps its role, the user's where it has none, and what it says: a text as
/// it is, a list of blocks as `say_the_blocks` has it, and anything else as nothing.
pub proof fn a_turn_is_converted(turn: JsonView)
    ensures
        ({
            let messages = asked(
                JsonView::object().with("messages"@, JsonView::Array(seq![turn])),
            );
            let role = match turn.get("role"@) {
                Some(JsonView::String(role)) => role,
                _ => "user"@,
            };
            match turn.get("content"@) {
                Some(JsonView::String(s)) => messages.len() == 1 && says(
                    messages[0],
                    role,
                    JsonView::String(s),
                ),
                Some(JsonView::Array(blocks)) => say_the_blocks(messages, role, blocks),
                _ => messages.len() == 1 && says(messages[0], role, JsonView::Null),
            }
        }),
{
    lemma_names_differ();
    let body = JsonView::object().with("messages"@, JsonView::Array(seq![turn]));
    let role = turn.str_or("role"@, "user"@);
    assert(seq![turn].drop_last() =~= Seq::empty());
    assert(converted_messages(seq![turn].drop_last()) =~= Seq::empty());
    assert(asked(body) =~= converted_message(turn));
    match turn.get("content"@) {
        Some(JsonView::String(s)) => {
            lemma_says(role, JsonView::String(s));
        },
        Some(JsonView::Array(blocks)) => {
            lemma_say_the_blocks(role, blocks);
        },
        _ => {
            lemma_says(role, JsonView::Null);
        },
    }
}

proof fn lemma_say_the_blocks(role: Seq<char>, blocks: Seq<JsonView>)
    ensures
        say_the_blocks(block_messages(role, blocks), role, blocks),
{
    lemma_names_differ();
    lemma_parts(blocks);
    let texts = blocks.filter_map(|block: JsonView| spoken_text(block));
    let uses = blocks.filter_map(|block: JsonView| block_if(block, "tool_use"@));
    let results = blocks.filter_map(|block: JsonView| block_if(block, "tool_result"@));
    let messages = block_messages(role, blocks);
    let list = tool_calls(blocks);
    let first = spoken_messages(role, texts, list);
    assert forall|i: int| 0 <= i < uses.len() implies calls(#[trigger] list[i], uses[i]) by {
        lemma_calls(uses[i]);
    }
    let spoken = if texts.len() > 0 || uses.len() > 0 {
        1int
    } else {
        0int
    };
    assert(first.len() == spoken);
    if spoken == 1 {
        assert(messages[0] == first[0]);
        let names = seq!["role"@, "content"@, "tool_calls"@];
        assert(names[0] == "role"@ && names[1] == "content"@ && names[2] == "tool_calls"@);
        assert(has_only(messages[0], names));
    }
    assert forall|i: int| 0 <= i < results.len() implies reports(
        messages[spoken + i],
        #[trigger] results[i],
    ) by {
        lemma_reports(results[i]);
        assert(messages[spoken + i] == tool_messages(blocks)[i]);
    }
}

proof fn lemma_calls(block: JsonView)
    ensures
        calls(tool_call(block, json_text(tool_input(block))), block),
{
    lemma_names_differ();
    reveal_strlit("");
    assert(""@ =~= Seq::<char>::empty());
    let call = tool_call(block, json_text(tool_input(block)));
    let outer_names = seq!["id"@, "type"@, "function"@];
    assert(outer_names[0] == "id"@ && outer_names[1] == "type"@ && outer_names[2] == "function"@);
    assert(has_only(call, outer_names));
    let inner_names = seq!["name"@, "arguments"@];
    assert(inner_names[0] == "name"@ && inner_names[1] == "arguments"@);
    assert(has_only(call.get("function"@)->0, inner_names));
}

proof fn lemma_reports(block: JsonView)
    ensures
        reports(tool_message(block, result_text(block)), block),
{
    lemma_names_differ();
    reveal_strlit("");
    assert(""@ =~= Seq::<char>::empty());
    let names = seq!["role"@, "tool_call_id"@, "content"@];
    assert(names[0] == "role"@ && names[1] == "tool_call_id"@ && names[2] == "content"@);
    assert(has_only(tool_message(block, result_text(block)), names));
}

proof fn lemma_parts(blocks: Seq<JsonView>)
    ensures
        ({
            let uses = blocks.filter_map(|block: JsonView| block_if(block, "tool_use"@));
            let results = blocks.filter_map(|block: JsonView| block_if(block, "tool_result"@));
            &&& text_parts(blocks) == blocks.filter_map(|block: JsonView| spoken_text(block))
            &&& tool_calls(blocks).len() == uses.len()
            &&& forall|i: int|
                0 <= i < uses.len() ==> #[trigger] tool_calls(blocks)[i] == tool_call(
                    uses[i],
                    json_text(tool_input(uses[i])),
                )
            &&& tool_messages(blocks).len() == results.len()
            &&& forall|i: int|
                0 <= i < results.len() ==> #[trigger] tool_messages(blocks)[i] == tool_message(
                    results[i],
                    result_text(results[i]),
                )
        }),
    decreases blocks.len(),
{
    if blocks.len() > 0 {
        lemma_parts(blocks.drop_last());
        assert(text_parts(blocks) =~= blocks.filter_map(|block: JsonView| spoken_text(block)));
    }
}

} // verus!
