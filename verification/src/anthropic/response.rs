//! Responses: from the OpenAI format to the Anthropic format.

use crate::codec::json_of_text;
use crate::json::{group_json, has_only, items_model, opt_view, text_under, Json, JsonView};
use crate::text::same_text;
use vstd::prelude::*;

verus! {

broadcast use group_json;

/// The first choice of a response.
pub open spec fn first_choice(openai: JsonView) -> Option<JsonView> {
    match openai.array_at("choices"@) {
        Some(choices) => if choices.len() > 0 {
            Some(choices[0])
        } else {
            None
        },
        None => None,
    }
}

/// The text block of a message: none where it has no text or an empty one.
pub open spec fn text_content(message: JsonView) -> Seq<JsonView> {
    match message.str_at("content"@) {
        Some(text) => if text.len() > 0 {
            seq![
                JsonView::object().with("type"@, JsonView::String("text"@)).with(
                    "text"@,
                    JsonView::String(text),
                ),
            ]
        } else {
            Seq::empty()
        },
        None => Seq::empty(),
    }
}

/// The text under that name in the function of a tool call, else the given one.
pub open spec fn function_text(call: JsonView, key: Seq<char>, default: Seq<char>) -> Seq<char> {
    match call.get("function"@) {
        Some(function) => function.str_or(key, default),
        None => default,
    }
}

/// The arguments of a tool call as a value: null where they spell none.
pub open spec fn call_input(call: JsonView) -> JsonView {
    match json_of_text(function_text(call, "arguments"@, "{}"@)) {
        Some(input) => input,
        None => JsonView::Null,
    }
}

/// The tool use that a tool call becomes, with its input.
pub open spec fn tool_use(call: JsonView, input: JsonView) -> JsonView {
    JsonView::object().with("type"@, JsonView::String("tool_use"@)).with(
        "id"@,
        JsonView::String(call.str_or("id"@, ""@)),
    ).with("name"@, JsonView::String(function_text(call, "name"@, ""@))).with("input"@, input)
}

/// The tool uses that the tool calls become.
pub open spec fn tool_uses(calls: Seq<JsonView>) -> Seq<JsonView> {
    Seq::new(calls.len(), |i: int| tool_use(calls[i], call_input(calls[i])))
}

/// The content blocks that a message becomes: its text, then its tool uses.
pub open spec fn message_content(message: JsonView) -> Seq<JsonView> {
    text_content(message) + match message.array_at("tool_calls"@) {
        Some(calls) => tool_uses(calls),
        None => Seq::empty(),
    }
}

/// The content blocks of the answer.
pub open spec fn answer_content(choice: Option<JsonView>) -> Seq<JsonView> {
    match choice {
        Some(choice) => match choice.get("message"@) {
            Some(message) => message_content(message),
            None => Seq::empty(),
        },
        None => Seq::empty(),
    }
}

/// The stop reason that a finish reason becomes.
pub open spec fn stop_reason(reason: Seq<char>) -> Seq<char> {
    if reason == "length"@ {
        "max_tokens"@
    } else if reason == "tool_calls"@ {
        "tool_use"@
    } else {
        "end_turn"@
    }
}

/// Whether a choice lists tool calls, be it none.
pub open spec fn lists_tool_calls(choice: JsonView) -> bool {
    match choice.get("message"@) {
        Some(message) => message.array_at("tool_calls"@) is Some,
        None => false,
    }
}

/// The stop reason of the answer: tool use where tool calls are listed, else
/// what the finish reason says.
pub open spec fn answer_stop_reason(choice: Option<JsonView>) -> Seq<char> {
    match choice {
        Some(choice) => if lists_tool_calls(choice) {
            "tool_use"@
        } else {
            match choice.str_at("finish_reason"@) {
                Some(reason) => stop_reason(reason),
                None => "end_turn"@,
            }
        },
        None => "end_turn"@,
    }
}

/// A token count of the response: zero where it has none.
pub open spec fn token_count(openai: JsonView, key: Seq<char>) -> u64 {
    match openai.get("usage"@) {
        Some(usage) => match usage.u64_at(key) {
            Some(n) => n,
            None => 0,
        },
        None => 0,
    }
}

/// A message in the Anthropic format.
pub open spec fn message_object(
    id: Seq<char>,
    model: Seq<char>,
    content: Seq<JsonView>,
    stop: JsonView,
    input_tokens: int,
    output_tokens: int,
) -> JsonView {
    JsonView::object().with("id"@, JsonView::String(id)).with(
        "type"@,
        JsonView::String("message"@),
    ).with("role"@, JsonView::String("assistant"@)).with("content"@, JsonView::Array(content)).with(
        "model"@,
        JsonView::String(model),
    ).with("stop_reason"@, stop).with("stop_sequence"@, JsonView::Null).with(
        "usage"@,
        JsonView::object().with("input_tokens"@, JsonView::Int(input_tokens)).with(
            "output_tokens"@,
            JsonView::Int(output_tokens),
        ),
    )
}

/// The Anthropic response that an OpenAI response becomes.
pub open spec fn anthropic_response(openai: JsonView) -> JsonView {
    message_object(
        openai.str_or("id"@, ""@),
        openai.str_or("model"@, ""@),
        answer_content(first_choice(openai)),
        JsonView::String(answer_stop_reason(first_choice(openai))),
        token_count(openai, "prompt_tokens"@) as int,
        token_count(openai, "completion_tokens"@) as int,
    )
}

/// The text under that name in the function of a tool call, else the given one.
pub fn function_text_of<'a>(call: &'a Json, key: &str, default: &'a str) -> (r: &'a str)
    ensures
        r@ == function_text(call@, key@, default@),
{
    match call.get("function") {
        Some(function) => function.str_or(key, default),
        None => default,
    }
}

/// The tool use that a tool call becomes, with its input.
pub fn tool_use_with(call: &Json, input: Json) -> (r: Json)
    ensures
        r@ == tool_use(call@, input@),
{
    Json::object().with("type", Json::text("tool_use")).with(
        "id",
        Json::text(call.str_or("id", "")),
    ).with("name", Json::text(function_text_of(call, "name", ""))).with("input", input)
}

fn input_of(call: &Json) -> (r: Json)
    ensures
        r@ == call_input(call@),
{
    match Json::parse(function_text_of(call, "arguments", "{}")) {
        Some(input) => input,
        None => Json::Null,
    }
}

fn tool_uses_of(calls: &Vec<Json>) -> (r: Vec<Json>)
    ensures
        items_model(r@) == tool_uses(items_model(calls@)),
{
    let mut out: Vec<Json> = Vec::new();
    let mut i: usize = 0;
    while i < calls.len()
        invariant
            i <= calls@.len(),
            out@.len() == i,
            forall|k: int|
                0 <= k < i ==> (#[trigger] out@[k])@ == tool_use(
                    calls@[k]@,
                    call_input(calls@[k]@),
                ),
        decreases calls@.len() - i,
    {
        out.push(tool_use_with(&calls[i], input_of(&calls[i])));
        i += 1;
    }
    assert(items_model(out@) =~= tool_uses(items_model(calls@)));
    out
}

fn message_content_of(message: &Json) -> (r: Vec<Json>)
    ensures
        items_model(r@) == message_content(message@),
{
    let mut out: Vec<Json> = Vec::new();
    match message.str_at("content") {
        Some(text) => {
            if !text.is_empty() {
                out.push(
                    Json::object().with("type", Json::text("text")).with("text", Json::text(text)),
                );
            }
        },
        None => {},
    }
    assert(items_model(out@) =~= text_content(message@));
    match message.array_at("tool_calls") {
        Some(calls) => {
            let mut uses: Vec<Json> = tool_uses_of(calls);
            out.append(&mut uses);
        },
        None => {},
    }
    assert(items_model(out@) =~= message_content(message@));
    out
}

/// The stop reason that a finish reason becomes.
pub fn stop_reason_of(reason: &str) -> (r: String)
    ensures
        r@ == stop_reason(reason@),
{
    if same_text(reason, "length") {
        "max_tokens".to_owned()
    } else if same_text(reason, "tool_calls") {
        "tool_use".to_owned()
    } else {
        "end_turn".to_owned()
    }
}

fn choice_of(openai: &Json) -> (r: Option<&Json>)
    ensures
        opt_view(r) == first_choice(openai@),
{
    match openai.array_at("choices") {
        Some(choices) => if choices.len() > 0 {
            Some(&choices[0])
        } else {
            None
        },
        None => None,
    }
}

fn answer_content_of(choice: Option<&Json>) -> (r: Vec<Json>)
    ensures
        items_model(r@) == answer_content(opt_view(choice)),
{
    match choice {
        Some(choice) => match choice.get("message") {
            Some(message) => message_content_of(message),
            None => Vec::new(),
        },
        None => Vec::new(),
    }
}

fn answer_stop_reason_of(choice: Option<&Json>) -> (r: String)
    ensures
        r@ == answer_stop_reason(opt_view(choice)),
{
    match choice {
        Some(choice) => {
            let calls: bool = match choice.get("message") {
                Some(message) => message.array_at("tool_calls").is_some(),
                None => false,
            };
            if calls {
                "tool_use".to_owned()
            } else {
                match choice.str_at("finish_reason") {
                    Some(reason) => stop_reason_of(reason),
                    None => "end_turn".to_owned(),
                }
            }
        },
        None => "end_turn".to_owned(),
    }
}

fn token_count_of(openai: &Json, key: &str) -> (r: u64)
    ensures
        r == token_count(openai@, key@),
{
    match openai.get("usage") {
        Some(usage) => match usage.u64_at(key) {
            Some(n) => n,
            None => 0,
        },
        None => 0,
    }
}

/// A message in the Anthropic format.
pub fn message_object_of(
    id: &str,
    model: &str,
    content: Vec<Json>,
    stop: Json,
    input_tokens: u64,
    output_tokens: u64,
) -> (r: Json)
    ensures
        r@ == message_object(
            id@,
            model@,
            items_model(content@),
            stop@,
            input_tokens as int,
            output_tokens as int,
        ),
{
    Json::object().with("id", Json::text(id)).with("type", Json::text("message")).with(
        "role",
        Json::text("assistant"),
    ).with("content", Json::Array(content)).with("model", Json::text(model)).with(
        "stop_reason",
        stop,
    ).with("stop_sequence", Json::Null).with(
        "usage",
        Json::object().with("input_tokens", Json::Unsigned(input_tokens)).with(
            "output_tokens",
            Json::Unsigned(output_tokens),
        ),
    )
}

/// Turns an OpenAI response into the Anthropic response that answers the same.
pub fn response_to_anthropic(openai: &Json) -> (r: Json)
    ensures
        r@ == anthropic_response(openai@),
{
    let choice: Option<&Json> = choice_of(openai);
    message_object_of(
        openai.str_or("id", ""),
        openai.str_or("model", ""),
        answer_content_of(choice),
        Json::String(answer_stop_reason_of(choice)),
        token_count_of(openai, "prompt_tokens"),
        token_count_of(openai, "completion_tokens"),
    )
}

/// Reveals that the names of members differ.
proof fn lemma_names_differ()
    ensures
        "id"@.len() == 2,
        "type"@.len() == 4 && "type"@[0] == 't' && "type"@[1] == 'y',
        "role"@.len() == 4 && "role"@[0] == 'r',
        "name"@.len() == 4 && "name"@[0] == 'n',
        "text"@.len() == 4 && "text"@[0] == 't' && "text"@[1] == 'e',
        "model"@.len() == 5 && "model"@[0] == 'm',
        "input"@.len() == 5 && "input"@[0] == 'i',
        "usage"@.len() == 5 && "usage"@[0] == 'u',
        "content"@.len() == 7 && "content"@[0] == 'c',
        "stop_reason"@.len() == 11,
        "input_tokens"@.len() == 12,
        "stop_sequence"@.len() == 13,
        "output_tokens"@.len() == 13,
{
    reveal_strlit("id");
    reveal_strlit("type");
    reveal_strlit("role");
    reveal_strlit("name");
    reveal_strlit("text");
    reveal_strlit("model");
    reveal_strlit("input");
    reveal_strlit("usage");
    reveal_strlit("content");
    reveal_strlit("stop_reason");
    reveal_strlit("input_tokens");
    reveal_strlit("stop_sequence");
    reveal_strlit("output_tokens");
}

/// A count of tokens, and zero where there is none.
pub open spec fn count_under(openai: JsonView, name: Seq<char>) -> int {
    match openai.get("usage"@) {
        Some(usage) => match usage.get(name) {
            Some(JsonView::Int(n)) => if 0 <= n <= u64::MAX {
                n
            } else {
                0
            },
            _ => 0,
        },
        None => 0,
    }
}

/// The answer bears the id and the model of the response and its counts of tokens, is
/// a message of the assistant, and has the members of a message and no others.
pub proof fn an_answer_is_a_message(openai: JsonView)
    ensures
        ({
            let out = anthropic_response(openai);
            &&& out.get("id"@) == Some(JsonView::String(text_under(openai, "id"@)))
            &&& out.get("model"@) == Some(JsonView::String(text_under(openai, "model"@)))
            &&& out.get("type"@) == Some(JsonView::String("message"@))
            &&& out.get("role"@) == Some(JsonView::String("assistant"@))
            &&& out.get("content"@) matches Some(JsonView::Array(_))
            &&& out.get("stop_reason"@) matches Some(JsonView::String(_))
            &&& out.get("stop_sequence"@) == Some(JsonView::Null)
            &&& out.get("usage"@) matches Some(usage) && {
                &&& usage.get("input_tokens"@) == Some(
                    JsonView::Int(count_under(openai, "prompt_tokens"@)),
                )
                &&& usage.get("output_tokens"@) == Some(
                    JsonView::Int(count_under(openai, "completion_tokens"@)),
                )
                &&& has_only(usage, seq!["input_tokens"@, "output_tokens"@])
            }
            &&& has_only(
                out,
                seq![
                    "id"@,
                    "model"@,
                    "type"@,
                    "role"@,
                    "content"@,
                    "stop_reason"@,
                    "stop_sequence"@,
                    "usage"@,
                ],
            )
        }),
{
    lemma_names_differ();
    reveal_strlit("");
    assert(""@ =~= Seq::<char>::empty());
    let out = anthropic_response(openai);
    let names = seq![
        "id"@,
        "model"@,
        "type"@,
        "role"@,
        "content"@,
        "stop_reason"@,
        "stop_sequence"@,
        "usage"@,
    ];
    assert(names[0] == "id"@ && names[1] == "model"@ && names[2] == "type"@ && names[3] == "role"@);
    assert(names[4] == "content"@ && names[5] == "stop_reason"@ && names[6] == "stop_sequence"@);
    assert(names[7] == "usage"@);
    assert(has_only(out, names));
    let counts = seq!["input_tokens"@, "output_tokens"@];
    assert(counts[0] == "input_tokens"@ && counts[1] == "output_tokens"@);
    assert(has_only(out.get("usage"@)->0, counts));
}

/// The first choice of a response, where it has one, and nothing else.
pub open spec fn chosen(openai: JsonView) -> JsonView {
    match openai.get("choices"@) {
        Some(JsonView::Array(choices)) => if choices.len() > 0 {
            choices[0]
        } else {
            JsonView::Null
        },
        _ => JsonView::Null,
    }
}

/// The message of the first choice of a response, where it has one.
pub open spec fn answered(openai: JsonView) -> JsonView {
    match chosen(openai).get("message"@) {
        Some(message) => message,
        None => JsonView::Null,
    }
}

/// Why an answer stopped: for tool use where tool calls are listed; else for want of
/// room if the model says so, for tool use if it says so, and else because it was done.
pub proof fn the_stop_reason_is_the_models(openai: JsonView)
    ensures
        ({
            let reason = anthropic_response(openai).get("stop_reason"@);
            let finish = chosen(openai).get("finish_reason"@);
            let lists_calls = answered(openai).get("tool_calls"@) matches Some(JsonView::Array(_));
            let length = finish == Some(JsonView::String("length"@));
            let calls = finish == Some(JsonView::String("tool_calls"@));
            &&& reason == Some(JsonView::String("tool_use"@)) <==> lists_calls || calls
            &&& reason == Some(JsonView::String("max_tokens"@)) <==> !lists_calls && length
            &&& reason == Some(JsonView::String("end_turn"@)) <==> !lists_calls && !length
                && !calls
        }),
{
    lemma_names_differ();
    reveal_strlit("tool_use");
    reveal_strlit("max_tokens");
    reveal_strlit("end_turn");
    reveal_strlit("length");
    reveal_strlit("tool_calls");
    assert("tool_use"@.len() == 8 && "end_turn"@.len() == 8 && "tool_use"@[0] != "end_turn"@[0]);
    assert("max_tokens"@.len() == 10 && "length"@.len() == 6 && "tool_calls"@.len() == 10);
}

/// Whether a tool use uses what a tool call calls: its input is what the arguments
/// spell, null where they spell nothing, and an empty object where there are none.
pub open spec fn uses(block: JsonView, call: JsonView) -> bool {
    let function = match call.get("function"@) {
        Some(function) => function,
        None => JsonView::Null,
    };
    &&& block.get("type"@) == Some(JsonView::String("tool_use"@))
    &&& block.get("id"@) == Some(JsonView::String(text_under(call, "id"@)))
    &&& block.get("name"@) == Some(JsonView::String(text_under(function, "name"@)))
    &&& block.get("input"@) == Some(
        match json_of_text(
            match function.get("arguments"@) {
                Some(JsonView::String(arguments)) => arguments,
                _ => "{}"@,
            },
        ) {
            Some(input) => input,
            None => JsonView::Null,
        },
    )
    &&& has_only(block, seq!["type"@, "id"@, "name"@, "input"@])
}

proof fn lemma_uses(call: JsonView)
    ensures
        uses(tool_use(call, call_input(call)), call),
{
    lemma_names_differ();
    reveal_strlit("");
    assert(""@ =~= Seq::<char>::empty());
    let names = seq!["type"@, "id"@, "name"@, "input"@];
    assert(names[0] == "type"@ && names[1] == "id"@ && names[2] == "name"@ && names[3] == "input"@);
    assert(has_only(tool_use(call, call_input(call)), names));
}

/// The content of an answer is what the message of the first choice says: its text, if
/// it has one that is not empty, and then each of its tool calls, in their order.
pub proof fn an_answer_says_what_the_model_says(openai: JsonView)
    ensures
        ({
            let message = answered(openai);
            let calls = match message.get("tool_calls"@) {
                Some(JsonView::Array(calls)) => calls,
                _ => Seq::empty(),
            };
            let text = text_under(message, "content"@);
            let spoken = if text.len() > 0 {
                1int
            } else {
                0int
            };
            anthropic_response(openai).get("content"@) matches Some(JsonView::Array(content)) && {
                &&& content.len() == spoken + calls.len()
                &&& spoken == 1 ==> {
                    &&& content[0].get("type"@) == Some(JsonView::String("text"@))
                    &&& content[0].get("text"@) == Some(JsonView::String(text))
                    &&& has_only(content[0], seq!["type"@, "text"@])
                }
                &&& forall|i: int|
                    0 <= i < calls.len() ==> uses(content[spoken + i], #[trigger] calls[i])
            }
        }),
{
    lemma_names_differ();
    let message = answered(openai);
    let calls = match message.get("tool_calls"@) {
        Some(JsonView::Array(calls)) => calls,
        _ => Seq::empty(),
    };
    let content = answer_content(first_choice(openai));
    assert(anthropic_response(openai).get("content"@) == Some(JsonView::Array(content)));
    assert(content =~= text_content(message) + tool_uses(calls));
    let spoken = text_content(message).len() as int;
    if spoken == 1 {
        let names = seq!["type"@, "text"@];
        assert(names[0] == "type"@ && names[1] == "text"@);
        assert(content[0] == text_content(message)[0]);
        assert(has_only(content[0], names));
    }
    assert forall|i: int| 0 <= i < calls.len() implies uses(
        content[spoken + i],
        #[trigger] calls[i],
    ) by {
        lemma_uses(calls[i]);
        assert(content[spoken + i] == tool_uses(calls)[i]);
    }
}

} // verus!
