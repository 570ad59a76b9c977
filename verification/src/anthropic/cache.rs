//! Prompt caching: marks in an Anthropic request on what is worth caching.

use crate::anthropic::request::{
    block_messages, block_texts, converted_message, converted_messages, is_block, openai_messages,
    openai_request, system_messages, text_parts, tool_calls, tool_messages,
};
use crate::json::{copy_items, group_json, has_only, items_model, Json, JsonView};
use crate::text::{join, same_text};
use vstd::prelude::*;

verus! {

broadcast use group_json;

/// The mark.
pub open spec fn ephemeral() -> JsonView {
    JsonView::object().with("type"@, JsonView::String("ephemeral"@))
}

/// A text as a content block that bears the mark.
pub open spec fn marked_text(text: Seq<char>) -> JsonView {
    JsonView::object().with("type"@, JsonView::String("text"@)).with(
        "text"@,
        JsonView::String(text),
    ).with("cache_control"@, ephemeral())
}

/// A block that bears a mark: its own, where it has one, else this one.
pub open spec fn marked_block(block: JsonView) -> JsonView {
    if block.get("cache_control"@) is None {
        block.with("cache_control"@, ephemeral())
    } else {
        block
    }
}

/// The blocks, of which the last bears a mark.
pub open spec fn marked_last(blocks: Seq<JsonView>) -> Seq<JsonView> {
    if blocks.len() == 0 {
        blocks
    } else {
        blocks.update(blocks.len() - 1, marked_block(blocks.last()))
    }
}

/// A system prompt with its mark. A text becomes a block; an empty one stays.
pub open spec fn marked_system(system: JsonView) -> JsonView {
    match system {
        JsonView::String(s) => if s.len() > 0 {
            JsonView::Array(seq![marked_text(s)])
        } else {
            system
        },
        JsonView::Array(blocks) => JsonView::Array(marked_last(blocks)),
        _ => system,
    }
}

/// The content of a message with its mark. A text becomes a block.
pub open spec fn marked_content(content: JsonView) -> JsonView {
    match content {
        JsonView::String(s) => JsonView::Array(seq![marked_text(s)]),
        JsonView::Array(blocks) => JsonView::Array(marked_last(blocks)),
        _ => content,
    }
}

/// A message whose content bears a mark.
pub open spec fn marked_message(message: JsonView) -> JsonView {
    match message.get("content"@) {
        Some(content) => message.with("content"@, marked_content(content)),
        None => message,
    }
}

/// Whether a message is the user's.
pub open spec fn is_users(message: JsonView) -> bool {
    message.str_at("role"@) == Some("user"@)
}

/// The messages, of which the user's last bears a mark.
pub open spec fn marked_messages(messages: Seq<JsonView>) -> Seq<JsonView>
    decreases messages.len(),
{
    if messages.len() == 0 {
        messages
    } else if is_users(messages.last()) {
        messages.drop_last().push(marked_message(messages.last()))
    } else {
        marked_messages(messages.drop_last()).push(messages.last())
    }
}

/// The body with a mark on the system prompt.
pub open spec fn with_marked_system(body: JsonView) -> JsonView {
    match body.get("system"@) {
        Some(system) => body.with("system"@, marked_system(system)),
        None => body,
    }
}

/// The body with a mark on the user's last message.
pub open spec fn with_marked_messages(body: JsonView) -> JsonView {
    match body.array_at("messages"@) {
        Some(messages) => body.with("messages"@, JsonView::Array(marked_messages(messages))),
        None => body,
    }
}

/// The body with its marks.
pub open spec fn cache_hinted(body: JsonView) -> JsonView {
    with_marked_messages(with_marked_system(body))
}

/// Whether the last of the blocks can bear a mark: it is an object, or null,
/// which becomes one.
pub open spec fn last_markable(blocks: Seq<JsonView>) -> bool {
    blocks.len() > 0 ==> blocks.last().accepts_members()
}

/// Whether the user's last message can bear a mark.
pub open spec fn messages_markable(messages: Seq<JsonView>) -> bool
    decreases messages.len(),
{
    if messages.len() == 0 {
        true
    } else if is_users(messages.last()) {
        messages.last().array_at("content"@) matches Some(blocks) ==> last_markable(blocks)
    } else {
        messages_markable(messages.drop_last())
    }
}

/// Whether the marks can be set.
pub open spec fn cache_markable(body: JsonView) -> bool {
    &&& body.array_at("system"@) matches Some(blocks) ==> last_markable(blocks)
    &&& body.array_at("messages"@) matches Some(messages) ==> messages_markable(messages)
}

fn marked_text_block(text: &str) -> (r: Json)
    ensures
        r@ == marked_text(text@),
{
    Json::object().with("type", Json::text("text")).with("text", Json::text(text)).with(
        "cache_control",
        Json::object().with("type", Json::text("ephemeral")),
    )
}

/// The blocks, of which the last bears a mark.
fn marked_blocks(blocks: &Vec<Json>) -> (r: Vec<Json>)
    requires
        last_markable(items_model(blocks@)),
    ensures
        items_model(r@) == marked_last(items_model(blocks@)),
{
    let mut out: Vec<Json> = copy_items(blocks);
    let ghost all = items_model(out@);
    match out.pop() {
        Some(last) => {
            let mut block: Json = last;
            assert(all.last() == block@);
            if block.get("cache_control").is_none() {
                block.set(
                    "cache_control",
                    Json::object().with("type", Json::text("ephemeral")),
                );
            }
            out.push(block);
        },
        None => {},
    }
    assert(items_model(out@) =~= marked_last(all));
    out
}

fn users(message: &Json) -> (r: bool)
    ensures
        r == is_users(message@),
{
    match message.str_at("role") {
        Some(role) => same_text(role, "user"),
        None => false,
    }
}

/// Marks the content of a message.
fn mark_message(message: &mut Json)
    requires
        old(message)@.array_at("content"@) matches Some(blocks) ==> last_markable(blocks),
    ensures
        final(message)@ == marked_message(old(message)@),
{
    let marked: Option<Json> = match message.get("content") {
        Some(Json::String(s)) => {
            let mut blocks: Vec<Json> = Vec::new();
            blocks.push(marked_text_block(s.as_str()));
            assert(items_model(blocks@) =~= seq![marked_text(s@)]);
            Some(Json::Array(blocks))
        },
        Some(Json::Array(blocks)) => Some(Json::Array(marked_blocks(blocks))),
        Some(content) => Some(content.copy()),
        None => None,
    };
    match marked {
        Some(content) => {
            message.set("content", content);
        },
        None => {},
    }
}

/// The messages, of which the user's last bears a mark.
fn mark_messages(messages: &Vec<Json>) -> (r: Vec<Json>)
    requires
        messages_markable(items_model(messages@)),
    ensures
        items_model(r@) == marked_messages(items_model(messages@)),
{
    let ghost all = items_model(messages@);
    let mut out: Vec<Json> = copy_items(messages);
    let mut n: usize = messages.len();
    assert(all.take(n as int) =~= all);
    assert(marked_messages(all) =~= marked_messages(all.take(n as int)) + all.skip(n as int));
    while n > 0
        invariant
            n <= messages@.len(),
            all == items_model(messages@),
            items_model(out@) == all,
            messages_markable(all.take(n as int)),
            marked_messages(all) == marked_messages(all.take(n as int)) + all.skip(n as int),
        decreases n,
    {
        assert(all.take(n as int).drop_last() =~= all.take(n - 1));
        assert(all.take(n as int).last() == messages@[n - 1]@);
        if users(&messages[n - 1]) {
            let mut message: Json = messages[n - 1].copy();
            mark_message(&mut message);
            out.set(n - 1, message);
            assert(items_model(out@) =~= marked_messages(all));
            return out;
        }
        assert(marked_messages(all) =~= marked_messages(all.take(n - 1)) + all.skip(n - 1));
        n -= 1;
    }
    assert(marked_messages(all) =~= all);
    out
}

/// Whether the last of the blocks can bear a mark.
fn is_last_markable(blocks: &Vec<Json>) -> (r: bool)
    ensures
        r == last_markable(items_model(blocks@)),
{
    blocks.len() == 0 || blocks[blocks.len() - 1].accepts_members()
}

/// Whether the user's last message can bear a mark.
fn are_messages_markable(messages: &Vec<Json>) -> (r: bool)
    ensures
        r == messages_markable(items_model(messages@)),
{
    let ghost all = items_model(messages@);
    let mut n: usize = messages.len();
    assert(all.take(n as int) =~= all);
    while n > 0
        invariant
            n <= messages@.len(),
            all == items_model(messages@),
            messages_markable(all) == messages_markable(all.take(n as int)),
        decreases n,
    {
        assert(all.take(n as int).drop_last() =~= all.take(n - 1));
        assert(all.take(n as int).last() == messages@[n - 1]@);
        if users(&messages[n - 1]) {
            return match messages[n - 1].array_at("content") {
                Some(blocks) => is_last_markable(blocks),
                None => true,
            };
        }
        n -= 1;
    }
    true
}

/// Whether the marks can be set.
pub fn is_cache_markable(body: &Json) -> (r: bool)
    ensures
        r == cache_markable(body@),
{
    let system: bool = match body.array_at("system") {
        Some(blocks) => is_last_markable(blocks),
        None => true,
    };
    let messages: bool = match body.array_at("messages") {
        Some(messages) => are_messages_markable(messages),
        None => true,
    };
    system && messages
}

/// Sets the marks: on the last block of the system prompt, and on the last block
/// of the user's last message. A text becomes a block. What bears a mark keeps it.
pub fn apply_cache_hints(body: &mut Json)
    requires
        cache_markable(old(body)@),
    ensures
        final(body)@ == cache_hinted(old(body)@),
{
    let system: Option<Json> = match body.get("system") {
        Some(Json::String(s)) => if s.as_str().is_empty() {
            Some(Json::String(s.clone()))
        } else {
            let mut blocks: Vec<Json> = Vec::new();
            blocks.push(marked_text_block(s.as_str()));
            assert(items_model(blocks@) =~= seq![marked_text(s@)]);
            Some(Json::Array(blocks))
        },
        Some(Json::Array(blocks)) => Some(Json::Array(marked_blocks(blocks))),
        Some(system) => Some(system.copy()),
        None => None,
    };
    match system {
        Some(system) => {
            body.set("system", system);
        },
        None => {},
    }
    proof {
        reveal_strlit("system");
        reveal_strlit("messages");
        assert("system"@.len() != "messages"@.len());
    }
    let messages: Option<Vec<Json>> = match body.array_at("messages") {
        Some(messages) => Some(mark_messages(messages)),
        None => None,
    };
    match messages {
        Some(messages) => {
            body.set("messages", Json::Array(messages));
        },
        None => {},
    }
}

proof fn lemma_marked_block_twice(block: JsonView)
    ensures
        marked_block(marked_block(block)) == marked_block(block),
        marked_block(block).get("cache_control"@) is Some,
{
}

proof fn lemma_marked_last_twice(blocks: Seq<JsonView>)
    ensures
        marked_last(marked_last(blocks)) == marked_last(blocks),
{
    if blocks.len() > 0 {
        lemma_marked_block_twice(blocks.last());
        assert(marked_last(blocks).last() == marked_block(blocks.last()));
        assert(marked_last(marked_last(blocks)) =~= marked_last(blocks));
    }
}

proof fn lemma_marked_text_twice(text: Seq<char>)
    ensures
        marked_last(seq![marked_text(text)]) == seq![marked_text(text)],
{
    assert(marked_text(text).get("cache_control"@) is Some);
    assert(marked_last(seq![marked_text(text)]) =~= seq![marked_text(text)]);
}

proof fn lemma_marked_content_twice(content: JsonView)
    ensures
        marked_content(marked_content(content)) == marked_content(content),
        marked_system(marked_system(content)) == marked_system(content),
{
    match content {
        JsonView::String(s) => {
            lemma_marked_text_twice(s);
        },
        JsonView::Array(blocks) => {
            lemma_marked_last_twice(blocks);
        },
        _ => {},
    }
}

/// Setting one member leaves the others.
proof fn lemma_with_other(value: JsonView, key: Seq<char>, member: JsonView, other: Seq<char>)
    requires
        key != other,
        value is Object,
    ensures
        value.with(key, member).get(other) == value.get(other),
{
}

/// Setting a member to what it is changes nothing.
proof fn lemma_with_same(value: JsonView, key: Seq<char>, member: JsonView)
    requires
        value.get(key) == Some(member),
    ensures
        value.with(key, member) == value,
{
    assert(value->Object_0.insert(key, member) =~= value->Object_0);
}

proof fn lemma_marked_message_twice(message: JsonView)
    ensures
        marked_message(marked_message(message)) == marked_message(message),
        is_users(marked_message(message)) == is_users(message),
{
    reveal_strlit("content");
    reveal_strlit("role");
    match message.get("content"@) {
        Some(content) => {
            lemma_marked_content_twice(content);
            assert("content"@.len() != "role"@.len());
            lemma_with_other(message, "content"@, marked_content(content), "role"@);
            lemma_with_same(marked_message(message), "content"@, marked_content(content));
        },
        None => {},
    }
}

proof fn lemma_marked_messages_twice(messages: Seq<JsonView>)
    ensures
        marked_messages(messages).len() == messages.len(),
        marked_messages(marked_messages(messages)) == marked_messages(messages),
    decreases messages.len(),
{
    if messages.len() > 0 {
        lemma_marked_message_twice(messages.last());
        lemma_marked_messages_twice(messages.drop_last());
        let once = marked_messages(messages);
        assert(marked_messages(once) =~= once) by {
            if is_users(messages.last()) {
                assert(once.drop_last() =~= messages.drop_last());
            } else {
                assert(once.drop_last() =~= marked_messages(messages.drop_last()));
            }
        }
    }
}

/// The two marks are set on members of their own.
proof fn lemma_hinted_members(body: JsonView)
    ensures
        with_marked_system(body).get("messages"@) == body.get("messages"@),
        cache_hinted(body).get("system"@) == with_marked_system(body).get("system"@),
        forall|key: Seq<char>|
            key != "system"@ && key != "messages"@ ==> #[trigger] cache_hinted(body).get(key)
                == body.get(key),
{
    reveal_strlit("system");
    reveal_strlit("messages");
    assert("system"@.len() != "messages"@.len());
}

proof fn lemma_marked_last_markable(blocks: Seq<JsonView>)
    requires
        last_markable(blocks),
    ensures
        last_markable(marked_last(blocks)),
{
    if blocks.len() > 0 {
        assert(marked_last(blocks).last() == marked_block(blocks.last()));
    }
}

proof fn lemma_marked_messages_markable(messages: Seq<JsonView>)
    requires
        messages_markable(messages),
    ensures
        messages_markable(marked_messages(messages)),
    decreases messages.len(),
{
    if messages.len() > 0 {
        let marked = marked_messages(messages);
        if is_users(messages.last()) {
            lemma_marked_message_twice(messages.last());
            assert(marked.last() == marked_message(messages.last()));
            match messages.last().get("content"@) {
                Some(JsonView::Array(blocks)) => {
                    lemma_marked_last_markable(blocks);
                },
                Some(JsonView::String(s)) => {
                    assert(seq![marked_text(s)].last() == marked_text(s));
                },
                _ => {},
            }
        } else {
            lemma_marked_messages_markable(messages.drop_last());
            assert(marked.drop_last() =~= marked_messages(messages.drop_last()));
        }
    }
}

/// Setting the marks on a body that bears them changes nothing; and where they can
/// be set they can be set again.
pub proof fn cache_hints_are_idempotent(body: JsonView)
    ensures
        cache_hinted(cache_hinted(body)) == cache_hinted(body),
        cache_markable(body) ==> cache_markable(cache_hinted(body)),
{
    let once = cache_hinted(body);
    lemma_hinted_members(body);
    lemma_hinted_members(once);
    match body.get("system"@) {
        Some(system) => {
            lemma_marked_content_twice(system);
            assert(once.get("system"@) == Some(marked_system(system)));
            if cache_markable(body) {
                match system {
                    JsonView::Array(blocks) => {
                        lemma_marked_last_markable(blocks);
                    },
                    JsonView::String(s) => {
                        assert(seq![marked_text(s)].last() == marked_text(s));
                    },
                    _ => {},
                }
            }
            lemma_with_same(once, "system"@, marked_system(system));
        },
        None => {},
    }
    assert(with_marked_system(once) == once);
    match body.array_at("messages"@) {
        Some(messages) => {
            lemma_marked_messages_twice(messages);
            assert(once.array_at("messages"@) == Some(marked_messages(messages)));
            if cache_markable(body) {
                lemma_marked_messages_markable(messages);
            }
            lemma_with_same(once, "messages"@, JsonView::Array(marked_messages(messages)));
        },
        None => {},
    }
}

/// A mark leaves every other member of a block.
proof fn lemma_marked_block_get(block: JsonView, key: Seq<char>)
    requires
        key.len() != 13,
    ensures
        marked_block(block).get(key) == block.get(key),
{
    reveal_strlit("cache_control");
    assert("cache_control"@.len() == 13);
}

/// A mark on the last block changes nothing of what the blocks say.
proof fn lemma_marked_last_says(blocks: Seq<JsonView>)
    ensures
        block_texts(marked_last(blocks)) == block_texts(blocks),
        text_parts(marked_last(blocks)) == text_parts(blocks),
        tool_calls(marked_last(blocks)) == tool_calls(blocks),
        tool_messages(marked_last(blocks)) == tool_messages(blocks),
{
    if blocks.len() > 0 {
        let block = blocks.last();
        let marked = marked_last(blocks);
        assert(marked.drop_last() =~= blocks.drop_last());
        assert(marked.last() == marked_block(block));
        reveal_strlit("text");
        reveal_strlit("type");
        reveal_strlit("id");
        reveal_strlit("name");
        reveal_strlit("input");
        reveal_strlit("content");
        reveal_strlit("tool_use_id");
        lemma_marked_block_get(block, "text"@);
        lemma_marked_block_get(block, "type"@);
        lemma_marked_block_get(block, "id"@);
        lemma_marked_block_get(block, "name"@);
        lemma_marked_block_get(block, "input"@);
        lemma_marked_block_get(block, "content"@);
        lemma_marked_block_get(block, "tool_use_id"@);
    }
}

/// A text and the block that it becomes say the same.
proof fn lemma_marked_text_says(text: Seq<char>)
    ensures
        block_texts(seq![marked_text(text)]) == seq![text],
        text_parts(seq![marked_text(text)]) == seq![text],
        tool_calls(seq![marked_text(text)]) == Seq::<JsonView>::empty(),
        tool_messages(seq![marked_text(text)]) == Seq::<JsonView>::empty(),
{
    let block = marked_text(text);
    let blocks = seq![block];
    reveal_strlit("text");
    reveal_strlit("type");
    reveal_strlit("cache_control");
    reveal_strlit("tool_use");
    reveal_strlit("tool_result");
    assert("text"@[1] != "type"@[1]);
    assert("text"@.len() == 4 && "type"@.len() == 4 && "cache_control"@.len() == 13);
    assert("tool_use"@.len() == 8 && "tool_result"@.len() == 11);
    assert(block.str_at("type"@) == Some("text"@));
    assert(block.str_at("text"@) == Some(text));
    assert(is_block(block, "text"@));
    assert(!is_block(block, "tool_use"@));
    assert(!is_block(block, "tool_result"@));
    assert(blocks.last() == block);
    let none = blocks.drop_last();
    assert(none =~= Seq::<JsonView>::empty());
    assert(block_texts(none) =~= Seq::<Seq<char>>::empty());
    assert(text_parts(none) =~= Seq::<Seq<char>>::empty());
    assert(tool_calls(none) =~= Seq::<JsonView>::empty());
    assert(tool_messages(none) =~= Seq::<JsonView>::empty());
    assert(block_texts(blocks) =~= seq![text]);
    assert(text_parts(blocks) =~= seq![text]);
}

proof fn lemma_marked_message_says(message: JsonView)
    ensures
        converted_message(marked_message(message)) == converted_message(message),
{
    reveal_strlit("content");
    reveal_strlit("role");
    assert("content"@.len() != "role"@.len());
    let role = message.str_or("role"@, "user"@);
    match message.get("content"@) {
        Some(content) => {
            lemma_with_other(message, "content"@, marked_content(content), "role"@);
            match content {
                JsonView::String(s) => {
                    lemma_marked_text_says(s);
                    assert(join(seq![s], "\n"@) == s);
                    assert(block_messages(role, seq![marked_text(s)]) =~= converted_message(
                        message,
                    ));
                },
                JsonView::Array(blocks) => {
                    lemma_marked_last_says(blocks);
                },
                _ => {},
            }
        },
        None => {},
    }
}

proof fn lemma_marked_messages_say(messages: Seq<JsonView>)
    ensures
        converted_messages(marked_messages(messages)) == converted_messages(messages),
    decreases messages.len(),
{
    if messages.len() > 0 {
        let marked = marked_messages(messages);
        if is_users(messages.last()) {
            lemma_marked_message_says(messages.last());
            assert(marked.drop_last() =~= messages.drop_last());
        } else {
            lemma_marked_messages_say(messages.drop_last());
            assert(marked.drop_last() =~= marked_messages(messages.drop_last()));
        }
    }
}

/// The marks leave the OpenAI request as it is: with and without them the
/// provider is asked the same.
pub proof fn cache_hints_ask_the_same(body: JsonView)
    ensures
        openai_request(cache_hinted(body)) == openai_request(body),
{
    let hinted = cache_hinted(body);
    lemma_hinted_members(body);
    match body.get("system"@) {
        Some(JsonView::String(s)) => {
            lemma_marked_text_says(s);
            assert(join(seq![s], "\n"@) == s);
        },
        Some(JsonView::Array(blocks)) => {
            lemma_marked_last_says(blocks);
        },
        _ => {},
    }
    assert(system_messages(hinted) =~= system_messages(body));
    match body.array_at("messages"@) {
        Some(messages) => {
            lemma_marked_messages_say(messages);
            assert(hinted.array_at("messages"@) == Some(marked_messages(messages)));
        },
        None => {},
    }
    assert(openai_messages(hinted) =~= openai_messages(body));
    reveal_strlit("system");
    reveal_strlit("messages");
    reveal_strlit("model");
    reveal_strlit("max_tokens");
    reveal_strlit("temperature");
    reveal_strlit("top_p");
    reveal_strlit("stop_sequences");
    reveal_strlit("stream");
    reveal_strlit("tools");
    reveal_strlit("tool_choice");
    assert("system"@.len() == 6 && "messages"@.len() == 8);
    assert("system"@[1] != "stream"@[1]);
    assert("model"@.len() == 5 && "max_tokens"@.len() == 10 && "temperature"@.len() == 11);
    assert("top_p"@.len() == 5 && "stop_sequences"@.len() == 14 && "tools"@.len() == 5);
    assert("tool_choice"@.len() == 11 && "stream"@.len() == 6);
    assert(hinted.get("model"@) == body.get("model"@));
    assert(hinted.get("max_tokens"@) == body.get("max_tokens"@));
    assert(hinted.get("temperature"@) == body.get("temperature"@));
    assert(hinted.get("top_p"@) == body.get("top_p"@));
    assert(hinted.get("stop_sequences"@) == body.get("stop_sequences"@));
    assert(hinted.get("stream"@) == body.get("stream"@));
    assert(hinted.get("tools"@) == body.get("tools"@));
    assert(hinted.get("tool_choice"@) == body.get("tool_choice"@));
}

/// Whether a value bears the mark.
pub open spec fn bears_the_mark(block: JsonView) -> bool {
    block.get("cache_control"@) matches Some(mark) && mark.get("type"@) == Some(
        JsonView::String("ephemeral"@),
    ) && has_only(mark, seq!["type"@])
}

/// Whether a list is one block, which says that text and bears the mark.
pub open spec fn is_text_with_mark(after: Seq<JsonView>, text: Seq<char>) -> bool {
    &&& after.len() == 1
    &&& after[0].get("type"@) == Some(JsonView::String("text"@))
    &&& after[0].get("text"@) == Some(JsonView::String(text))
    &&& bears_the_mark(after[0])
    &&& has_only(after[0], seq!["type"@, "text"@, "cache_control"@])
}

/// Whether a list of blocks is another of which the last block, and no other, was
/// given the mark, unless it has one; all else in the blocks is left.
pub open spec fn are_blocks_with_mark(after: Seq<JsonView>, before: Seq<JsonView>) -> bool {
    &&& after.len() == before.len()
    &&& forall|i: int| 0 <= i < before.len() - 1 ==> #[trigger] after[i] == before[i]
    &&& before.len() > 0 ==> {
        &&& before.last().get("cache_control"@) is Some ==> after.last() == before.last()
        &&& before.last().get("cache_control"@) is None ==> bears_the_mark(after.last())
        &&& forall|key: Seq<char>|
            key != "cache_control"@ ==> #[trigger] after.last().get(key) == before.last().get(key)
    }
}

proof fn lemma_mark(text: Seq<char>, blocks: Seq<JsonView>)
    ensures
        is_text_with_mark(seq![marked_text(text)], text),
        are_blocks_with_mark(marked_last(blocks), blocks),
{
    reveal_strlit("type");
    reveal_strlit("text");
    reveal_strlit("cache_control");
    assert("type"@.len() == 4 && "text"@.len() == 4 && "cache_control"@.len() == 13);
    assert("type"@[1] != "text"@[1]);
    let names = seq!["type"@];
    assert(names[0] == "type"@);
    assert(has_only(ephemeral(), names));
    let all = seq!["type"@, "text"@, "cache_control"@];
    assert(all[0] == "type"@ && all[1] == "text"@ && all[2] == "cache_control"@);
    assert(has_only(marked_text(text), all));
    if blocks.len() > 0 {
        assert(marked_last(blocks).last() == marked_block(blocks.last()));
    }
}

/// The marks stand in the system prompt and in the messages, and all else in a request
/// is left. A system prompt that is a text becomes a block with the mark, unless it is
/// empty; of a list of blocks the last gets the mark.
pub proof fn the_system_prompt_gets_the_mark(body: JsonView, name: Seq<char>)
    ensures
        name != "system"@ && name != "messages"@ ==> cache_hinted(body).get(name) == body.get(name),
        match body.get("system"@) {
            Some(JsonView::String(s)) => if s.len() > 0 {
                cache_hinted(body).get("system"@) matches Some(JsonView::Array(after))
                    && is_text_with_mark(after, s)
            } else {
                cache_hinted(body).get("system"@) == body.get("system"@)
            },
            Some(JsonView::Array(blocks)) => cache_hinted(body).get("system"@) matches Some(
                JsonView::Array(after),
            ) && are_blocks_with_mark(after, blocks),
            _ => cache_hinted(body).get("system"@) == body.get("system"@),
        },
{
    lemma_hinted_members(body);
    match body.get("system"@) {
        Some(JsonView::String(s)) => {
            lemma_mark(s, Seq::empty());
        },
        Some(JsonView::Array(blocks)) => {
            lemma_mark(Seq::empty(), blocks);
        },
        _ => {},
    }
}

/// Whether this is the position of the last message whose role is the user's.
pub open spec fn is_last_of_user(messages: Seq<JsonView>, i: int) -> bool {
    let user = Some(JsonView::String("user"@));
    &&& 0 <= i < messages.len()
    &&& messages[i].get("role"@) == user
    &&& forall|j: int| i < j < messages.len() ==> (#[trigger] messages[j]).get("role"@) != user
}

/// Of the messages only the user's last is changed, and of that only what it says: a
/// text becomes a block with the mark, and of a list of blocks the last gets the mark.
pub proof fn the_last_of_the_user_gets_the_mark(body: JsonView, key: Seq<char>)
    ensures
        match body.get("messages"@) {
            Some(JsonView::Array(before)) => cache_hinted(body).get("messages"@) matches Some(
                JsonView::Array(after),
            ) && {
                &&& after.len() == before.len()
                &&& forall|j: int|
                    0 <= j < before.len() && !is_last_of_user(before, j) ==> #[trigger] after[j]
                        == before[j]
                &&& forall|i: int| #[trigger]
                    is_last_of_user(before, i) ==> {
                        &&& key != "content"@ ==> after[i].get(key) == before[i].get(key)
                        &&& match before[i].get("content"@) {
                            Some(JsonView::String(s)) => after[i].get("content"@) matches Some(
                                JsonView::Array(list),
                            ) && is_text_with_mark(list, s),
                            Some(JsonView::Array(blocks)) => after[i].get(
                                "content"@,
                            ) matches Some(JsonView::Array(list)) && are_blocks_with_mark(
                                list,
                                blocks,
                            ),
                            _ => after[i].get("content"@) == before[i].get("content"@),
                        }
                    }
            },
            _ => cache_hinted(body).get("messages"@) == body.get("messages"@),
        },
{
    lemma_hinted_members(body);
    match body.get("messages"@) {
        Some(JsonView::Array(before)) => {
            let after = marked_messages(before);
            assert(cache_hinted(body).get("messages"@) == Some(JsonView::Array(after)));
            lemma_marked_one_message(before);
            assert forall|i: int| #[trigger] is_last_of_user(before, i) implies {
                &&& key != "content"@ ==> after[i].get(key) == before[i].get(key)
                &&& match before[i].get("content"@) {
                    Some(JsonView::String(s)) => after[i].get("content"@) matches Some(
                        JsonView::Array(list),
                    ) && is_text_with_mark(list, s),
                    Some(JsonView::Array(blocks)) => after[i].get("content"@) matches Some(
                        JsonView::Array(list),
                    ) && are_blocks_with_mark(list, blocks),
                    _ => after[i].get("content"@) == before[i].get("content"@),
                }
            } by {
                match before[i].get("content"@) {
                    Some(JsonView::String(s)) => {
                        lemma_mark(s, Seq::empty());
                    },
                    Some(JsonView::Array(blocks)) => {
                        lemma_mark(Seq::empty(), blocks);
                    },
                    _ => {},
                }
            }
        },
        _ => {},
    }
}

proof fn lemma_marked_one_message(messages: Seq<JsonView>)
    ensures
        marked_messages(messages).len() == messages.len(),
        forall|j: int|
            0 <= j < messages.len() && !is_last_of_user(messages, j) ==> #[trigger] marked_messages(
                messages,
            )[j] == messages[j],
        forall|i: int| #[trigger]
            is_last_of_user(messages, i) ==> marked_messages(messages)[i] == marked_message(
                messages[i],
            ),
    decreases messages.len(),
{
    if messages.len() > 0 {
        let front = messages.drop_last();
        let n = messages.len() - 1;
        let after = marked_messages(messages);
        assert(forall|j: int| 0 <= j < n ==> front[j] == messages[j]);
        if is_users(messages.last()) {
            assert(is_last_of_user(messages, n));
            assert forall|i: int| #[trigger] is_last_of_user(messages, i) implies i == n by {
                if i < n {
                    assert(messages[n].get("role"@) != Some(JsonView::String("user"@)));
                }
            }
        } else {
            lemma_marked_one_message(front);
            assert(messages[n].get("role"@) != Some(JsonView::String("user"@)));
            assert forall|i: int| 0 <= i < n implies #[trigger] is_last_of_user(messages, i)
                == is_last_of_user(front, i) by {
                if is_last_of_user(front, i) {
                    assert forall|j: int| i < j < messages.len() implies (
                    #[trigger] messages[j]).get("role"@) != Some(JsonView::String("user"@)) by {
                        if j < n {
                            assert(front[j] == messages[j]);
                        }
                    }
                }
                if is_last_of_user(messages, i) {
                    assert forall|j: int| i < j < front.len() implies (#[trigger] front[j]).get(
                        "role"@,
                    ) != Some(JsonView::String("user"@)) by {
                        assert(messages[j] == front[j]);
                    }
                }
            }
            assert forall|j: int|
                0 <= j < messages.len() && !is_last_of_user(
                    messages,
                    j,
                ) implies #[trigger] after[j] == messages[j] by {
                if j < n {
                    assert(after[j] == marked_messages(front)[j]);
                    assert(!is_last_of_user(front, j));
                }
            }
            assert forall|i: int| #[trigger] is_last_of_user(messages, i) implies after[i]
                == marked_message(messages[i]) by {
                assert(i < n);
                assert(is_last_of_user(front, i));
                assert(after[i] == marked_messages(front)[i]);
            }
        }
    }
}

/// The marks can be set unless the last block of the system prompt, or of the user's last
/// message, is neither an object nor null.
pub proof fn marks_need_a_place(body: JsonView)
    ensures
        cache_markable(body) <==> {
            &&& body.get("system"@) matches Some(JsonView::Array(blocks)) ==> blocks.len() > 0
                ==> blocks.last() is Object || blocks.last() is Null
            &&& body.get("messages"@) matches Some(JsonView::Array(messages)) ==> forall|i: int|
                #[trigger] is_last_of_user(messages, i) ==> (messages[i].get(
                    "content"@,
                ) matches Some(JsonView::Array(blocks)) ==> blocks.len() > 0
                    ==> blocks.last() is Object || blocks.last() is Null)
        },
{
    match body.get("messages"@) {
        Some(JsonView::Array(messages)) => {
            lemma_messages_markable(messages);
        },
        _ => {},
    }
}

proof fn lemma_messages_markable(messages: Seq<JsonView>)
    ensures
        messages_markable(messages) <==> forall|i: int| #[trigger]
            is_last_of_user(messages, i) ==> (messages[i].get("content"@) matches Some(
                JsonView::Array(blocks),
            ) ==> blocks.len() > 0 ==> blocks.last() is Object || blocks.last() is Null),
    decreases messages.len(),
{
    if messages.len() > 0 {
        let n = messages.len() - 1;
        let user = Some(JsonView::String("user"@));
        if messages[n].get("role"@) == user {
            assert(is_last_of_user(messages, n));
            assert forall|i: int| #[trigger] is_last_of_user(messages, i) implies i == n by {
                if i < n {
                    assert(messages[n].get("role"@) != user);
                }
            }
        } else {
            let front = messages.drop_last();
            lemma_messages_markable(front);
            assert forall|i: int|
                is_last_of_user(messages, i) <==> #[trigger] is_last_of_user(front, i) by {
                if is_last_of_user(messages, i) {
                    assert forall|j: int| i < j < front.len() implies (#[trigger] front[j]).get(
                        "role"@,
                    ) != user by {
                        assert(front[j] == messages[j]);
                    }
                }
                if is_last_of_user(front, i) {
                    assert forall|j: int| i < j < messages.len() implies (
                    #[trigger] messages[j]).get("role"@) != user by {
                        if j < n {
                            assert(front[j] == messages[j]);
                        }
                    }
                }
            }
            assert forall|i: int| #[trigger] is_last_of_user(messages, i) implies is_last_of_user(
                front,
                i,
            ) && front[i] == messages[i] by {
                assert(is_last_of_user(front, i) || !is_last_of_user(front, i));
            }
        }
    }
}

} // verus!
