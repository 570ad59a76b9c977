//! Compressed replies: a hint to that end in the system prompt of a request.

use crate::json::{copy_items, group_json, has_only, items_model, Json, JsonView};
use crate::text::{
    containing, contains, is_whitespace, same_text, stands_at, trim_end,
    without_trailing_whitespace,
};
use vstd::prelude::*;

verus! {

broadcast use group_json;

/// The hint.
pub const COMPRESS_PROMPT: &'static str = "Ultra-compressed replies. Drop articles/fillers/pleasantries/hedging. Fragments OK. Short synonyms. Technical terms exact. Code blocks unchanged. Errors quoted exact. Pattern: [thing] [action] [reason]. Abbreviate prose (DB/auth/config/req/res/fn/impl), arrows for causality (X→Y). Never abbreviate code symbols/fn names/API names/error strings.";

/// A text with the hint after it, on lines of its own.
pub open spec fn with_hint(text: Seq<char>) -> Seq<char> {
    trim_end(text) + "\n\n"@ + COMPRESS_PROMPT@
}

/// Whether a message is a system prompt.
pub open spec fn is_system(message: JsonView) -> bool {
    message.str_at("role"@) == Some("system"@)
}

/// The position of the first system prompt.
pub open spec fn first_system(messages: Seq<JsonView>) -> Option<int>
    decreases messages.len(),
{
    if messages.len() == 0 {
        None
    } else {
        match first_system(messages.drop_last()) {
            Some(i) => Some(i),
            None => if is_system(messages.last()) {
                Some(messages.len() - 1)
            } else {
                None
            },
        }
    }
}

/// The hint as a content block.
pub open spec fn hint_block() -> JsonView {
    JsonView::object().with("type"@, JsonView::String("text"@)).with(
        "text"@,
        JsonView::String(COMPRESS_PROMPT@),
    )
}

/// Whether a content block is the hint.
pub open spec fn is_hint(block: JsonView) -> bool {
    block.str_at("text"@) == Some(COMPRESS_PROMPT@)
}

/// A list of blocks with the hint as its last, unless it holds the hint.
pub open spec fn hinted_blocks(blocks: Seq<JsonView>) -> Seq<JsonView> {
    if exists|i: int| 0 <= i < blocks.len() && is_hint(#[trigger] blocks[i]) {
        blocks
    } else {
        blocks.push(hint_block())
    }
}

/// A system prompt with the hint: behind its text, or as the last of its blocks.
/// Content that is neither counts as an empty text.
pub open spec fn hinted_message(message: JsonView) -> JsonView {
    let content = message.str_or("content"@, ""@);
    if message.array_at("content"@) is Some {
        message.with(
            "content"@,
            JsonView::Array(hinted_blocks(message.array_at("content"@)->0)),
        )
    } else if contains(content, COMPRESS_PROMPT@) {
        message
    } else {
        message.with("content"@, JsonView::String(with_hint(content)))
    }
}

/// The hint as a message.
pub open spec fn hint_message() -> JsonView {
    JsonView::object().with("role"@, JsonView::String("system"@)).with(
        "content"@,
        JsonView::String(COMPRESS_PROMPT@),
    )
}

/// The messages with the hint in the first system prompt, which is put in front
/// where there is none.
pub open spec fn hinted_messages(messages: Seq<JsonView>) -> Seq<JsonView> {
    match first_system(messages) {
        Some(i) => messages.update(i, hinted_message(messages[i])),
        None => seq![hint_message()] + messages,
    }
}

/// An OpenAI request with the hint.
pub open spec fn hinted_openai(body: JsonView) -> JsonView {
    match body.array_at("messages"@) {
        Some(messages) => body.with("messages"@, JsonView::Array(hinted_messages(messages))),
        None => body,
    }
}

/// A system prompt of the Anthropic format with the hint.
pub open spec fn hinted_system(system: Option<JsonView>) -> JsonView {
    match system {
        Some(JsonView::String(s)) => if contains(s, COMPRESS_PROMPT@) {
            JsonView::String(s)
        } else {
            JsonView::String(with_hint(s))
        },
        Some(JsonView::Array(blocks)) => JsonView::Array(hinted_blocks(blocks)),
        _ => JsonView::String(COMPRESS_PROMPT@),
    }
}

/// An Anthropic request with the hint.
pub open spec fn hinted_anthropic(body: JsonView) -> JsonView {
    body.with("system"@, hinted_system(body.get("system"@)))
}

fn text_with_hint(text: &str) -> (r: String)
    ensures
        r@ == with_hint(text@),
{
    without_trailing_whitespace(text).concat("\n\n").concat(COMPRESS_PROMPT)
}

fn system_message(message: &Json) -> (r: bool)
    ensures
        r == is_system(message@),
{
    match message.str_at("role") {
        Some(role) => same_text(role, "system"),
        None => false,
    }
}

fn find_system(messages: &Vec<Json>) -> (r: Option<usize>)
    ensures
        match r {
            Some(i) => first_system(items_model(messages@)) == Some(i as int) && i
                < messages@.len(),
            None => first_system(items_model(messages@)) is None,
        },
{
    let ghost all = items_model(messages@);
    let mut i: usize = 0;
    while i < messages.len()
        invariant
            i <= messages@.len(),
            all == items_model(messages@),
            first_system(all.take(i as int)) is None,
        decreases messages@.len() - i,
    {
        assert(all.take(i + 1).drop_last() =~= all.take(i as int));
        assert(all.take(i + 1).last() == messages@[i as int]@);
        if system_message(&messages[i]) {
            proof {
                lemma_first_system_prefix(all, i + 1);
            }
            return Some(i);
        }
        i += 1;
    }
    assert(all.take(i as int) =~= all);
    None
}

/// What is first in the beginning of a list is first in the list.
proof fn lemma_first_system_prefix(messages: Seq<JsonView>, n: int)
    requires
        0 <= n <= messages.len(),
        first_system(messages.take(n)) is Some,
    ensures
        first_system(messages) == first_system(messages.take(n)),
    decreases messages.len(),
{
    if n == messages.len() {
        assert(messages.take(n) =~= messages);
    } else {
        assert(messages.drop_last().take(n) =~= messages.take(n));
        lemma_first_system_prefix(messages.drop_last(), n);
    }
}

fn has_hint_block(blocks: &Vec<Json>) -> (r: bool)
    ensures
        r == (exists|i: int|
            0 <= i < items_model(blocks@).len() && is_hint(#[trigger] items_model(blocks@)[i])),
{
    let mut i: usize = 0;
    while i < blocks.len()
        invariant
            i <= blocks@.len(),
            forall|k: int| 0 <= k < i ==> !is_hint(#[trigger] items_model(blocks@)[k]),
        decreases blocks@.len() - i,
    {
        assert(items_model(blocks@)[i as int] == blocks@[i as int]@);
        match blocks[i].str_at("text") {
            Some(text) => {
                if same_text(text, COMPRESS_PROMPT) {
                    return true;
                }
            },
            None => {},
        }
        i += 1;
    }
    false
}

fn blocks_with_hint(blocks: &Vec<Json>) -> (r: Vec<Json>)
    ensures
        items_model(r@) == hinted_blocks(items_model(blocks@)),
{
    let mut out: Vec<Json> = copy_items(blocks);
    if !has_hint_block(blocks) {
        out.push(
            Json::object().with("type", Json::text("text")).with(
                "text",
                Json::text(COMPRESS_PROMPT),
            ),
        );
    }
    out
}

/// Puts the hint into a system prompt.
fn hint_message_at(message: &mut Json)
    requires
        old(message)@ is Object,
    ensures
        final(message)@ == hinted_message(old(message)@),
{
    let content: Option<Json> = match message.array_at("content") {
        Some(blocks) => Some(Json::Array(blocks_with_hint(blocks))),
        None => {
            let text: String = message.str_or("content", "").to_owned();
            if containing(text.as_str(), COMPRESS_PROMPT) {
                None
            } else {
                Some(Json::String(text_with_hint(text.as_str())))
            }
        },
    };
    match content {
        Some(content) => {
            message.set("content", content);
        },
        None => {},
    }
}

/// Puts the hint into the system prompt of an OpenAI request.
///
/// It goes behind the text of the first system prompt, or into its list of blocks
/// as the last, or, where there is no system prompt, into one that is put in front.
/// A prompt that has the hint is left, and so is a body without messages.
pub fn apply_compress_hint_openai(body: &mut Json)
    ensures
        final(body)@ == hinted_openai(old(body)@),
{
    let hinted: Option<Vec<Json>> = match body.array_at("messages") {
        Some(messages) => {
            let mut out: Vec<Json> = copy_items(messages);
            let ghost all = items_model(out@);
            match find_system(messages) {
                Some(i) => {
                    proof {
                        lemma_first_system_bounds(all);
                    }
                    let mut message: Json = messages[i].copy();
                    hint_message_at(&mut message);
                    out.set(i, message);
                },
                None => {
                    out.insert(
                        0,
                        Json::object().with("role", Json::text("system")).with(
                            "content",
                            Json::text(COMPRESS_PROMPT),
                        ),
                    );
                },
            }
            assert(items_model(out@) =~= hinted_messages(all));
            Some(out)
        },
        None => None,
    };
    match hinted {
        Some(messages) => {
            body.set("messages", Json::Array(messages));
        },
        None => {},
    }
}

/// Puts the hint into the system prompt of an Anthropic request.
///
/// It goes behind a text, or into a list as its last block. A prompt that has the
/// hint is left. Any other prompt, or none, gives way to the hint.
pub fn apply_compress_hint_anthropic(body: &mut Json)
    requires
        old(body)@.accepts_members(),
    ensures
        final(body)@ == hinted_anthropic(old(body)@),
{
    let system: Json = match body.get("system") {
        Some(Json::String(s)) => if containing(s.as_str(), COMPRESS_PROMPT) {
            Json::String(s.clone())
        } else {
            Json::String(text_with_hint(s.as_str()))
        },
        Some(Json::Array(blocks)) => Json::Array(blocks_with_hint(blocks)),
        _ => Json::text(COMPRESS_PROMPT),
    };
    assert(system@ == hinted_system(body@.get("system"@)));
    body.set("system", system);
}

/// A text that has been given the hint has it.
proof fn lemma_has_hint(text: Seq<char>)
    ensures
        contains(with_hint(text), COMPRESS_PROMPT@),
        contains(COMPRESS_PROMPT@, COMPRESS_PROMPT@),
{
    let hint = COMPRESS_PROMPT@;
    let whole = with_hint(text);
    let at = (trim_end(text).len() + "\n\n"@.len()) as int;
    assert(whole.subrange(at, at + hint.len()) =~= hint);
    assert(stands_at(whole, hint, at));
    assert(hint.subrange(0, hint.len() as int) =~= hint);
    assert(stands_at(hint, hint, 0));
}

/// A change of a message that leaves whether it is a system prompt leaves which
/// is the first.
proof fn lemma_first_system_update(messages: Seq<JsonView>, i: int, message: JsonView)
    requires
        0 <= i < messages.len(),
        is_system(message) == is_system(messages[i]),
    ensures
        first_system(messages.update(i, message)) == first_system(messages),
    decreases messages.len(),
{
    let after = messages.update(i, message);
    if i < messages.len() - 1 {
        lemma_first_system_update(messages.drop_last(), i, message);
        assert(after.drop_last() =~= messages.drop_last().update(i, message));
    } else {
        assert(after.drop_last() =~= messages.drop_last());
    }
}

proof fn lemma_first_system_bounds(messages: Seq<JsonView>)
    ensures
        first_system(messages) matches Some(i) ==> 0 <= i < messages.len() && is_system(
            messages[i],
        ),
    decreases messages.len(),
{
    if messages.len() > 0 {
        lemma_first_system_bounds(messages.drop_last());
    }
}

/// Giving a message the hint leaves its role, and giving it again changes nothing.
proof fn lemma_hinted_message_twice(message: JsonView)
    requires
        message is Object,
    ensures
        is_system(hinted_message(message)) == is_system(message),
        hinted_message(hinted_message(message)) == hinted_message(message),
{
    reveal_strlit("role");
    reveal_strlit("content");
    assert("role"@.len() != "content"@.len());
    lemma_has_hint(message.str_or("content"@, ""@));
    match message.array_at("content"@) {
        Some(blocks) => {
            lemma_hinted_blocks_twice(blocks);
            let once = hinted_message(message);
            assert(once->Object_0.insert("content"@, JsonView::Array(hinted_blocks(blocks)))
                =~= once->Object_0);
        },
        None => {},
    }
}

/// A list of blocks that has been given the hint has it.
proof fn lemma_hinted_blocks_twice(blocks: Seq<JsonView>)
    ensures
        hinted_blocks(hinted_blocks(blocks)) == hinted_blocks(blocks),
{
    reveal_strlit("type");
    reveal_strlit("text");
    assert("type"@[1] != "text"@[1]);
    assert(is_hint(hint_block()));
    if !(exists|i: int| 0 <= i < blocks.len() && is_hint(#[trigger] blocks[i])) {
        assert(is_hint(blocks.push(hint_block())[blocks.len() as int]));
    }
}

proof fn lemma_hinted_messages_twice(messages: Seq<JsonView>)
    ensures
        hinted_messages(hinted_messages(messages)) == hinted_messages(messages),
{
    let once = hinted_messages(messages);
    lemma_first_system_bounds(messages);
    match first_system(messages) {
        Some(i) => {
            lemma_hinted_message_twice(messages[i]);
            lemma_first_system_update(messages, i, hinted_message(messages[i]));
            assert(hinted_messages(once) =~= once);
        },
        None => {
            reveal_strlit("role");
            reveal_strlit("content");
            assert("role"@.len() != "content"@.len());
            assert(is_system(hint_message()));
            let none = once.take(1).drop_last();
            assert(none =~= Seq::empty());
            assert(once.take(1).last() == hint_message());
            assert(first_system(none) is None);
            assert(first_system(once.take(1)) == Some(0int));
            lemma_first_system_prefix(once, 1);
            lemma_has_hint(Seq::empty());
            assert(hint_message().str_or("content"@, ""@) == COMPRESS_PROMPT@);
            assert(hinted_messages(once) =~= once);
        },
    }
}

/// Giving an OpenAI request the hint a second time changes nothing.
pub proof fn compress_hint_openai_is_idempotent(body: JsonView)
    ensures
        hinted_openai(hinted_openai(body)) == hinted_openai(body),
{
    match body.array_at("messages"@) {
        Some(messages) => {
            lemma_hinted_messages_twice(messages);
            let once = hinted_openai(body);
            assert(once->Object_0.insert(
                "messages"@,
                JsonView::Array(hinted_messages(messages)),
            ) =~= once->Object_0);
        },
        None => {},
    }
}

/// Giving an Anthropic request the hint a second time changes nothing.
pub proof fn compress_hint_anthropic_is_idempotent(body: JsonView)
    ensures
        hinted_anthropic(hinted_anthropic(body)) == hinted_anthropic(body),
{
    let system = hinted_system(body.get("system"@));
    match body.get("system"@) {
        Some(JsonView::String(s)) => {
            lemma_has_hint(s);
        },
        Some(JsonView::Array(blocks)) => {
            lemma_hinted_blocks_twice(blocks);
        },
        _ => {
            lemma_has_hint(Seq::empty());
        },
    }
    assert(hinted_system(Some(system)) == system);
    let once = hinted_anthropic(body);
    assert(once->Object_0.insert("system"@, system) =~= once->Object_0);
}

/// The hint is appended: what a system prompt says stands before it. A text loses
/// the whitespace at its end, a list of blocks nothing; either has the hint then.
pub proof fn the_prompt_stands_before_the_hint(message: JsonView)
    requires
        is_system(message),
    ensures
        is_system(hinted_message(message)),
        message.array_at("content"@) matches Some(blocks) ==> {
            &&& hinted_message(message).array_at("content"@) matches Some(after)
                && after.len() >= blocks.len() && after.take(blocks.len() as int) == blocks
                && exists|i: int| 0 <= i < after.len() && is_hint(#[trigger] after[i])
        },
        message.str_at("content"@) matches Some(text) ==> {
            &&& hinted_message(message).str_at("content"@) matches Some(after)
                && after.len() >= trim_end(text).len()
                && after.take(trim_end(text).len() as int) == trim_end(text)
                && contains(after, COMPRESS_PROMPT@)
        },
{
    lemma_hinted_message_twice(message);
    match message.get("content"@) {
        Some(JsonView::Array(blocks)) => {
            let after = hinted_blocks(blocks);
            assert(after.take(blocks.len() as int) =~= blocks);
            reveal_strlit("type");
            reveal_strlit("text");
            assert("type"@[1] != "text"@[1]);
            if !(exists|i: int| 0 <= i < blocks.len() && is_hint(#[trigger] blocks[i])) {
                assert(is_hint(after[blocks.len() as int]));
            }
        },
        Some(JsonView::String(text)) => {
            lemma_has_hint(text);
            lemma_trim_end_prefix(text);
            let n = trim_end(text).len() as int;
            assert(with_hint(text).take(n) =~= trim_end(text));
        },
        _ => {},
    }
}

/// A text without its trailing whitespace is the beginning of the text.
proof fn lemma_trim_end_prefix(text: Seq<char>)
    ensures
        trim_end(text).len() <= text.len(),
        text.take(trim_end(text).len() as int) == trim_end(text),
    decreases text.len(),
{
    if text.len() > 0 && is_whitespace(text.last()) {
        lemma_trim_end_prefix(text.drop_last());
        let n = trim_end(text).len() as int;
        assert(text.take(n) =~= text.drop_last().take(n));
    } else {
        assert(text.take(text.len() as int) =~= text);
    }
}

/// Whether a text is another with the hint after it, on lines of its own, or the other
/// as it is where that has the hint.
pub open spec fn is_text_with_hint(after: Seq<char>, before: Seq<char>) -> bool {
    if contains(before, COMPRESS_PROMPT@) {
        after == before
    } else {
        after == trim_end(before) + "\n\n"@ + COMPRESS_PROMPT@
    }
}

/// Whether a list of blocks is another with one more block, which is the hint, or the
/// other as it is where one of its blocks is the hint.
pub open spec fn are_blocks_with_hint(after: Seq<JsonView>, before: Seq<JsonView>) -> bool {
    let hint = JsonView::String(COMPRESS_PROMPT@);
    if exists|i: int| 0 <= i < before.len() && (#[trigger] before[i]).get("text"@) == Some(hint) {
        after == before
    } else {
        &&& after.len() == before.len() + 1
        &&& after.take(before.len() as int) == before
        &&& after.last().get("type"@) == Some(JsonView::String("text"@))
        &&& after.last().get("text"@) == Some(hint)
        &&& has_only(after.last(), seq!["type"@, "text"@])
    }
}

proof fn lemma_blocks_with_hint(blocks: Seq<JsonView>)
    ensures
        are_blocks_with_hint(hinted_blocks(blocks), blocks),
{
    let hint = JsonView::String(COMPRESS_PROMPT@);
    reveal_strlit("type");
    reveal_strlit("text");
    assert("type"@[1] != "text"@[1]);
    let names = seq!["type"@, "text"@];
    assert(names[0] == "type"@ && names[1] == "text"@);
    assert(has_only(hint_block(), names));
    assert forall|i: int| 0 <= i < blocks.len() implies is_hint(#[trigger] blocks[i]) == (
    blocks[i].get("text"@) == Some(hint)) by {}
    if exists|i: int| 0 <= i < blocks.len() && (#[trigger] blocks[i]).get("text"@) == Some(hint) {
        let i = choose|i: int|
            0 <= i < blocks.len() && (#[trigger] blocks[i]).get("text"@) == Some(hint);
        assert(is_hint(blocks[i]));
    } else {
        assert(hinted_blocks(blocks) == blocks.push(hint_block()));
        assert(blocks.push(hint_block()).take(blocks.len() as int) =~= blocks);
    }
}

/// An Anthropic request gets the hint into its system prompt, behind what the prompt
/// says: behind its text, or behind its blocks. A prompt that says nothing gives way
/// to the hint. Everything else in the request is left.
pub proof fn the_anthropic_prompt_gets_the_hint(body: JsonView, name: Seq<char>)
    requires
        body.accepts_members(),
    ensures
        name != "system"@ ==> hinted_anthropic(body).get(name) == body.get(name),
        match body.get("system"@) {
            Some(JsonView::String(s)) => hinted_anthropic(body).get("system"@) matches Some(
                JsonView::String(t),
            ) && is_text_with_hint(t, s),
            Some(JsonView::Array(blocks)) => hinted_anthropic(body).get("system"@) matches Some(
                JsonView::Array(after),
            ) && are_blocks_with_hint(after, blocks),
            _ => hinted_anthropic(body).get("system"@) == Some(JsonView::String(COMPRESS_PROMPT@)),
        },
{
    match body.get("system"@) {
        Some(JsonView::Array(blocks)) => {
            lemma_blocks_with_hint(blocks);
        },
        _ => {},
    }
}

/// Whether this is the position of the first message whose role is the system's.
pub open spec fn is_first_system(messages: Seq<JsonView>, i: int) -> bool {
    let system = Some(JsonView::String("system"@));
    &&& 0 <= i < messages.len()
    &&& messages[i].get("role"@) == system
    &&& forall|j: int| 0 <= j < i ==> (#[trigger] messages[j]).get("role"@) != system
}

proof fn lemma_is_first_system(messages: Seq<JsonView>)
    ensures
        match first_system(messages) {
            Some(i) => is_first_system(messages, i),
            None => forall|j: int| 0 <= j < messages.len() ==> !is_system(#[trigger] messages[j]),
        },
    decreases messages.len(),
{
    if messages.len() > 0 {
        let front = messages.drop_last();
        lemma_is_first_system(front);
        assert(forall|j: int| 0 <= j < front.len() ==> front[j] == messages[j]);
    }
}

/// Only one message is the first.
proof fn lemma_one_first_system(messages: Seq<JsonView>, i: int)
    requires
        is_first_system(messages, i),
    ensures
        first_system(messages) == Some(i),
{
    lemma_is_first_system(messages);
    match first_system(messages) {
        Some(k) => {
            if k < i {
                assert(messages[k].get("role"@) == Some(JsonView::String("system"@)));
            }
            if i < k {
                assert(messages[i].get("role"@) == Some(JsonView::String("system"@)));
            }
        },
        None => {
            assert(!is_system(messages[i]));
        },
    }
}

/// An OpenAI request gets the hint into its first system message, behind what that
/// says: behind its text, or behind its blocks. Where no message is the system's, one
/// that says the hint comes before all others. The other messages, their order and
/// everything else in the request are left, and so is a request without messages.
pub proof fn the_openai_prompt_gets_the_hint(body: JsonView, name: Seq<char>, key: Seq<char>)
    ensures
        name != "messages"@ ==> hinted_openai(body).get(name) == body.get(name),
        match body.get("messages"@) {
            Some(JsonView::Array(before)) => hinted_openai(body).get("messages"@) matches Some(
                JsonView::Array(after),
            ) && {
                &&& forall|i: int| #[trigger]
                    is_first_system(before, i) ==> {
                        &&& after.len() == before.len()
                        &&& forall|j: int|
                            0 <= j < before.len() && j != i ==> #[trigger] after[j] == before[j]
                        &&& key != "content"@ ==> after[i].get(key) == before[i].get(key)
                        &&& match before[i].get("content"@) {
                            Some(JsonView::String(s)) => after[i].get("content"@) matches Some(
                                JsonView::String(t),
                            ) && is_text_with_hint(t, s),
                            Some(JsonView::Array(blocks)) => after[i].get(
                                "content"@,
                            ) matches Some(JsonView::Array(list)) && are_blocks_with_hint(
                                list,
                                blocks,
                            ),
                            _ => after[i].get("content"@) == Some(
                                JsonView::String("\n\n"@ + COMPRESS_PROMPT@),
                            ),
                        }
                    }
                &&& (forall|i: int| !#[trigger] is_first_system(before, i)) ==> {
                    &&& after.len() == before.len() + 1
                    &&& after.skip(1) == before
                    &&& after[0].get("role"@) == Some(JsonView::String("system"@))
                    &&& after[0].get("content"@) == Some(JsonView::String(COMPRESS_PROMPT@))
                    &&& has_only(after[0], seq!["role"@, "content"@])
                }
            },
            _ => hinted_openai(body) == body,
        },
{
    match body.get("messages"@) {
        Some(JsonView::Array(before)) => {
            let after = hinted_messages(before);
            lemma_is_first_system(before);
            assert forall|i: int| #[trigger] is_first_system(before, i) implies {
                &&& after.len() == before.len()
                &&& forall|j: int|
                    0 <= j < before.len() && j != i ==> #[trigger] after[j] == before[j]
                &&& after[i] == hinted_message(before[i])
            } by {
                lemma_one_first_system(before, i);
            }
            assert forall|i: int| #[trigger] is_first_system(before, i) implies {
                &&& key != "content"@ ==> after[i].get(key) == before[i].get(key)
                &&& match before[i].get("content"@) {
                    Some(JsonView::String(s)) => after[i].get("content"@) matches Some(
                        JsonView::String(t),
                    ) && is_text_with_hint(t, s),
                    Some(JsonView::Array(blocks)) => after[i].get("content"@) matches Some(
                        JsonView::Array(list),
                    ) && are_blocks_with_hint(list, blocks),
                    _ => after[i].get("content"@) == Some(
                        JsonView::String("\n\n"@ + COMPRESS_PROMPT@),
                    ),
                }
            } by {
                lemma_message_with_hint(before[i], key);
            }
            if forall|i: int| !#[trigger] is_first_system(before, i) {
                match first_system(before) {
                    Some(i) => {
                        assert(is_first_system(before, i));
                    },
                    None => {},
                }
                assert(after.skip(1) =~= before);
                reveal_strlit("role");
                reveal_strlit("content");
                assert("role"@.len() != "content"@.len());
                let names = seq!["role"@, "content"@];
                assert(names[0] == "role"@ && names[1] == "content"@);
                assert(has_only(hint_message(), names));
            }
        },
        _ => {},
    }
}

proof fn lemma_message_with_hint(message: JsonView, key: Seq<char>)
    requires
        is_system(message),
    ensures
        key != "content"@ ==> hinted_message(message).get(key) == message.get(key),
        match message.get("content"@) {
            Some(JsonView::String(s)) => hinted_message(message).get("content"@) matches Some(
                JsonView::String(t),
            ) && is_text_with_hint(t, s),
            Some(JsonView::Array(blocks)) => hinted_message(message).get("content"@) matches Some(
                JsonView::Array(list),
            ) && are_blocks_with_hint(list, blocks),
            _ => hinted_message(message).get("content"@) == Some(
                JsonView::String("\n\n"@ + COMPRESS_PROMPT@),
            ),
        },
{
    match message.get("content"@) {
        Some(JsonView::String(s)) => {},
        Some(JsonView::Array(blocks)) => {
            lemma_blocks_with_hint(blocks);
        },
        _ => {
            reveal_strlit("");
            reveal_strlit("Ultra-compressed replies. Drop articles/fillers/pleasantries/hedging. Fragments OK. Short synonyms. Technical terms exact. Code blocks unchanged. Errors quoted exact. Pattern: [thing] [action] [reason]. Abbreviate prose (DB/auth/config/req/res/fn/impl), arrows for causality (X→Y). Never abbreviate code symbols/fn names/API names/error strings.");
            assert(""@ =~= Seq::<char>::empty());
            assert(trim_end(""@) =~= Seq::<char>::empty());
            assert(COMPRESS_PROMPT@.len() > 0);
            assert(!contains(""@, COMPRESS_PROMPT@));
            assert(with_hint(""@) =~= "\n\n"@ + COMPRESS_PROMPT@);
        },
    }
}

} // verus!
