//! Streamed answers: the lines of a provider's stream, and what goes out for them.

use crate::anthropic::order::{no_blocks, stream_blocks, stream_events};
use crate::anthropic::sse::{
    are_one_line, blocks_after_text, chunk_fits, chunk_to_events, events_view, is_chunk_fit,
    lemma_message_start, lemma_payload, message_start, message_start_of, pairs, render_all,
    rendered_all, spell_payloads, text_events, text_fits, Blocks, StreamEvent, StreamEventView,
};
use crate::codec::{json_of_text, json_text};
use crate::json::{opt_view, text_under, Json, JsonView};
use crate::text::{
    after_prefix, characters, is_one_line, prefixes_are_what_comes_first, same_text, strip_prefix,
    texts, trim, trimmed_between,
};
use std::collections::HashSet;
use vstd::prelude::*;
use vstd::slice::slice_subrange;
use vstd::utf8::*;

verus! {

/// The byte that ends a line.
pub const LINE_END: u8 = 0x0A;

/// The text that `String::from_utf8_lossy` makes of bytes.
pub uninterp spec fn utf8_lossy(bytes: Seq<u8>) -> Seq<char>;

/// The text of bytes.
///
/// Calls `String::from_utf8_lossy`: what is no UTF-8 is replaced, and bytes that
/// are UTF-8 throughout are decoded.
#[verifier::external_body]
fn lossy_text(bytes: &[u8]) -> (r: String)
    ensures
        r@ == utf8_lossy(bytes@),
        valid_utf8(bytes@) ==> r@ == decode_utf8(bytes@),
{
    String::from_utf8_lossy(bytes).into_owned()
}

/// What follows the last line end of some bytes.
pub open spec fn pending_line(bytes: Seq<u8>) -> Seq<u8>
    decreases bytes.len(),
{
    if bytes.len() == 0 || bytes.last() == LINE_END {
        Seq::empty()
    } else {
        pending_line(bytes.drop_last()).push(bytes.last())
    }
}

/// The lines of some bytes that have ended.
pub open spec fn ended_lines(bytes: Seq<u8>) -> Seq<Seq<u8>>
    decreases bytes.len(),
{
    if bytes.len() == 0 {
        Seq::empty()
    } else if bytes.last() == LINE_END {
        ended_lines(bytes.drop_last()).push(pending_line(bytes.drop_last()))
    } else {
        ended_lines(bytes.drop_last())
    }
}

/// The data of a line: none where the line is no data, or marks the end.
pub open spec fn line_data(line: Seq<char>) -> Option<Seq<char>> {
    match strip_prefix(trim(line), "data: "@) {
        Some(data) => if data == "[DONE]"@ {
            None
        } else {
            Some(data)
        },
        None => None,
    }
}

/// The data of the lines that have some, each line read as text.
pub open spec fn lines_data(lines: Seq<Seq<u8>>) -> Seq<Seq<char>>
    decreases lines.len(),
{
    if lines.len() == 0 {
        Seq::empty()
    } else {
        let before = lines_data(lines.drop_last());
        match line_data(utf8_lossy(lines.last())) {
            Some(data) => before.push(data),
            None => before,
        }
    }
}

/// The data of the ended lines of some bytes.
pub open spec fn bytes_data(bytes: Seq<u8>) -> Seq<Seq<char>> {
    lines_data(ended_lines(bytes))
}

/// Whether the lines that are UTF-8 are decoded.
pub open spec fn are_decoded(lines: Seq<Seq<u8>>) -> bool {
    forall|i: int|
        0 <= i < lines.len() ==> valid_utf8(#[trigger] lines[i]) ==> utf8_lossy(lines[i])
            == decode_utf8(lines[i])
}

/// The data of a line: none where the line is no data, or marks the end.
pub fn data_of(line: &str) -> (r: Option<String>)
    ensures
        match r {
            Some(data) => line_data(line@) == Some(data@),
            None => line_data(line@) is None,
        },
{
    let chars: Vec<char> = characters(line);
    let trimmed: String = trimmed_between(&chars, 0, chars.len());
    assert(chars@.subrange(0, chars@.len() as int) =~= line@);
    match after_prefix(trimmed.as_str(), "data: ") {
        Some(data) => if same_text(data.as_str(), "[DONE]") {
            None
        } else {
            Some(data)
        },
        None => None,
    }
}

/// The lines of a stream: what has come in of the line that has not ended.
#[derive(Debug, PartialEq, Eq)]
pub struct LineBuffer {
    pub pending: Vec<u8>,
}

impl LineBuffer {
    /// Nothing has come in.
    pub fn new() -> (r: LineBuffer)
        ensures
            r.pending@ == Seq::<u8>::empty(),
    {
        LineBuffer { pending: Vec::new() }
    }

    /// Takes in bytes, and hands out the data of the lines that have ended. What
    /// follows the last line end is kept until its line ends, and only then read as
    /// text.
    pub fn feed(&mut self, bytes: &[u8]) -> (r: Vec<String>)
        ensures
            texts(r@) == bytes_data(old(self).pending@ + bytes@),
            final(self).pending@ == pending_line(old(self).pending@ + bytes@),
            are_decoded(ended_lines(old(self).pending@ + bytes@)),
    {
        let mut whole: Vec<u8> = Vec::new();
        std::mem::swap(&mut whole, &mut self.pending);
        whole.extend_from_slice(bytes);
        let ghost all = whole@;
        assert(all =~= old(self).pending@ + bytes@);
        let mut out: Vec<String> = Vec::new();
        let mut start: usize = 0;
        let mut i: usize = 0;
        assert(all.take(0) =~= Seq::empty());
        assert(all.subrange(0, 0) =~= Seq::empty());
        assert(texts(out@) =~= bytes_data(all.take(0)));
        while i < whole.len()
            invariant
                start <= i <= whole@.len(),
                all == whole@,
                all.subrange(start as int, i as int) == pending_line(all.take(i as int)),
                texts(out@) == bytes_data(all.take(i as int)),
                are_decoded(ended_lines(all.take(i as int))),
            decreases whole@.len() - i,
        {
            let ghost front = all.take(i as int);
            let ghost more = all.take(i + 1);
            assert(more.drop_last() =~= front);
            assert(more.last() == all[i as int]);
            if whole[i] == LINE_END {
                let line: String = lossy_text(slice_subrange(whole.as_slice(), start, i));
                let ghost lines = ended_lines(more);
                assert(lines.drop_last() =~= ended_lines(front));
                assert(lines.last() == pending_line(front));
                assert forall|k: int|
                    0 <= k < lines.len() && valid_utf8(#[trigger] lines[k]) implies utf8_lossy(
                    lines[k],
                ) == decode_utf8(lines[k]) by {
                    if k < lines.len() - 1 {
                        assert(lines[k] == ended_lines(front)[k]);
                    }
                }
                match data_of(line.as_str()) {
                    Some(data) => {
                        let ghost before = texts(out@);
                        out.push(data);
                        assert(texts(out@) =~= before.push(data@));
                    },
                    None => {},
                }
                start = i + 1;
                assert(all.subrange(start as int, i + 1) =~= Seq::empty());
            } else {
                assert(all.subrange(start as int, i + 1) =~= all.subrange(
                    start as int,
                    i as int,
                ).push(all[i as int]));
            }
            i += 1;
        }
        assert(all.take(i as int) =~= all);
        let mut pending: Vec<u8> = Vec::new();
        pending.extend_from_slice(slice_subrange(whole.as_slice(), start, whole.len()));
        assert(pending@ =~= pending_line(all));
        self.pending = pending;
        out
    }
}

/// Lines do not depend on how the bytes are cut: what ends in some bytes and then in
/// what follows them are the lines of both together.
proof fn lemma_lines_add(a: Seq<u8>, b: Seq<u8>)
    ensures
        pending_line(a + b) == pending_line(pending_line(a) + b),
        ended_lines(a + b) == ended_lines(a) + ended_lines(pending_line(a) + b),
    decreases b.len(),
{
    let kept = pending_line(a);
    if b.len() == 0 {
        assert(a + b =~= a);
        assert(kept + b =~= kept);
        lemma_pending_has_no_line(a);
        assert(ended_lines(a) + ended_lines(kept) =~= ended_lines(a));
    } else {
        lemma_lines_add(a, b.drop_last());
        assert((a + b).drop_last() =~= a + b.drop_last());
        assert((kept + b).drop_last() =~= kept + b.drop_last());
        assert((a + b).last() == b.last());
        assert((kept + b).last() == b.last());
        assert(ended_lines(a + b) =~= ended_lines(a) + ended_lines(kept + b));
    }
}

proof fn lemma_pending_has_no_line(bytes: Seq<u8>)
    ensures
        pending_line(pending_line(bytes)) == pending_line(bytes),
        ended_lines(pending_line(bytes)) == Seq::<Seq<u8>>::empty(),
    decreases bytes.len(),
{
    if bytes.len() > 0 && bytes.last() != LINE_END {
        lemma_pending_has_no_line(bytes.drop_last());
        assert(pending_line(bytes).drop_last() =~= pending_line(bytes.drop_last()));
    }
}

proof fn lemma_lines_data_add(a: Seq<Seq<u8>>, b: Seq<Seq<u8>>)
    ensures
        lines_data(a + b) == lines_data(a) + lines_data(b),
    decreases b.len(),
{
    if b.len() == 0 {
        assert(a + b =~= a);
        assert(lines_data(a) + lines_data(b) =~= lines_data(a));
    } else {
        lemma_lines_data_add(a, b.drop_last());
        assert((a + b).drop_last() =~= a + b.drop_last());
        assert((a + b).last() == b.last());
        assert(lines_data(a + b) =~= lines_data(a) + lines_data(b));
    }
}

/// However bytes are cut in two, feeding the parts one after the other hands out the
/// data and keeps the line that feeding the whole does.
pub proof fn cuts_do_not_matter(pending: Seq<u8>, a: Seq<u8>, b: Seq<u8>)
    ensures
        bytes_data(pending + (a + b)) == bytes_data(pending + a) + bytes_data(
            pending_line(pending + a) + b,
        ),
        pending_line(pending + (a + b)) == pending_line(pending_line(pending + a) + b),
{
    assert(pending + (a + b) =~= (pending + a) + b);
    lemma_lines_add(pending + a, b);
    lemma_lines_data_add(ended_lines(pending + a), ended_lines(pending_line(pending + a) + b));
}

/// The bytes of some pieces, put together.
pub open spec fn put_together(pieces: Seq<Seq<u8>>) -> Seq<u8>
    decreases pieces.len(),
{
    if pieces.len() == 0 {
        Seq::empty()
    } else {
        put_together(pieces.drop_last()) + pieces.last()
    }
}

/// The line that is kept after some pieces are fed one after another.
pub open spec fn kept_after(pieces: Seq<Seq<u8>>) -> Seq<u8>
    decreases pieces.len(),
{
    if pieces.len() == 0 {
        Seq::empty()
    } else {
        pending_line(kept_after(pieces.drop_last()) + pieces.last())
    }
}

/// The data that are handed out when some pieces are fed one after another.
pub open spec fn data_of_pieces(pieces: Seq<Seq<u8>>) -> Seq<Seq<char>>
    decreases pieces.len(),
{
    if pieces.len() == 0 {
        Seq::empty()
    } else {
        data_of_pieces(pieces.drop_last()) + bytes_data(
            kept_after(pieces.drop_last()) + pieces.last(),
        )
    }
}

proof fn lemma_pieces(pieces: Seq<Seq<u8>>)
    ensures
        kept_after(pieces) == pending_line(put_together(pieces)),
        data_of_pieces(pieces) == bytes_data(put_together(pieces)),
    decreases pieces.len(),
{
    if pieces.len() > 0 {
        let before = put_together(pieces.drop_last());
        lemma_pieces(pieces.drop_last());
        cuts_do_not_matter(Seq::empty(), before, pieces.last());
        assert(Seq::<u8>::empty() + (before + pieces.last()) =~= before + pieces.last());
        assert(Seq::<u8>::empty() + before =~= before);
    }
}

/// What a stream hands out depends on its bytes alone: however the same bytes come
/// in, in one piece or in many, cut between characters or within them, the data are
/// those of the lines of the whole.
pub proof fn only_the_bytes_matter(pieces: Seq<Seq<u8>>, others: Seq<Seq<u8>>)
    requires
        put_together(pieces) == put_together(others),
    ensures
        data_of_pieces(pieces) == bytes_data(put_together(pieces)),
        data_of_pieces(pieces) == data_of_pieces(others),
        kept_after(pieces) == kept_after(others),
{
    lemma_pieces(pieces);
    lemma_pieces(others);
}

/// An event in the form in which it goes out.
pub open spec fn frame(name: Seq<char>, data: Seq<char>) -> Seq<char> {
    "event: "@ + name + "\ndata: "@ + data + "\n\n"@
}

/// Whether this is one event in the form in which it goes out: its name and its data
/// on a line each, and an empty line. The data spell a value whose type is the name.
pub open spec fn is_one_event(s: Seq<char>) -> bool {
    exists|name: Seq<char>, data: Seq<char>|
        {
            &&& is_one_line(name)
            &&& is_one_line(data)
            &&& json_of_text(data) matches Some(value) && value.str_at("type"@) == Some(name)
            &&& s == #[trigger] frame(name, data)
        }
}

/// Whether each of the list is one event.
pub open spec fn are_events(list: Seq<String>) -> bool {
    forall|i: int| 0 <= i < list.len() ==> is_one_event((#[trigger] list[i])@)
}

/// Events in the form in which they go out.
pub open spec fn frames(events: Seq<(Seq<char>, Seq<char>)>) -> Seq<Seq<char>> {
    Seq::new(events.len(), |i: int| frame(events[i].0, events[i].1))
}

/// The event that starts the message of which this is the first chunk.
pub open spec fn opening_frame(chunk: Option<JsonView>) -> Seq<char> {
    let (id, model) = match chunk {
        Some(chunk) => (chunk.str_or("id"@, ""@), chunk.str_or("model"@, ""@)),
        None => (Seq::empty(), Seq::empty()),
    };
    frame("message_start"@, json_text(message_start(id, model)))
}

/// How far a stream has come: whether its message has started, which blocks are
/// open, what has gone out, and whether it is intact.
pub struct Progress {
    pub sent_start: bool,
    pub blocks: Blocks,
    pub sent: Seq<Seq<char>>,
    pub intact: bool,
}

/// The progress after one more chunk. A chunk with a tool block whose index cannot
/// be held breaks the stream.
pub open spec fn after_chunk(chunk: Option<JsonView>, at: Progress) -> Progress {
    let opened = if at.sent_start {
        at.sent
    } else {
        at.sent.push(opening_frame(chunk))
    };
    if text_fits(chunk) {
        Progress {
            sent_start: true,
            blocks: blocks_after_text(chunk, at.blocks),
            sent: opened + frames(rendered_all(text_events(chunk, at.blocks))),
            intact: true,
        }
    } else {
        Progress { sent_start: true, blocks: at.blocks, sent: opened, intact: false }
    }
}

/// The progress after the chunks that some data spell, up to one that breaks the
/// stream.
pub open spec fn after_data(data: Seq<Seq<char>>, at: Progress) -> Progress
    decreases data.len(),
{
    if data.len() == 0 {
        at
    } else {
        let before = after_data(data.drop_last(), at);
        if before.intact {
            after_chunk(json_of_text(data.last()), before)
        } else {
            before
        }
    }
}

fn framed(name: &str, data: &str) -> (r: String)
    ensures
        r@ == frame(name@, data@),
{
    "event: ".to_owned().concat(name).concat("\ndata: ").concat(data).concat("\n\n")
}

/// What goes out before anything has come in.
pub const PING: &'static str = "event: ping\ndata: {\"type\":\"ping\"}\n\n";

/// An OpenAI stream that goes out as an Anthropic stream.
#[derive(Debug)]
pub struct AnthropicStream {
    pub lines: LineBuffer,
    pub sent_start: bool,
    pub has_text: bool,
    pub opened_tools: HashSet<usize>,
}

impl AnthropicStream {
    /// The blocks that are open.
    pub open spec fn blocks(self) -> Blocks {
        Blocks { has_text: self.has_text, tools: self.opened_tools@ }
    }

    /// How far the stream has come, of which this has gone out so far.
    pub open spec fn progress(self, sent: Seq<Seq<char>>) -> Progress {
        Progress { sent_start: self.sent_start, blocks: self.blocks(), sent, intact: true }
    }

    /// Nothing has come in.
    pub fn new() -> (r: AnthropicStream)
        ensures
            r.lines.pending@ == Seq::<u8>::empty(),
            !r.sent_start,
            r.blocks() == no_blocks(),
    {
        AnthropicStream {
            lines: LineBuffer::new(),
            sent_start: false,
            has_text: false,
            opened_tools: HashSet::new(),
        }
    }

    /// Appends what goes out for a chunk, and says whether the stream is intact.
    pub fn push_chunk(&mut self, chunk: Option<&Json>, out: &mut Vec<String>) -> (r: bool)
        ensures
            final(self).lines == old(self).lines,
            (Progress {
                sent_start: final(self).sent_start,
                blocks: final(self).blocks(),
                sent: texts(final(out)@),
                intact: r,
            }) == after_chunk(opt_view(chunk), old(self).progress(texts(old(out)@))),
            are_events(old(out)@) ==> are_events(final(out)@),
    {
        let ghost at = self.progress(texts(out@));
        if !self.sent_start {
            self.sent_start = true;
            let ghost before = texts(out@);
            let opening: Json = match chunk {
                Some(chunk) => message_start_of(chunk.str_or("id", ""), chunk.str_or("model", "")),
                None => {
                    let none: String = String::new();
                    message_start_of(none.as_str(), none.as_str())
                },
            };
            proof {
                reveal_strlit("message_start");
                match opt_view(chunk) {
                    Some(chunk) => {
                        lemma_message_start(chunk.str_or("id"@, ""@), chunk.str_or("model"@, ""@));
                    },
                    None => {
                        lemma_message_start(Seq::empty(), Seq::empty());
                    },
                }
            }
            let data: String = opening.to_text();
            out.push(framed("message_start", data.as_str()));
            assert(is_one_event(frame("message_start"@, data@)));
            assert(texts(out@) =~= before.push(opening_frame(opt_view(chunk))));
        }
        let ghost opened = texts(out@);
        match chunk {
            Some(chunk) => {
                if !is_chunk_fit(chunk) {
                    return false;
                }
                let events: Vec<StreamEvent> = chunk_to_events(
                    chunk,
                    &mut self.has_text,
                    &mut self.opened_tools,
                );
                let rendered: Vec<(String, String)> = render_all(&events);
                let ghost wanted = frames(pairs(rendered@));
                let mut i: usize = 0;
                while i < rendered.len()
                    invariant
                        i <= rendered@.len(),
                        wanted == frames(pairs(rendered@)),
                        texts(out@) == opened + wanted.take(i as int),
                        rendered@.len() == events@.len(),
                        pairs(rendered@) == rendered_all(events_view(events@)),
                        are_one_line(rendered@),
                        spell_payloads(pairs(rendered@), events_view(events@)),
                        are_events(old(out)@) ==> are_events(out@),
                    decreases rendered@.len() - i,
                {
                    let ghost before = texts(out@);
                    proof {
                        let event = events@[i as int];
                        lemma_payload(event);
                        assert(pairs(rendered@)[i as int] == rendered_all(
                            events_view(events@),
                        )[i as int]);
                        assert(is_one_event(
                            frame(rendered@[i as int].0@, rendered@[i as int].1@),
                        ));
                    }
                    out.push(framed(rendered[i].0.as_str(), rendered[i].1.as_str()));
                    assert(texts(out@) =~= before.push(wanted[i as int]));
                    assert(texts(out@) =~= opened + wanted.take(i + 1));
                    i += 1;
                }
                assert(wanted.take(i as int) =~= wanted);
            },
            None => {
                assert(opened =~= opened + frames(rendered_all(text_events(None, at.blocks))));
            },
        }
        true
    }

    /// Takes in bytes, and hands out what goes out for the lines that have ended,
    /// and whether the stream is intact.
    pub fn feed(&mut self, bytes: &[u8]) -> (r: (Vec<String>, bool))
        ensures
            final(self).lines.pending@ == pending_line(old(self).lines.pending@ + bytes@),
            (Progress {
                sent_start: final(self).sent_start,
                blocks: final(self).blocks(),
                sent: texts(r.0@),
                intact: r.1,
            }) == after_data(
                bytes_data(old(self).lines.pending@ + bytes@),
                old(self).progress(Seq::empty()),
            ),
            are_events(r.0@),
            are_decoded(ended_lines(old(self).lines.pending@ + bytes@)),
    {
        let ghost at = self.progress(Seq::empty());
        let data: Vec<String> = self.lines.feed(bytes);
        let ghost all = texts(data@);
        let mut out: Vec<String> = Vec::new();
        let mut intact: bool = true;
        let mut i: usize = 0;
        assert(texts(out@) =~= Seq::empty());
        assert(all.take(0) =~= Seq::empty());
        while i < data.len()
            invariant
                i <= data@.len(),
                all == texts(data@),
                self.lines.pending@ == pending_line(old(self).lines.pending@ + bytes@),
                (Progress {
                    sent_start: self.sent_start,
                    blocks: self.blocks(),
                    sent: texts(out@),
                    intact,
                }) == after_data(all.take(i as int), at),
                are_events(out@),
            decreases data@.len() - i,
        {
            assert(all.take(i + 1).drop_last() =~= all.take(i as int));
            assert(all.take(i + 1).last() == data@[i as int]@);
            if intact {
                let chunk: Option<Json> = Json::parse(data[i].as_str());
                intact = self.push_chunk(chunk.as_ref(), &mut out);
            }
            i += 1;
        }
        assert(all.take(i as int) =~= all);
        (out, intact)
    }
}

/// What has gone out before does not bear on what goes out.
pub proof fn what_has_gone_out_does_not_matter(data: Seq<Seq<char>>, at: Progress)
    ensures
        after_data(data, at) == (Progress {
            sent: at.sent + after_data(data, Progress { sent: Seq::empty(), ..at }).sent,
            ..after_data(data, Progress { sent: Seq::empty(), ..at })
        }),
    decreases data.len(),
{
    let fresh = Progress { sent: Seq::empty(), ..at };
    if data.len() == 0 {
        assert(at.sent + Seq::<Seq<char>>::empty() =~= at.sent);
    } else {
        what_has_gone_out_does_not_matter(data.drop_last(), at);
        let before = after_data(data.drop_last(), at);
        let alone = after_data(data.drop_last(), fresh);
        if before.intact {
            let chunk = json_of_text(data.last());
            assert(after_chunk(chunk, before).sent =~= at.sent + after_chunk(chunk, alone).sent);
        }
    }
}

proof fn lemma_after_data_add(a: Seq<Seq<char>>, b: Seq<Seq<char>>, at: Progress)
    ensures
        after_data(a + b, at) == after_data(b, after_data(a, at)),
    decreases b.len(),
{
    if b.len() == 0 {
        assert(a + b =~= a);
    } else {
        lemma_after_data_add(a, b.drop_last(), at);
        assert((a + b).drop_last() =~= a + b.drop_last());
        assert((a + b).last() == b.last());
    }
}

/// How far a stream has come when some pieces are fed one after another, up to one
/// that breaks it.
pub open spec fn after_pieces(pieces: Seq<Seq<u8>>, at: Progress) -> Progress
    decreases pieces.len(),
{
    if pieces.len() == 0 {
        at
    } else {
        after_data(
            bytes_data(kept_after(pieces.drop_last()) + pieces.last()),
            after_pieces(pieces.drop_last(), at),
        )
    }
}

proof fn lemma_after_pieces(pieces: Seq<Seq<u8>>, at: Progress)
    ensures
        after_pieces(pieces, at) == after_data(data_of_pieces(pieces), at),
    decreases pieces.len(),
{
    if pieces.len() > 0 {
        lemma_after_pieces(pieces.drop_last(), at);
        lemma_after_data_add(
            data_of_pieces(pieces.drop_last()),
            bytes_data(kept_after(pieces.drop_last()) + pieces.last()),
            at,
        );
    }
}

/// What goes out for a stream depends on its bytes alone: however the same bytes come
/// in, in one piece or in many, cut between characters or within them, what goes out
/// is what goes out for the data of the lines of the whole.
pub proof fn cuts_do_not_change_what_goes_out(
    pieces: Seq<Seq<u8>>,
    others: Seq<Seq<u8>>,
    at: Progress,
)
    requires
        put_together(pieces) == put_together(others),
    ensures
        after_pieces(pieces, at) == after_data(bytes_data(put_together(pieces)), at),
        after_pieces(pieces, at) == after_pieces(others, at),
{
    only_the_bytes_matter(pieces, others);
    lemma_after_pieces(pieces, at);
    lemma_after_pieces(others, at);
}

/// The first that goes out for a stream is the start of its message, which from
/// then on counts as sent.
pub proof fn streams_begin_with_a_message_start(data: Seq<Seq<char>>, at: Progress)
    requires
        data.len() > 0,
        !at.sent_start,
        at.intact,
        at.sent == Seq::<Seq<char>>::empty(),
    ensures
        after_data(data, at).sent_start,
        after_data(data, at).sent.len() > 0,
        after_data(data, at).sent[0] == opening_frame(json_of_text(data[0])),
        forall|more: Seq<Seq<char>>|
            (#[trigger] after_data(more, after_data(data, at))).sent_start,
    decreases data.len(),
{
    let front = data.drop_last();
    if front.len() == 0 {
        assert(after_data(front, at) == at);
    } else {
        streams_begin_with_a_message_start(front, at);
        assert(front[0] == data[0]);
    }
    let there = after_data(data, at);
    assert forall|more: Seq<Seq<char>>| (#[trigger] after_data(more, there)).sent_start by {
        lemma_start_stays(more, there);
    }
}

/// The chunks that some data spell.
pub open spec fn chunks_of(data: Seq<Seq<char>>) -> Seq<JsonView>
    decreases data.len(),
{
    if data.len() == 0 {
        Seq::empty()
    } else {
        match json_of_text(data.last()) {
            Some(chunk) => chunks_of(data.drop_last()).push(chunk),
            None => chunks_of(data.drop_last()),
        }
    }
}

/// A stream at its beginning.
pub open spec fn beginning() -> Progress {
    Progress { sent_start: false, blocks: no_blocks(), sent: Seq::empty(), intact: true }
}

proof fn lemma_frames_add(a: Seq<StreamEventView>, b: Seq<StreamEventView>)
    ensures
        frames(rendered_all(a + b)) == frames(rendered_all(a)) + frames(rendered_all(b)),
{
    assert(frames(rendered_all(a + b)) =~= frames(rendered_all(a)) + frames(rendered_all(b)));
}

/// A stream that stays intact goes out as the start of its message and the events
/// of its chunks, and as nothing else.
pub proof fn streams_go_out_as_their_events(data: Seq<Seq<char>>)
    ensures
        ({
            let chunks = chunks_of(data);
            let end = after_data(data, beginning());
            end.intact ==> {
                &&& end.sent == if data.len() > 0 {
                    seq![opening_frame(json_of_text(data[0]))] + frames(
                        rendered_all(stream_events(chunks)),
                    )
                } else {
                    Seq::empty()
                }
                &&& end.blocks == stream_blocks(chunks)
                &&& forall|i: int| 0 <= i < chunks.len() ==> chunk_fits(#[trigger] chunks[i])
            }
        }),
    decreases data.len(),
{
    let chunks = chunks_of(data);
    let end = after_data(data, beginning());
    if data.len() > 0 && end.intact {
        let front = data.drop_last();
        let before = after_data(front, beginning());
        let chunk = json_of_text(data.last());
        let opening = seq![opening_frame(json_of_text(data[0]))];
        streams_go_out_as_their_events(front);
        let events = text_events(chunk, before.blocks);
        let earlier = stream_events(chunks_of(front));
        assert(stream_events(chunks) =~= earlier + events) by {
            if chunk is Some {
                assert(chunks.drop_last() =~= chunks_of(front));
            }
        }
        lemma_frames_add(earlier, events);
        if front.len() == 0 {
            assert(earlier =~= Seq::empty());
            assert(end.sent =~= opening + frames(rendered_all(stream_events(chunks))));
        } else {
            streams_begin_with_a_message_start(front, beginning());
            assert(front[0] == data[0]);
            assert(end.sent =~= opening + frames(rendered_all(stream_events(chunks))));
        }
        assert(end.blocks == stream_blocks(chunks)) by {
            if chunk is Some {
                assert(chunks.drop_last() =~= chunks_of(front));
            }
        }
    }
}

proof fn lemma_start_stays(data: Seq<Seq<char>>, at: Progress)
    requires
        at.sent_start,
    ensures
        after_data(data, at).sent_start,
    decreases data.len(),
{
    if data.len() > 0 {
        lemma_start_stays(data.drop_last(), at);
    }
}

/// Each event goes out as a frame: a line with its name, a line with its data, and an
/// empty line. The first starts the message, with the id and the model of the first
/// chunk.
pub proof fn events_go_out_in_frames(data: Seq<Seq<char>>)
    requires
        data.len() > 0,
    ensures
        ({
            let events = stream_events(chunks_of(data));
            let end = after_data(data, beginning());
            let first = match json_of_text(data[0]) {
                Some(chunk) => chunk,
                None => JsonView::Null,
            };
            let start = message_start(text_under(first, "id"@), text_under(first, "model"@));
            end.intact ==> {
                &&& end.sent.len() == 1 + events.len()
                &&& end.sent[0] == "event: "@ + "message_start"@ + "\ndata: "@ + json_text(start)
                    + "\n\n"@
                &&& forall|i: int|
                    0 <= i < events.len() ==> end.sent[i + 1] == "event: "@ + (
                    #[trigger] events[i]).name() + "\ndata: "@ + json_text(events[i].payload())
                        + "\n\n"@
            }
        }),
{
    streams_go_out_as_their_events(data);
    reveal_strlit("");
    assert(""@ =~= Seq::<char>::empty());
}

/// Lines end at line ends and nowhere else: a line that has ended gives its data, and
/// what follows the last line end is kept. The data of a line are what follows
/// `data: ` in it when it is trimmed, unless that is `[DONE]`.
pub proof fn lines_end_at_line_ends(line: Seq<u8>, before: Seq<u8>, after: Seq<u8>, data: Seq<char>)
    requires
        !line.contains(10u8),
    ensures
        bytes_data(line) == Seq::<Seq<char>>::empty(),
        pending_line(before + seq![10u8] + line) == line,
        pending_line(line) == line,
        bytes_data(line + seq![10u8] + after) == bytes_data(line + seq![10u8]) + bytes_data(after),
        bytes_data(line + seq![10u8]).len() <= 1,
        bytes_data(line + seq![10u8]) == seq![data] <==> trim(utf8_lossy(line)) == "data: "@ + data
            && data != "[DONE]"@,
{
    let empty = Seq::<u8>::empty();
    lemma_line_without_end(line);
    let ended = line + seq![10u8];
    assert(ended.drop_last() =~= line);
    assert(pending_line(ended) == empty);
    let lines = ended_lines(ended);
    assert(lines =~= seq![line]);
    assert(lines.drop_last() =~= Seq::empty());
    assert(lines_data(lines.drop_last()) =~= Seq::empty());
    prefixes_are_what_comes_first(trim(utf8_lossy(line)), "data: "@, data);
    match line_data(utf8_lossy(line)) {
        Some(own) => {
            assert(bytes_data(ended) =~= seq![own]);
            assert(seq![own][0] == own && seq![data][0] == data);
        },
        None => {
            assert(bytes_data(ended) =~= Seq::empty());
            assert(seq![data].len() == 1);
        },
    }
    lemma_lines_add(ended, after);
    assert(empty + after =~= after);
    lemma_lines_data_add(ended_lines(ended), ended_lines(after));
    let earlier = before + seq![10u8];
    assert(earlier.last() == 10u8);
    lemma_lines_add(earlier, line);
    assert(pending_line(earlier) == empty);
    assert(empty + line =~= line);
}

proof fn lemma_line_without_end(line: Seq<u8>)
    requires
        !line.contains(10u8),
    ensures
        pending_line(line) == line,
        ended_lines(line) == Seq::<Seq<u8>>::empty(),
    decreases line.len(),
{
    if line.len() > 0 {
        assert(line.contains(line[line.len() - 1]));
        let less = line.drop_last();
        assert forall|x: u8| less.contains(x) implies line.contains(x) by {
            let i = choose|i: int| 0 <= i < less.len() && less[i] == x;
            assert(line[i] == x);
        }
        lemma_line_without_end(less);
        assert(pending_line(line) =~= line);
    }
}

/// A stream is intact as long as all its chunks fit, and once it is not, nothing more goes
/// out. What is no chunk does not break it.
pub proof fn streams_break_off_at_chunks_that_do_not_fit(
    data: Seq<Seq<char>>,
    more: Seq<Seq<char>>,
)
    ensures
        after_data(data, beginning()).intact <==> forall|i: int|
            0 <= i < data.len() ==> (json_of_text(#[trigger] data[i]) matches Some(chunk)
                ==> chunk_fits(chunk)),
        !after_data(data, beginning()).intact ==> after_data(data + more, beginning())
            == after_data(data, beginning()),
    decreases data.len() + more.len(),
{
    if more.len() > 0 {
        streams_break_off_at_chunks_that_do_not_fit(data, more.drop_last());
        assert((data + more).drop_last() =~= data + more.drop_last());
    } else {
        assert(data + more =~= data);
        if data.len() > 0 {
            let front = data.drop_last();
            streams_break_off_at_chunks_that_do_not_fit(front, more);
            assert(forall|i: int| 0 <= i < front.len() ==> front[i] == data[i]);
            assert(data[data.len() - 1] == data.last());
            let fit = |d: Seq<char>| (json_of_text(d) matches Some(chunk) ==> chunk_fits(chunk));
            assert(after_data(data, beginning()).intact <==> after_data(front, beginning()).intact
                && fit(data.last()));
            if after_data(front, beginning()).intact && fit(data.last()) {
                assert forall|i: int| 0 <= i < data.len() implies (json_of_text(
                    #[trigger] data[i],
                ) matches Some(chunk) ==> chunk_fits(chunk)) by {
                    if i < front.len() {
                        assert(front[i] == data[i]);
                    }
                }
            } else if !after_data(front, beginning()).intact {
                let i = choose|i: int|
                    0 <= i < front.len() && !(json_of_text(#[trigger] front[i]) matches Some(chunk)
                        ==> chunk_fits(chunk));
                assert(data[i] == front[i]);
            }
        }
    }
}

/// Of a chunk that breaks a stream nothing goes out, unless it is the first: then the
/// message is started all the same.
pub proof fn nothing_of_a_chunk_that_does_not_fit_goes_out(data: Seq<Seq<char>>)
    requires
        data.len() > 0,
        after_data(data.drop_last(), beginning()).intact,
        !after_data(data, beginning()).intact,
    ensures
        ({
            let end = after_data(data, beginning());
            let first = match json_of_text(data[0]) {
                Some(chunk) => chunk,
                None => JsonView::Null,
            };
            let start = message_start(text_under(first, "id"@), text_under(first, "model"@));
            &&& data.len() > 1 ==> end.sent == after_data(data.drop_last(), beginning()).sent
            &&& data.len() == 1 ==> end.sent == seq![
                "event: "@ + "message_start"@ + "\ndata: "@ + json_text(start) + "\n\n"@,
            ]
        }),
{
    reveal_strlit("");
    assert(""@ =~= Seq::<char>::empty());
    let front = data.drop_last();
    if front.len() > 0 {
        streams_begin_with_a_message_start(front, beginning());
    } else {
        assert(after_data(front, beginning()) == beginning());
        assert(data[0] == data.last());
    }
}

} // verus!
