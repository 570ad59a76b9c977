//! Texts: what is asked of them and how they are cut and joined.

use vstd::prelude::*;

verus! {

/// `String::push`: appends one character.
pub assume_specification[ std::string::String::push ](s: &mut std::string::String, c: char)
    ensures
        final(s)@ == old(s)@.push(c),
;

/// The characters that Unicode lists under `White_Space`.
pub open spec fn is_whitespace(c: char) -> bool {
    let n = c as int;
    ||| 0x09 <= n <= 0x0D
    ||| n == 0x20
    ||| n == 0x85
    ||| n == 0xA0
    ||| n == 0x1680
    ||| 0x2000 <= n <= 0x200A
    ||| 0x2028 <= n <= 0x2029
    ||| n == 0x202F
    ||| n == 0x205F
    ||| n == 0x3000
}

/// The text without its leading whitespace.
pub open spec fn trim_start(s: Seq<char>) -> Seq<char>
    decreases s.len(),
{
    if s.len() > 0 && is_whitespace(s[0]) {
        trim_start(s.drop_first())
    } else {
        s
    }
}

/// The text without its trailing whitespace.
pub open spec fn trim_end(s: Seq<char>) -> Seq<char>
    decreases s.len(),
{
    if s.len() > 0 && is_whitespace(s.last()) {
        trim_end(s.drop_last())
    } else {
        s
    }
}

/// The text without whitespace at either end.
pub open spec fn trim(s: Seq<char>) -> Seq<char> {
    trim_end(trim_start(s))
}

/// The text without the given character at its end, however often it stands there.
pub open spec fn trim_end_char(s: Seq<char>, c: char) -> Seq<char>
    decreases s.len(),
{
    if s.len() > 0 && s.last() == c {
        trim_end_char(s.drop_last(), c)
    } else {
        s
    }
}

/// Whether no line ends in the text.
pub open spec fn is_one_line(s: Seq<char>) -> bool {
    forall|i: int| 0 <= i < s.len() ==> s[i] != '\n' && s[i] != '\r'
}

/// Whether the text begins with `prefix`.
pub open spec fn has_prefix(s: Seq<char>, prefix: Seq<char>) -> bool {
    prefix.len() <= s.len() && s.take(prefix.len() as int) == prefix
}

/// What follows `prefix` in a text that begins with it.
pub open spec fn strip_prefix(s: Seq<char>, prefix: Seq<char>) -> Option<Seq<char>> {
    if has_prefix(s, prefix) {
        Some(s.skip(prefix.len() as int))
    } else {
        None
    }
}

/// The text without `prefix`, where it begins with it, else the whole text.
pub open spec fn without_prefix(s: Seq<char>, prefix: Seq<char>) -> Seq<char> {
    match strip_prefix(s, prefix) {
        Some(rest) => rest,
        None => s,
    }
}

/// Whether `needle` stands in the text at that position.
pub open spec fn stands_at(s: Seq<char>, needle: Seq<char>, at: int) -> bool {
    0 <= at && at + needle.len() <= s.len() && s.subrange(at, at + needle.len()) == needle
}

/// Whether `needle` stands somewhere in the text.
pub open spec fn contains(s: Seq<char>, needle: Seq<char>) -> bool {
    exists|at: int| stands_at(s, needle, at)
}

/// The parts one after another, with `separator` between two of them.
pub open spec fn join(parts: Seq<Seq<char>>, separator: Seq<char>) -> Seq<char>
    decreases parts.len(),
{
    if parts.len() == 0 {
        Seq::empty()
    } else if parts.len() == 1 {
        parts[0]
    } else {
        join(parts.drop_last(), separator) + separator + parts.last()
    }
}

/// The text without `needle` wherever it stands, as it is met from the left.
pub open spec fn without_all(s: Seq<char>, needle: Seq<char>) -> Seq<char>
    decreases s.len(),
{
    if s.len() == 0 {
        s
    } else if needle.len() > 0 && has_prefix(s, needle) {
        without_all(s.skip(needle.len() as int), needle)
    } else {
        seq![s[0]] + without_all(s.drop_first(), needle)
    }
}

/// The text up to the first place where the given character stands.
pub open spec fn before_char(s: Seq<char>, c: char) -> Seq<char>
    decreases s.len(),
{
    if s.len() == 0 || s[0] == c {
        Seq::empty()
    } else {
        seq![s[0]] + before_char(s.drop_first(), c)
    }
}

/// The texts of a list.
pub open spec fn texts(list: Seq<String>) -> Seq<Seq<char>> {
    Seq::new(list.len(), |i: int| list[i]@)
}

/// Whether two texts are the same.
pub fn same_text(a: &str, b: &str) -> (r: bool)
    ensures
        r == (a@ == b@),
{
    a.to_owned() == b.to_owned()
}

/// The characters of a text.
pub fn characters(s: &str) -> (r: Vec<char>)
    ensures
        r@ == s@,
{
    let mut out: Vec<char> = Vec::new();
    for c in it: s.chars()
        invariant
            it.seq() == s@,
            out@ == s@.take(it.index() as int),
    {
        out.push(c);
    }
    assert(s@.take(s@.len() as int) =~= s@);
    out
}

/// The text made of the characters from position `from` up to position `to`.
pub fn text_between(chars: &Vec<char>, from: usize, to: usize) -> (r: String)
    requires
        from <= to <= chars@.len(),
    ensures
        r@ == chars@.subrange(from as int, to as int),
{
    let mut out: String = String::new();
    let mut i: usize = from;
    while i < to
        invariant
            from <= i <= to <= chars@.len(),
            out@ == chars@.subrange(from as int, i as int),
        decreases to - i,
    {
        out.push(chars[i]);
        i += 1;
        assert(out@ =~= chars@.subrange(from as int, i as int));
    }
    out
}

/// Whether a character is whitespace.
pub fn whitespace(c: char) -> (r: bool)
    ensures
        r == is_whitespace(c),
{
    let n: u32 = c as u32;
    (0x09 <= n && n <= 0x0D) || n == 0x20 || n == 0x85 || n == 0xA0 || n == 0x1680 || (0x2000 <= n
        && n <= 0x200A) || n == 0x2028 || n == 0x2029 || n == 0x202F || n == 0x205F || n == 0x3000
}

/// Where the trailing whitespace of `chars` between `from` and `to` begins.
fn trailing_cut(chars: &Vec<char>, from: usize, to: usize) -> (r: usize)
    requires
        from <= to <= chars@.len(),
    ensures
        from <= r <= to,
        chars@.subrange(from as int, r as int) == trim_end(chars@.subrange(from as int, to as int)),
{
    let mut end: usize = to;
    while end > from && whitespace(chars[end - 1])
        invariant
            from <= end <= to <= chars@.len(),
            trim_end(chars@.subrange(from as int, end as int)) == trim_end(
                chars@.subrange(from as int, to as int),
            ),
        decreases end,
    {
        assert(chars@.subrange(from as int, end as int).drop_last() =~= chars@.subrange(
            from as int,
            end - 1,
        ));
        end -= 1;
    }
    end
}

/// The text of `chars` between `from` and `to`, without whitespace at either end.
pub fn trimmed_between(chars: &Vec<char>, from: usize, to: usize) -> (r: String)
    requires
        from <= to <= chars@.len(),
    ensures
        r@ == trim(chars@.subrange(from as int, to as int)),
{
    let mut start: usize = from;
    while start < to && whitespace(chars[start])
        invariant
            from <= start <= to <= chars@.len(),
            trim_start(chars@.subrange(start as int, to as int)) == trim_start(
                chars@.subrange(from as int, to as int),
            ),
        decreases to - start,
    {
        assert(chars@.subrange(start as int, to as int).drop_first() =~= chars@.subrange(
            start + 1,
            to as int,
        ));
        start += 1;
    }
    let end: usize = trailing_cut(chars, start, to);
    text_between(chars, start, end)
}

/// The text without its trailing whitespace.
pub fn without_trailing_whitespace(s: &str) -> (r: String)
    ensures
        r@ == trim_end(s@),
{
    let chars: Vec<char> = characters(s);
    let end: usize = trailing_cut(&chars, 0, chars.len());
    assert(chars@.subrange(0, chars@.len() as int) =~= s@);
    text_between(&chars, 0, end)
}

/// The text without the given character at its end, however often it stands there.
pub fn without_trailing_char(s: &str, c: char) -> (r: String)
    ensures
        r@ == trim_end_char(s@, c),
{
    let chars: Vec<char> = characters(s);
    let mut end: usize = chars.len();
    assert(chars@.subrange(0, chars@.len() as int) =~= s@);
    while end > 0 && chars[end - 1] == c
        invariant
            end <= chars@.len(),
            trim_end_char(chars@.subrange(0, end as int), c) == trim_end_char(s@, c),
        decreases end,
    {
        assert(chars@.subrange(0, end as int).drop_last() =~= chars@.subrange(0, end - 1));
        end -= 1;
    }
    text_between(&chars, 0, end)
}

/// Whether `needle` stands in `chars` at that position.
fn standing_at(chars: &Vec<char>, needle: &Vec<char>, at: usize) -> (r: bool)
    requires
        at <= chars@.len(),
    ensures
        r == stands_at(chars@, needle@, at as int),
{
    if needle.len() > chars.len() - at {
        return false;
    }
    let mut i: usize = 0;
    while i < needle.len()
        invariant
            i <= needle@.len(),
            at + needle.len() <= chars.len(),
            forall|k: int| 0 <= k < i ==> chars@[at + k] == needle@[k],
        decreases needle@.len() - i,
    {
        if chars[at + i] != needle[i] {
            proof {
                if stands_at(chars@, needle@, at as int) {
                    assert(chars@.subrange(at as int, at + needle@.len())[i as int]
                        == needle@[i as int]);
                }
            }
            return false;
        }
        i += 1;
    }
    assert(chars@.subrange(at as int, at + needle@.len()) =~= needle@);
    true
}

/// What follows `prefix` in a text that begins with it.
pub fn after_prefix(s: &str, prefix: &str) -> (r: Option<String>)
    ensures
        match r {
            Some(rest) => strip_prefix(s@, prefix@) == Some(rest@),
            None => strip_prefix(s@, prefix@) is None,
        },
{
    let chars: Vec<char> = characters(s);
    let head: Vec<char> = characters(prefix);
    if standing_at(&chars, &head, 0) {
        let rest: String = text_between(&chars, head.len(), chars.len());
        assert(s@.take(prefix@.len() as int) =~= s@.subrange(0, prefix@.len() as int));
        assert(rest@ =~= s@.skip(prefix@.len() as int));
        Some(rest)
    } else {
        proof {
            if has_prefix(s@, prefix@) {
                assert(s@.take(prefix@.len() as int) =~= s@.subrange(0, prefix@.len() as int));
            }
        }
        None
    }
}

/// The text without `prefix`, where it begins with it, else the whole text.
pub fn dropping_prefix(s: &str, prefix: &str) -> (r: String)
    ensures
        r@ == without_prefix(s@, prefix@),
{
    match after_prefix(s, prefix) {
        Some(rest) => rest,
        None => s.to_owned(),
    }
}

/// Whether `needle` stands somewhere in the text.
pub fn containing(s: &str, needle: &str) -> (r: bool)
    ensures
        r == contains(s@, needle@),
{
    let chars: Vec<char> = characters(s);
    let wanted: Vec<char> = characters(needle);
    let mut at: usize = 0;
    while at < chars.len()
        invariant
            chars@ == s@,
            wanted@ == needle@,
            at <= chars@.len(),
            forall|k: int| 0 <= k < at ==> !stands_at(s@, needle@, k),
        decreases chars@.len() - at,
    {
        if standing_at(&chars, &wanted, at) {
            return true;
        }
        at += 1;
    }
    standing_at(&chars, &wanted, at)
}

/// The text without `needle` wherever it stands, as it is met from the left.
pub fn dropping_all(s: &str, needle: &str) -> (r: String)
    ensures
        r@ == without_all(s@, needle@),
{
    let chars: Vec<char> = characters(s);
    let dropped: Vec<char> = characters(needle);
    let mut out: String = String::new();
    let mut i: usize = 0;
    assert(s@.skip(0) =~= s@);
    while i < chars.len()
        invariant
            chars@ == s@,
            dropped@ == needle@,
            i <= chars.len(),
            out@ + without_all(s@.skip(i as int), needle@) == without_all(s@, needle@),
        decreases chars@.len() - i,
    {
        let ghost rest = s@.skip(i as int);
        let found: bool = dropped.len() > 0 && standing_at(&chars, &dropped, i);
        if found {
            assert(rest.take(needle@.len() as int) =~= s@.subrange(i as int, i + needle@.len()));
            assert(rest.skip(needle@.len() as int) =~= s@.skip(i + needle@.len()));
            i += dropped.len();
        } else {
            assert(!(needle@.len() > 0 && has_prefix(rest, needle@))) by {
                if needle@.len() > 0 && has_prefix(rest, needle@) {
                    assert(rest.take(needle@.len() as int) =~= s@.subrange(
                        i as int,
                        i + needle@.len(),
                    ));
                }
            }
            assert(rest.drop_first() =~= s@.skip(i + 1));
            let ghost before = out@;
            out.push(chars[i]);
            i += 1;
            assert(out@ + without_all(s@.skip(i as int), needle@) =~= before + without_all(
                rest,
                needle@,
            ));
        }
    }
    assert(s@.skip(i as int) =~= Seq::empty());
    out
}

/// The text up to the first place where the given character stands.
pub fn part_before(s: &str, c: char) -> (r: String)
    ensures
        r@ == before_char(s@, c),
{
    let chars: Vec<char> = characters(s);
    let mut out: String = String::new();
    let mut i: usize = 0;
    assert(s@.skip(0) =~= s@);
    while i < chars.len() && chars[i] != c
        invariant
            chars@ == s@,
            i <= chars@.len(),
            out@ + before_char(s@.skip(i as int), c) == before_char(s@, c),
        decreases chars@.len() - i,
    {
        let ghost rest = s@.skip(i as int);
        let ghost before = out@;
        assert(rest.drop_first() =~= s@.skip(i + 1));
        out.push(chars[i]);
        i += 1;
        assert(out@ + before_char(s@.skip(i as int), c) =~= before + before_char(rest, c));
    }
    out
}

/// The parts one after another, with `separator` between two of them.
pub fn joined(parts: &Vec<String>, separator: &str) -> (r: String)
    ensures
        r@ == join(texts(parts@), separator@),
{
    let mut out: String = String::new();
    let mut i: usize = 0;
    while i < parts.len()
        invariant
            i <= parts@.len(),
            out@ == join(texts(parts@).take(i as int), separator@),
        decreases parts@.len() - i,
    {
        let ghost done = texts(parts@).take(i + 1);
        assert(done.drop_last() =~= texts(parts@).take(i as int));
        if i > 0 {
            out.append(separator);
        }
        out.append(parts[i].as_str());
        assert(out@ =~= join(done, separator@));
        i += 1;
    }
    assert(texts(parts@).take(i as int) =~= texts(parts@));
    out
}

/// A text is joined to others with the separator between them, and alone is as it is.
pub proof fn parts_are_joined_by_the_separator(
    a: Seq<Seq<char>>,
    b: Seq<Seq<char>>,
    part: Seq<char>,
    separator: Seq<char>,
)
    ensures
        join(Seq::empty(), separator) == Seq::<char>::empty(),
        join(seq![part], separator) == part,
        a.len() > 0 && b.len() > 0 ==> join(a + b, separator) == join(a, separator) + separator
            + join(b, separator),
    decreases b.len(),
{
    if a.len() > 0 && b.len() > 0 {
        assert((a + b).drop_last() =~= a + b.drop_last());
        assert((a + b).last() == b.last());
        if b.len() == 1 {
            assert(a + b.drop_last() =~= a);
            assert(join(a + b, separator) =~= join(a, separator) + separator + join(b, separator));
        } else {
            parts_are_joined_by_the_separator(a, b.drop_last(), part, separator);
            assert(join(a + b, separator) =~= join(a, separator) + separator + join(b, separator));
        }
    }
}

/// A text begins with a prefix where it is the prefix and a rest, and the rest is
/// what follows.
pub proof fn prefixes_are_what_comes_first(s: Seq<char>, prefix: Seq<char>, rest: Seq<char>)
    ensures
        strip_prefix(s, prefix) == Some(rest) <==> s == prefix + rest,
        strip_prefix(s, prefix) is None ==> without_prefix(s, prefix) == s,
        without_prefix(prefix + rest, prefix) == rest,
        has_prefix(s, prefix) <==> strip_prefix(s, prefix) is Some,
{
    let whole = prefix + rest;
    assert(whole.take(prefix.len() as int) =~= prefix);
    assert(whole.skip(prefix.len() as int) =~= rest);
    if has_prefix(s, prefix) {
        assert(s =~= prefix + s.skip(prefix.len() as int));
    }
}

/// A text contains another where it is something, the other, and something.
pub proof fn what_is_contained_stands_between(
    s: Seq<char>,
    a: Seq<char>,
    needle: Seq<char>,
    b: Seq<char>,
)
    ensures
        s == a + needle + b ==> contains(s, needle),
        contains(s, needle) ==> exists|before: Seq<char>, after: Seq<char>|
            s == #[trigger] (before + needle + after),
{
    if s == a + needle + b {
        let at = a.len() as int;
        assert(s.subrange(at, at + needle.len()) =~= needle);
        assert(stands_at(s, needle, at));
    }
    if contains(s, needle) {
        let at = choose|at: int| stands_at(s, needle, at);
        let before = s.take(at);
        let after = s.skip(at + needle.len());
        assert(s =~= before + needle + after);
    }
}

/// Trimming takes whitespace off both ends, all of it, and nothing else.
pub proof fn trimming_takes_whitespace_off(s: Seq<char>, before: Seq<char>, after: Seq<char>)
    requires
        forall|i: int| 0 <= i < before.len() ==> is_whitespace(#[trigger] before[i]),
        forall|i: int| 0 <= i < after.len() ==> is_whitespace(#[trigger] after[i]),
        s.len() > 0 ==> !is_whitespace(s[0]) && !is_whitespace(s.last()),
    ensures
        trim(before + s + after) == s,
        trim_end(s + after) == s,
{
    lemma_trim_end_whitespace(s, after);
    assert(before + s + after =~= before + (s + after));
    if s.len() > 0 {
        lemma_trim_start_whitespace(before, s + after);
    } else {
        let all = before + after;
        assert(before + (s + after) =~= all);
        assert(forall|i: int| 0 <= i < all.len() ==> is_whitespace(#[trigger] all[i]));
        assert(all + Seq::<char>::empty() =~= all);
        lemma_trim_start_whitespace(all, Seq::empty());
        assert(s =~= Seq::empty());
    }
}

proof fn lemma_trim_end_whitespace(s: Seq<char>, after: Seq<char>)
    requires
        forall|i: int| 0 <= i < after.len() ==> is_whitespace(#[trigger] after[i]),
        s.len() > 0 ==> !is_whitespace(s.last()),
    ensures
        trim_end(s + after) == s,
    decreases after.len(),
{
    let all = s + after;
    if after.len() == 0 {
        assert(all =~= s);
    } else {
        assert(all.last() == after[after.len() - 1]);
        let less = after.drop_last();
        assert(forall|i: int| 0 <= i < less.len() ==> less[i] == after[i]);
        lemma_trim_end_whitespace(s, less);
        assert(all.drop_last() =~= s + less);
    }
}

proof fn lemma_trim_start_whitespace(before: Seq<char>, s: Seq<char>)
    requires
        forall|i: int| 0 <= i < before.len() ==> is_whitespace(#[trigger] before[i]),
        s.len() > 0 ==> !is_whitespace(s[0]),
    ensures
        trim_start(before + s) == s,
    decreases before.len(),
{
    let all = before + s;
    if before.len() == 0 {
        assert(all =~= s);
    } else {
        assert(all[0] == before[0]);
        let less = before.drop_first();
        assert(forall|i: int| 0 <= i < less.len() ==> less[i] == before[i + 1]);
        lemma_trim_start_whitespace(less, s);
        assert(all.drop_first() =~= less + s);
    }
}

/// Every text is what trimming leaves of it, with whitespace around.
pub proof fn every_text_can_be_trimmed(s: Seq<char>) -> (r: (Seq<char>, Seq<char>))
    ensures
        s == r.0 + trim(s) + r.1,
        forall|i: int| 0 <= i < r.0.len() ==> is_whitespace(#[trigger] r.0[i]),
        forall|i: int| 0 <= i < r.1.len() ==> is_whitespace(#[trigger] r.1[i]),
        trim(s).len() > 0 ==> !is_whitespace(trim(s)[0]) && !is_whitespace(trim(s).last()),
{
    let before = lemma_trim_start_splits(s);
    let after = lemma_trim_end_splits(trim_start(s));
    assert(s =~= before + trim(s) + after);
    if trim(s).len() > 0 {
        assert(trim(s)[0] == trim_start(s)[0]);
    }
    (before, after)
}

proof fn lemma_trim_start_splits(s: Seq<char>) -> (before: Seq<char>)
    ensures
        s == before + trim_start(s),
        forall|i: int| 0 <= i < before.len() ==> is_whitespace(#[trigger] before[i]),
        trim_start(s).len() > 0 ==> !is_whitespace(trim_start(s)[0]),
    decreases s.len(),
{
    if s.len() > 0 && is_whitespace(s[0]) {
        let rest = lemma_trim_start_splits(s.drop_first());
        let before = seq![s[0]] + rest;
        assert(s =~= seq![s[0]] + s.drop_first());
        assert(s =~= before + trim_start(s));
        before
    } else {
        assert(s =~= Seq::<char>::empty() + s);
        Seq::empty()
    }
}

proof fn lemma_trim_end_splits(s: Seq<char>) -> (after: Seq<char>)
    ensures
        s == trim_end(s) + after,
        forall|i: int| 0 <= i < after.len() ==> is_whitespace(#[trigger] after[i]),
        trim_end(s).len() > 0 ==> !is_whitespace(trim_end(s).last()),
    decreases s.len(),
{
    if s.len() > 0 && is_whitespace(s.last()) {
        let rest = lemma_trim_end_splits(s.drop_last());
        let after = rest.push(s.last());
        assert(s =~= s.drop_last().push(s.last()));
        assert(s =~= trim_end(s) + after);
        after
    } else {
        assert(s =~= s + Seq::<char>::empty());
        Seq::empty()
    }
}

/// What stands before a character ends where the character first stands.
pub proof fn what_stands_before_a_character(s: Seq<char>, c: char, rest: Seq<char>)
    requires
        !s.contains(c),
    ensures
        before_char(s, c) == s,
        before_char(s + seq![c] + rest, c) == s,
    decreases s.len(),
{
    let whole = s + seq![c] + rest;
    if s.len() == 0 {
        assert(whole[0] == c);
        assert(before_char(whole, c) =~= s);
    } else {
        assert(s.contains(s[0]));
        assert(whole[0] == s[0]);
        let less = s.drop_first();
        assert forall|x: char| less.contains(x) implies s.contains(x) by {
            let i = choose|i: int| 0 <= i < less.len() && less[i] == x;
            assert(s[i + 1] == x);
        }
        what_stands_before_a_character(less, c, rest);
        assert(whole.drop_first() =~= less + seq![c] + rest);
        assert(before_char(s, c) =~= s);
        assert(before_char(whole, c) =~= s);
    }
}

/// A needle at the beginning is dropped; what no needle begins in is kept.
pub proof fn needles_are_dropped_and_the_rest_is_kept(
    kept: Seq<char>,
    needle: Seq<char>,
    rest: Seq<char>,
)
    requires
        needle.len() > 0,
        forall|at: int| 0 <= at < kept.len() ==> !stands_at(kept + rest, needle, at),
    ensures
        without_all(kept + rest, needle) == kept + without_all(rest, needle),
        without_all(needle + rest, needle) == without_all(rest, needle),
    decreases kept.len(),
{
    let whole = kept + rest;
    let led = needle + rest;
    assert(led.take(needle.len() as int) =~= needle);
    assert(led.skip(needle.len() as int) =~= rest);
    if kept.len() == 0 {
        assert(whole =~= rest);
        assert(kept + without_all(rest, needle) =~= without_all(rest, needle));
    } else {
        let less = kept.drop_first();
        assert(whole.drop_first() =~= less + rest);
        assert forall|at: int| 0 <= at < less.len() implies !stands_at(less + rest, needle, at) by {
            if stands_at(less + rest, needle, at) {
                assert(whole.subrange(at + 1, at + 1 + needle.len()) =~= (less + rest).subrange(
                    at,
                    at + needle.len(),
                ));
                assert(stands_at(whole, needle, at + 1));
            }
        }
        needles_are_dropped_and_the_rest_is_kept(less, needle, rest);
        assert(!stands_at(whole, needle, 0));
        assert(!has_prefix(whole, needle)) by {
            if has_prefix(whole, needle) {
                assert(whole.subrange(0, needle.len() as int) =~= whole.take(needle.len() as int));
            }
        }
        assert(without_all(whole, needle) =~= kept + without_all(rest, needle));
    }
}

/// All of a character at the end goes, and nothing else.
pub proof fn a_character_is_taken_off_the_end(s: Seq<char>, c: char, n: nat)
    requires
        s.len() > 0 ==> s.last() != c,
    ensures
        trim_end_char(s + Seq::new(n, |i: int| c), c) == s,
    decreases n,
{
    let all = s + Seq::new(n, |i: int| c);
    if n == 0 {
        assert(all =~= s);
    } else {
        a_character_is_taken_off_the_end(s, c, (n - 1) as nat);
        assert(all.drop_last() =~= s + Seq::new((n - 1) as nat, |i: int| c));
    }
}

/// Whitespace is the space, the characters that end a line or go to a column, and the
/// wide, narrow and unbroken spaces; nothing else is.
pub proof fn whitespace_is_known_by_its_characters(c: char)
    ensures
        is_whitespace(c) <==> {
            ||| c == ' '
            ||| '\t' <= c <= '\r'
            ||| c == '\u{85}'
            ||| c == '\u{A0}'
            ||| c == '\u{1680}'
            ||| '\u{2000}' <= c <= '\u{200A}'
            ||| c == '\u{2028}'
            ||| c == '\u{2029}'
            ||| c == '\u{202F}'
            ||| c == '\u{205F}'
            ||| c == '\u{3000}'
        },
{
}

} // verus!
