//! JSON values from and to `serde_json`, and from and to text.

use crate::json::{items_model, members_model, Json, JsonView};
use crate::text::is_one_line;
use vstd::prelude::*;
use vstd::utf8::*;

verus! {

/// A number that is no integer of 64 bits, as `serde_json` holds it.
///
/// The field is private: only `open_value` makes one.
#[derive(Debug, PartialEq, Eq)]
pub struct Fraction {
    number: serde_json::Number,
}

/// `serde_json::Number`, carried through without being looked into.
#[verifier::external_type_specification]
#[verifier::external_body]
pub struct ExNumber(serde_json::Number);

/// `serde_json::Value`, seen through `value_model`.
#[verifier::external_type_specification]
#[verifier::external_body]
pub struct ExValue(serde_json::Value);

/// What a `serde_json::Value` holds.
pub uninterp spec fn value_model(value: serde_json::Value) -> JsonView;

/// The value that `serde_json::from_str` reads from a text, where it reads one.
pub uninterp spec fn json_of_text(text: Seq<char>) -> Option<JsonView>;

/// The value that `serde_json::from_slice` reads from bytes, where it reads one.
pub uninterp spec fn json_of_bytes(bytes: Seq<u8>) -> Option<JsonView>;

/// The text that `serde_json::to_string` writes of a value.
pub uninterp spec fn json_text(value: JsonView) -> Seq<char>;

/// The greatest number of arrays and objects within one another that
/// `serde_json::from_str` reads.
pub open spec fn depth_limit() -> nat {
    127
}

/// Whether a value, with at most so many arrays and objects within one another,
/// reads back as it was written. Left out are fractions, which may come back
/// rounded, and objects with the member by which `serde_json` marks a raw value.
pub open spec fn reads_back(value: JsonView, depth: nat) -> bool
    decreases depth,
{
    match value {
        JsonView::Fraction(_) => false,
        JsonView::Int(n) => i64::MIN <= n <= u64::MAX,
        JsonView::Array(items) => depth > 0 && forall|i: int|
            0 <= i < items.len() ==> reads_back(#[trigger] items[i], (depth - 1) as nat),
        JsonView::Object(members) => {
            &&& depth > 0
            &&& !members.contains_key("$serde_json::private::RawValue"@)
            &&& forall|key: Seq<char>|
                members.contains_key(key) ==> reads_back(
                    #[trigger] members[key],
                    (depth - 1) as nat,
                )
        },
        _ => true,
    }
}

/// An object reads back with one more member that does.
pub broadcast proof fn lemma_with_reads_back(
    value: JsonView,
    key: Seq<char>,
    member: JsonView,
    depth: nat,
)
    requires
        value is Object,
        reads_back(value, depth),
        key != "$serde_json::private::RawValue"@,
        reads_back(member, (depth - 1) as nat),
    ensures
        #[trigger] reads_back(value.with(key, member), depth),
{
}

impl Fraction {
    /// A copy.
    ///
    /// Calls `serde_json::Number::clone`, which hands back an equal number.
    #[verifier::external_body]
    pub(crate) fn copy(&self) -> (r: Fraction)
        ensures
            r == *self,
    {
        Fraction { number: self.number.clone() }
    }
}

/// One layer of a `serde_json::Value`.
pub enum Layer {
    Null,
    Bool(bool),
    Unsigned(u64),
    Signed(i64),
    Fraction(Fraction),
    String(String),
    Array(Vec<serde_json::Value>),
    Object(Vec<(String, serde_json::Value)>),
}

/// What the values of a list hold, in order.
pub open spec fn values_model(values: Seq<serde_json::Value>) -> Seq<JsonView> {
    Seq::new(values.len(), |i: int| value_model(values[i]))
}

/// What the named values of a list hold; of two with one name the later counts.
pub open spec fn entries_model(entries: Seq<(String, serde_json::Value)>) -> Map<
    Seq<char>,
    JsonView,
>
    decreases entries.len(),
{
    if entries.len() == 0 {
        Map::empty()
    } else {
        entries_model(entries.drop_last()).insert(
            entries.last().0@,
            value_model(entries.last().1),
        )
    }
}

impl View for Layer {
    type V = JsonView;

    open spec fn view(&self) -> JsonView {
        match *self {
            Layer::Null => JsonView::Null,
            Layer::Bool(b) => JsonView::Bool(b),
            Layer::Unsigned(n) => JsonView::Int(n as int),
            Layer::Signed(n) => JsonView::Int(n as int),
            Layer::Fraction(f) => JsonView::Fraction(f),
            Layer::String(s) => JsonView::String(s@),
            Layer::Array(values) => JsonView::Array(values_model(values@)),
            Layer::Object(entries) => JsonView::Object(entries_model(entries@)),
        }
    }
}

/// Whether no two entries have one name.
pub open spec fn names_differ(entries: Seq<(String, serde_json::Value)>) -> bool {
    forall|i: int, j: int|
        0 <= i < j < entries.len() ==> (#[trigger] entries[i]).0@ != (#[trigger] entries[j]).0@
}

/// Builds a `serde_json::Value` from one layer.
///
/// Calls the constructors of `serde_json::Value`, `Number::from` for an integer
/// and `Map::from_iter` for the members of an object, whose names differ.
#[verifier::external_body]
fn close_value(layer: Layer) -> (r: serde_json::Value)
    requires
        layer matches Layer::Object(entries) ==> names_differ(entries@),
    ensures
        value_model(r) == layer@,
{
    match layer {
        Layer::Null => serde_json::Value::Null,
        Layer::Bool(b) => serde_json::Value::Bool(b),
        Layer::Unsigned(n) => serde_json::Value::Number(n.into()),
        Layer::Signed(n) => serde_json::Value::Number(n.into()),
        Layer::Fraction(f) => serde_json::Value::Number(f.number),
        Layer::String(s) => serde_json::Value::String(s),
        Layer::Array(values) => serde_json::Value::Array(values),
        Layer::Object(entries) => serde_json::Value::Object(entries.into_iter().collect()),
    }
}

/// Takes one layer off a `serde_json::Value`.
///
/// Tells the variants of `serde_json::Value` apart, and the integers among the
/// numbers by `Number::as_u64` and `Number::as_i64`. The names that
/// `Map::into_iter` hands out differ from one another.
#[verifier::external_body]
fn open_value(value: serde_json::Value) -> (r: Layer)
    ensures
        r@ == value_model(value),
        r matches Layer::Object(entries) ==> names_differ(entries@),
{
    match value {
        serde_json::Value::Null => Layer::Null,
        serde_json::Value::Bool(b) => Layer::Bool(b),
        serde_json::Value::Number(n) => match (n.as_u64(), n.as_i64()) {
            (Some(u), _) => Layer::Unsigned(u),
            (None, Some(i)) => Layer::Signed(i),
            (None, None) => Layer::Fraction(Fraction { number: n }),
        },
        serde_json::Value::String(s) => Layer::String(s),
        serde_json::Value::Array(values) => Layer::Array(values),
        serde_json::Value::Object(entries) => Layer::Object(entries.into_iter().collect()),
    }
}

/// An object has finitely many members.
proof fn lemma_entries_finite(entries: Seq<(String, serde_json::Value)>)
    ensures
        entries_model(entries).dom().finite(),
    decreases entries.len(),
{
    if entries.len() > 0 {
        lemma_entries_finite(entries.drop_last());
    }
}

/// Where the names differ, each entry is the one that counts for its name.
proof fn lemma_entry(entries: Seq<(String, serde_json::Value)>, i: int)
    requires
        0 <= i < entries.len(),
        names_differ(entries),
    ensures
        entries_model(entries).contains_key(entries[i].0@),
        entries_model(entries)[entries[i].0@] == value_model(entries[i].1),
    decreases entries.len(),
{
    if i < entries.len() - 1 {
        lemma_entry(entries.drop_last(), i);
        assert(entries.drop_last()[i] == entries[i]);
        assert(entries[i].0@ != entries[entries.len() - 1].0@);
    }
}

/// Replacing the entry of a name sets that name.
proof fn lemma_replace_entry(
    entries: Seq<(String, serde_json::Value)>,
    i: int,
    entry: (String, serde_json::Value),
)
    requires
        0 <= i < entries.len(),
        names_differ(entries),
        entries[i].0@ == entry.0@,
    ensures
        entries_model(entries.update(i, entry)) == entries_model(entries).insert(
            entry.0@,
            value_model(entry.1),
        ),
        names_differ(entries.update(i, entry)),
    decreases entries.len(),
{
    let after = entries.update(i, entry);
    let name = entry.0@;
    if i < entries.len() - 1 {
        assert(entries[i].0@ != entries[entries.len() - 1].0@);
        lemma_replace_entry(entries.drop_last(), i, entry);
        assert(after.drop_last() =~= entries.drop_last().update(i, entry));
    } else {
        assert(after.drop_last() =~= entries.drop_last());
    }
    assert(entries_model(after) =~= entries_model(entries).insert(name, value_model(entry.1)));
    assert forall|j: int, k: int| 0 <= j < k < after.len() implies (#[trigger] after[j]).0@ != (
    #[trigger] after[k]).0@ by {
        assert(entries[j].0@ != entries[k].0@);
    }
}

/// Sets the entry of a name.
fn put_entry(
    entries: &mut Vec<(String, serde_json::Value)>,
    name: String,
    value: serde_json::Value,
)
    requires
        names_differ(old(entries)@),
    ensures
        names_differ(final(entries)@),
        entries_model(final(entries)@) == entries_model(old(entries)@).insert(
            name@,
            value_model(value),
        ),
{
    let ghost before = entries@;
    let mut i: usize = 0;
    while i < entries.len()
        invariant
            i <= entries@.len(),
            before == old(entries)@,
            entries@ == before,
            names_differ(before),
            forall|k: int| 0 <= k < i ==> (#[trigger] before[k]).0@ != name@,
        decreases entries@.len() - i,
    {
        if entries[i].0 == name {
            let entry: (String, serde_json::Value) = (name, value);
            proof {
                lemma_replace_entry(before, i as int, entry);
            }
            entries.set(i, entry);
            return ;
        }
        i += 1;
    }
    entries.push((name, value));
    assert(entries@.drop_last() =~= before);
}

impl Json {
    /// The value as `serde_json` holds it.
    pub fn to_value(&self) -> (r: serde_json::Value)
        ensures
            value_model(r) == self@,
        decreases *self,
    {
        broadcast use crate::json::group_json;

        match self {
            Json::Null => close_value(Layer::Null),
            Json::Bool(b) => close_value(Layer::Bool(*b)),
            Json::Unsigned(n) => close_value(Layer::Unsigned(*n)),
            Json::Signed(n) => close_value(Layer::Signed(*n)),
            Json::Fraction(f) => close_value(Layer::Fraction(f.copy())),
            Json::String(s) => close_value(Layer::String(s.clone())),
            Json::Array(items) => {
                let mut out: Vec<serde_json::Value> = Vec::new();
                let mut i: usize = 0;
                while i < items.len()
                    invariant
                        i <= items@.len(),
                        *self == Json::Array(*items),
                        out@.len() == i,
                        forall|k: int| 0 <= k < i ==> value_model(#[trigger] out@[k]) == items@[k]@,
                    decreases items@.len() - i,
                {
                    assert(decreases_to!(*self => self->Array_0));
                    assert(decreases_to!(items@ => items@[i as int]));
                    out.push(items[i].to_value());
                    i += 1;
                }
                assert(values_model(out@) =~= items_model(items@));
                close_value(Layer::Array(out))
            },
            Json::Object(members) => {
                let mut out: Vec<(String, serde_json::Value)> = Vec::new();
                let mut i: usize = 0;
                while i < members.len()
                    invariant
                        i <= members@.len(),
                        *self == Json::Object(*members),
                        names_differ(out@),
                        entries_model(out@) == members_model(members@.take(i as int)),
                    decreases members@.len() - i,
                {
                    assert(decreases_to!(*self => self->Object_0));
                    assert(decreases_to!(members@ => members@[i as int]));
                    assert(decreases_to!(members@[i as int] => members@[i as int].1));
                    let value: serde_json::Value = members[i].1.to_value();
                    put_entry(&mut out, members[i].0.clone(), value);
                    assert(members@.take(i + 1).drop_last() =~= members@.take(i as int));
                    i += 1;
                }
                assert(members@.take(i as int) =~= members@);
                close_value(Layer::Object(out))
            },
        }
    }

    /// The value that `serde_json` holds.
    pub fn from_value(value: serde_json::Value) -> (r: Json)
        ensures
            r@ == value_model(value),
        decreases value_model(value),
    {
        broadcast use crate::json::group_json;

        match open_value(value) {
            Layer::Null => Json::Null,
            Layer::Bool(b) => Json::Bool(b),
            Layer::Unsigned(n) => Json::Unsigned(n),
            Layer::Signed(n) => Json::Signed(n),
            Layer::Fraction(f) => Json::Fraction(f),
            Layer::String(s) => Json::String(s),
            Layer::Array(values) => {
                let mut out: Vec<Json> = Vec::new();
                for v in it: values
                    invariant
                        it.seq() == values@,
                        value_model(value) == JsonView::Array(values_model(values@)),
                        out@.len() == it.index(),
                        forall|k: int|
                            0 <= k < out@.len() ==> (#[trigger] out@[k])@ == value_model(
                                values@[k],
                            ),
                {
                    assert(v == values@[it.index() as int]);
                    assert(values_model(values@)[it.index() as int] == value_model(v));
                    assert(decreases_to!(value_model(value) => value_model(value)->Array_0));
                    let ghost all = values_model(values@);
                    assert(decreases_to!(all => all[it.index() as int]));
                    out.push(Json::from_value(v));
                }
                assert(items_model(out@) =~= values_model(values@));
                Json::Array(out)
            },
            Layer::Object(entries) => {
                let mut out: Vec<(String, Json)> = Vec::new();
                for e in it: entries
                    invariant
                        it.seq() == entries@,
                        value_model(value) == JsonView::Object(entries_model(entries@)),
                        names_differ(entries@),
                        members_model(out@) == entries_model(entries@.take(it.index() as int)),
                {
                    proof {
                        lemma_entry(entries@, it.index() as int);
                        lemma_entries_finite(entries@);
                    }
                    let ghost before = out@;
                    assert(decreases_to!(value_model(value) => value_model(value)->Object_0));
                    assert(decreases_to!(entries_model(entries@) => entries_model(entries@)[e.0@]));
                    out.push((e.0, Json::from_value(e.1)));
                    assert(out@.drop_last() =~= before);
                    assert(entries@.take(it.index() + 1).drop_last() =~= entries@.take(
                        it.index() as int,
                    ));
                }
                assert(entries@.take(entries@.len() as int) =~= entries@);
                Json::Object(out)
            },
        }
    }
}

/// Reads a text.
///
/// Calls `serde_json::from_str`; `None` stands for its error.
#[verifier::external_body]
fn value_of_text(text: &str) -> (r: Option<serde_json::Value>)
    ensures
        match r {
            Some(value) => json_of_text(text@) == Some(value_model(value)),
            None => json_of_text(text@) is None,
        },
{
    serde_json::from_str(text).ok()
}

/// Reads bytes.
///
/// Calls `serde_json::from_slice`; `None` stands for its error.
#[verifier::external_body]
fn value_of_bytes(bytes: &[u8]) -> (r: Option<serde_json::Value>)
    ensures
        match r {
            Some(value) => json_of_bytes(bytes@) == Some(value_model(value)),
            None => json_of_bytes(bytes@) is None,
        },
{
    serde_json::from_slice(bytes).ok()
}

/// Writes a value as text.
///
/// Calls `serde_json::to_string`. Members are written in the order of their
/// names, so the text depends on what the value holds and on nothing else.
/// `serde_json::from_str` reads from the text what was written. Nothing is put
/// between the parts of a value, and line ends within a string are escaped, so the
/// text is one line.
#[verifier::external_body]
fn text_of_value(value: &serde_json::Value) -> (r: String)
    ensures
        r@ == json_text(value_model(*value)),
        is_one_line(r@),
        reads_back(value_model(*value), depth_limit()) ==> json_of_text(r@) == Some(
            value_model(*value),
        ),
{
    serde_json::to_string(value).unwrap_or_default()
}

/// Writes a value as bytes.
///
/// Calls `serde_json::to_vec`, whose bytes are those of the text that
/// `serde_json::to_string` makes of them. `serde_json::from_slice` reads from the
/// bytes what was written.
#[verifier::external_body]
fn bytes_of_value(value: &serde_json::Value) -> (r: Vec<u8>)
    ensures
        r@ == encode_utf8(json_text(value_model(*value))),
        reads_back(value_model(*value), depth_limit()) ==> json_of_bytes(r@) == Some(
            value_model(*value),
        ),
{
    serde_json::to_vec(value).unwrap_or_default()
}

impl Json {
    /// The value that a text spells, where it spells one.
    pub fn parse(text: &str) -> (r: Option<Json>)
        ensures
            match r {
                Some(value) => json_of_text(text@) == Some(value@),
                None => json_of_text(text@) is None,
            },
    {
        match value_of_text(text) {
            Some(value) => Some(Json::from_value(value)),
            None => None,
        }
    }

    /// The value that bytes spell, where they spell one.
    pub fn parse_bytes(bytes: &[u8]) -> (r: Option<Json>)
        ensures
            match r {
                Some(value) => json_of_bytes(bytes@) == Some(value@),
                None => json_of_bytes(bytes@) is None,
            },
    {
        match value_of_bytes(bytes) {
            Some(value) => Some(Json::from_value(value)),
            None => None,
        }
    }

    /// The value as text.
    pub fn to_text(&self) -> (r: String)
        ensures
            r@ == json_text(self@),
            is_one_line(r@),
            reads_back(self@, depth_limit()) ==> json_of_text(r@) == Some(self@),
    {
        text_of_value(&self.to_value())
    }

    /// The value as bytes.
    pub fn to_bytes(&self) -> (r: Vec<u8>)
        ensures
            r@ == encode_utf8(json_text(self@)),
            reads_back(self@, depth_limit()) ==> json_of_bytes(r@) == Some(self@),
    {
        bytes_of_value(&self.to_value())
    }
}

} // verus!
