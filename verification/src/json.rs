//! JSON values.
//!
//! `Json` is the executable value and `JsonView` what it stands for. An object
//! is held as a list of members; where a name occurs twice the later member
//! counts, so every list of members stands for some object. `==` compares the
//! lists: values that are equal stand for the same, but objects that stand for
//! the same may list their members in another order.

use crate::codec::Fraction;
use vstd::prelude::*;

verus! {

/// A JSON value.
#[derive(Debug, PartialEq, Eq)]
pub enum Json {
    Null,
    Bool(bool),
    Unsigned(u64),
    Signed(i64),
    Fraction(Fraction),
    String(String),
    Array(Vec<Json>),
    Object(Vec<(String, Json)>),
}

/// What a JSON value stands for.
pub enum JsonView {
    Null,
    Bool(bool),
    Int(int),
    Fraction(Fraction),
    String(Seq<char>),
    Array(Seq<JsonView>),
    Object(Map<Seq<char>, JsonView>),
}

impl Json {
    pub open spec fn model(self) -> JsonView
        decreases self,
    {
        match self {
            Json::Null => JsonView::Null,
            Json::Bool(b) => JsonView::Bool(b),
            Json::Unsigned(n) => JsonView::Int(n as int),
            Json::Signed(n) => JsonView::Int(n as int),
            Json::Fraction(f) => JsonView::Fraction(f),
            Json::String(s) => JsonView::String(s@),
            Json::Array(items) => JsonView::Array(items_model(items@)),
            Json::Object(members) => JsonView::Object(members_model(members@)),
        }
    }
}

/// What the items of an array stand for, in order.
pub open spec fn items_model(items: Seq<Json>) -> Seq<JsonView>
    decreases items,
{
    if items.len() == 0 {
        Seq::empty()
    } else {
        items_model(items.drop_last()).push(items[items.len() - 1].model())
    }
}

/// The members of an object by name; of two with one name the later counts.
pub open spec fn members_model(members: Seq<(String, Json)>) -> Map<Seq<char>, JsonView>
    decreases members,
{
    if members.len() == 0 {
        Map::empty()
    } else {
        members_model(members.drop_last()).insert(
            members[members.len() - 1].0@,
            members[members.len() - 1].1.model(),
        )
    }
}

impl View for Json {
    type V = JsonView;

    open spec fn view(&self) -> JsonView {
        self.model()
    }
}

/// What an optional value stands for.
pub open spec fn opt_view(v: Option<&Json>) -> Option<JsonView> {
    match v {
        Some(j) => Some(j@),
        None => None,
    }
}

/// What an optional text stands for.
pub open spec fn opt_text(v: Option<&str>) -> Option<Seq<char>> {
    match v {
        Some(s) => Some(s@),
        None => None,
    }
}

impl JsonView {
    /// The object without members.
    pub open spec fn object() -> JsonView {
        JsonView::Object(Map::empty())
    }

    /// The member of that name, of an object that has one.
    pub open spec fn get(self, key: Seq<char>) -> Option<JsonView> {
        match self {
            JsonView::Object(members) => if members.contains_key(key) {
                Some(members[key])
            } else {
                None
            },
            _ => None,
        }
    }

    /// Whether a member can be set: in an object, or in null, which then
    /// becomes an object.
    pub open spec fn accepts_members(self) -> bool {
        self is Object || self is Null
    }

    /// The value with that member set.
    pub open spec fn with(self, key: Seq<char>, value: JsonView) -> JsonView {
        match self {
            JsonView::Object(members) => JsonView::Object(members.insert(key, value)),
            _ => JsonView::Object(Map::empty().insert(key, value)),
        }
    }

    pub open spec fn as_str(self) -> Option<Seq<char>> {
        match self {
            JsonView::String(s) => Some(s),
            _ => None,
        }
    }

    pub open spec fn as_array(self) -> Option<Seq<JsonView>> {
        match self {
            JsonView::Array(items) => Some(items),
            _ => None,
        }
    }

    pub open spec fn as_bool(self) -> Option<bool> {
        match self {
            JsonView::Bool(b) => Some(b),
            _ => None,
        }
    }

    pub open spec fn as_u64(self) -> Option<u64> {
        match self {
            JsonView::Int(n) => if 0 <= n <= u64::MAX {
                Some(n as u64)
            } else {
                None
            },
            _ => None,
        }
    }

    /// The text under that name, where there is a text.
    pub open spec fn str_at(self, key: Seq<char>) -> Option<Seq<char>> {
        match self.get(key) {
            Some(v) => v.as_str(),
            None => None,
        }
    }

    /// The text under that name, else the given one.
    pub open spec fn str_or(self, key: Seq<char>, default: Seq<char>) -> Seq<char> {
        match self.str_at(key) {
            Some(s) => s,
            None => default,
        }
    }

    /// The array under that name, where there is an array.
    pub open spec fn array_at(self, key: Seq<char>) -> Option<Seq<JsonView>> {
        match self.get(key) {
            Some(v) => v.as_array(),
            None => None,
        }
    }

    /// The integer of 64 bits without sign under that name, where there is one.
    pub open spec fn u64_at(self, key: Seq<char>) -> Option<u64> {
        match self.get(key) {
            Some(v) => v.as_u64(),
            None => None,
        }
    }
}

pub broadcast proof fn lemma_items_model_len(items: Seq<Json>)
    ensures
        #[trigger] items_model(items).len() == items.len(),
    decreases items.len(),
{
    if items.len() > 0 {
        lemma_items_model_len(items.drop_last());
    }
}

pub broadcast proof fn lemma_items_model_index(items: Seq<Json>, i: int)
    requires
        0 <= i < items.len(),
    ensures
        #[trigger] items_model(items)[i] == items[i]@,
    decreases items.len(),
{
    lemma_items_model_len(items);
    lemma_items_model_len(items.drop_last());
    if i < items.len() - 1 {
        lemma_items_model_index(items.drop_last(), i);
    }
}

pub broadcast proof fn lemma_items_model_push(items: Seq<Json>, item: Json)
    ensures
        #[trigger] items_model(items.push(item)) == items_model(items).push(item@),
{
    assert(items.push(item).drop_last() =~= items);
}

pub broadcast proof fn lemma_items_model_add(a: Seq<Json>, b: Seq<Json>)
    ensures
        #[trigger] items_model(a + b) == items_model(a) + items_model(b),
    decreases b.len(),
{
    if b.len() == 0 {
        assert(a + b =~= a);
        assert(items_model(a) + items_model(b) =~= items_model(a));
    } else {
        lemma_items_model_add(a, b.drop_last());
        assert((a + b).drop_last() =~= a + b.drop_last());
        assert(items_model(a + b) =~= items_model(a) + items_model(b));
    }
}

pub broadcast group group_json {
    lemma_items_model_add,
    lemma_items_model_len,
    lemma_items_model_index,
    lemma_items_model_push,
}

/// A name that no member has is not in the object.
proof fn lemma_absent(members: Seq<(String, Json)>, key: Seq<char>)
    requires
        forall|j: int| 0 <= j < members.len() ==> (#[trigger] members[j]).0@ != key,
    ensures
        !members_model(members).contains_key(key),
    decreases members.len(),
{
    if members.len() > 0 {
        lemma_absent(members.drop_last(), key);
    }
}

/// The last member of a name is the one that counts.
proof fn lemma_last_counts(members: Seq<(String, Json)>, key: Seq<char>, i: int)
    requires
        0 <= i < members.len(),
        members[i].0@ == key,
        forall|j: int| i < j < members.len() ==> (#[trigger] members[j]).0@ != key,
    ensures
        members_model(members).contains_key(key),
        members_model(members)[key] == members[i].1@,
    decreases members.len(),
{
    if i < members.len() - 1 {
        assert(members[members.len() - 1].0@ != key);
        lemma_last_counts(members.drop_last(), key, i);
    }
}

/// Replacing the last member of a name sets that name.
proof fn lemma_replace(members: Seq<(String, Json)>, i: int, member: (String, Json))
    requires
        0 <= i < members.len(),
        members[i].0@ == member.0@,
        forall|j: int| i < j < members.len() ==> (#[trigger] members[j]).0@ != member.0@,
    ensures
        members_model(members.update(i, member)) == members_model(members).insert(
            member.0@,
            member.1@,
        ),
    decreases members.len(),
{
    let after = members.update(i, member);
    if i < members.len() - 1 {
        assert(members[members.len() - 1].0@ != member.0@);
        lemma_replace(members.drop_last(), i, member);
        assert(after.drop_last() =~= members.drop_last().update(i, member));
        assert(members_model(after) =~= members_model(members).insert(member.0@, member.1@));
    } else {
        assert(after.drop_last() =~= members.drop_last());
        assert(members_model(after) =~= members_model(members).insert(member.0@, member.1@));
    }
}

/// The position of the member of that name that counts.
fn member_index(members: &Vec<(String, Json)>, key: &str) -> (r: Option<usize>)
    ensures
        match r {
            Some(i) => {
                &&& i < members@.len()
                &&& members@[i as int].0@ == key@
                &&& forall|j: int| i < j < members@.len() ==> (#[trigger] members@[j]).0@ != key@
            },
            None => forall|j: int|
                0 <= j < members@.len() ==> (#[trigger] members@[j]).0@ != key@,
        },
{
    let name: String = key.to_owned();
    let mut i: usize = members.len();
    while i > 0
        invariant
            i <= members@.len(),
            name@ == key@,
            forall|j: int| i <= j < members@.len() ==> (#[trigger] members@[j]).0@ != key@,
        decreases i,
    {
        i -= 1;
        if members[i].0 == name {
            return Some(i);
        }
    }
    None
}

impl Json {
    /// The member of that name, of an object that has one.
    pub fn get(&self, key: &str) -> (r: Option<&Json>)
        ensures
            opt_view(r) == self@.get(key@),
    {
        match self {
            Json::Object(members) => match member_index(members, key) {
                Some(i) => {
                    proof {
                        lemma_last_counts(members@, key@, i as int);
                    }
                    Some(&members[i].1)
                },
                None => {
                    proof {
                        lemma_absent(members@, key@);
                    }
                    None
                },
            },
            _ => None,
        }
    }

    pub fn as_str(&self) -> (r: Option<&str>)
        ensures
            opt_text(r) == self@.as_str(),
    {
        match self {
            Json::String(s) => Some(s.as_str()),
            _ => None,
        }
    }

    pub fn as_array(&self) -> (r: Option<&Vec<Json>>)
        ensures
            match r {
                Some(items) => self@.as_array() == Some(items_model(items@)),
                None => self@.as_array() is None,
            },
    {
        match self {
            Json::Array(items) => Some(items),
            _ => None,
        }
    }

    pub fn as_bool(&self) -> (r: Option<bool>)
        ensures
            r == self@.as_bool(),
    {
        match self {
            Json::Bool(b) => Some(*b),
            _ => None,
        }
    }

    pub fn as_u64(&self) -> (r: Option<u64>)
        ensures
            r == self@.as_u64(),
    {
        match self {
            Json::Unsigned(n) => Some(*n),
            Json::Signed(n) => if *n >= 0 {
                Some(*n as u64)
            } else {
                None
            },
            _ => None,
        }
    }

    /// The text under that name, where there is a text.
    pub fn str_at(&self, key: &str) -> (r: Option<&str>)
        ensures
            opt_text(r) == self@.str_at(key@),
    {
        match self.get(key) {
            Some(v) => v.as_str(),
            None => None,
        }
    }

    /// The text under that name, else the given one.
    pub fn str_or<'a>(&'a self, key: &str, default: &'a str) -> (r: &'a str)
        ensures
            r@ == self@.str_or(key@, default@),
    {
        match self.str_at(key) {
            Some(s) => s,
            None => default,
        }
    }

    /// The array under that name, where there is an array.
    pub fn array_at(&self, key: &str) -> (r: Option<&Vec<Json>>)
        ensures
            match r {
                Some(items) => self@.array_at(key@) == Some(items_model(items@)),
                None => self@.array_at(key@) is None,
            },
    {
        match self.get(key) {
            Some(v) => v.as_array(),
            None => None,
        }
    }

    /// The integer of 64 bits without sign under that name, where there is one.
    pub fn u64_at(&self, key: &str) -> (r: Option<u64>)
        ensures
            r == self@.u64_at(key@),
    {
        match self.get(key) {
            Some(v) => v.as_u64(),
            None => None,
        }
    }

    /// Whether a member can be set.
    pub fn accepts_members(&self) -> (r: bool)
        ensures
            r == self@.accepts_members(),
    {
        match self {
            Json::Object(_) => true,
            Json::Null => true,
            _ => false,
        }
    }

    /// The object without members.
    pub fn object() -> (r: Json)
        ensures
            r@ == JsonView::object(),
    {
        Json::Object(Vec::new())
    }

    /// A text.
    pub fn text(s: &str) -> (r: Json)
        ensures
            r@ == JsonView::String(s@),
    {
        Json::String(s.to_owned())
    }

    /// Sets a member. Null becomes an object first.
    pub fn set(&mut self, key: &str, value: Json)
        requires
            old(self)@.accepts_members(),
        ensures
            final(self)@ == old(self)@.with(key@, value@),
    {
        let mut members: Vec<(String, Json)> = Vec::new();
        match self {
            Json::Object(own) => {
                std::mem::swap(&mut members, own);
            },
            _ => {},
        }
        assert(old(self)@.with(key@, value@) == JsonView::Object(
            members_model(members@).insert(key@, value@),
        ));
        match member_index(&members, key) {
            Some(i) => {
                let ghost before = members@;
                let member: (String, Json) = (key.to_owned(), value);
                proof {
                    lemma_replace(before, i as int, member);
                }
                members.set(i, member);
            },
            None => {
                let ghost before = members@;
                members.push((key.to_owned(), value));
                assert(members@.drop_last() =~= before);
            },
        }
        *self = Json::Object(members);
    }

    /// The value with that member set. Null becomes an object first.
    pub fn with(self, key: &str, value: Json) -> (r: Json)
        requires
            self@.accepts_members(),
        ensures
            r@ == self@.with(key@, value@),
    {
        let mut out: Json = self;
        out.set(key, value);
        out
    }
}

impl Json {
    /// A copy.
    pub fn copy(&self) -> (r: Json)
        ensures
            r@ == self@,
        decreases *self,
    {
        match self {
            Json::Null => Json::Null,
            Json::Bool(b) => Json::Bool(*b),
            Json::Unsigned(n) => Json::Unsigned(*n),
            Json::Signed(n) => Json::Signed(*n),
            Json::Fraction(f) => Json::Fraction(f.copy()),
            Json::String(s) => Json::String(s.clone()),
            Json::Array(items) => {
                let mut out: Vec<Json> = Vec::new();
                let mut i: usize = 0;
                while i < items.len()
                    invariant
                        i <= items@.len(),
                        *self == Json::Array(*items),
                        items_model(out@) == items_model(items@.take(i as int)),
                    decreases items@.len() - i,
                {
                    let ghost before = out@;
                    assert(decreases_to!(*self => self->Array_0));
                    assert(decreases_to!(items@ => items@[i as int]));
                    out.push(items[i].copy());
                    assert(out@.drop_last() =~= before);
                    assert(items@.take(i + 1).drop_last() =~= items@.take(i as int));
                    i += 1;
                }
                assert(items@.take(i as int) =~= items@);
                Json::Array(out)
            },
            Json::Object(members) => {
                let mut out: Vec<(String, Json)> = Vec::new();
                let mut i: usize = 0;
                while i < members.len()
                    invariant
                        i <= members@.len(),
                        *self == Json::Object(*members),
                        members_model(out@) == members_model(members@.take(i as int)),
                    decreases members@.len() - i,
                {
                    let ghost before = out@;
                    assert(decreases_to!(*self => self->Object_0));
                    assert(decreases_to!(members@ => members@[i as int]));
                    assert(decreases_to!(members@[i as int] => members@[i as int].1));
                    out.push((members[i].0.clone(), members[i].1.copy()));
                    assert(out@.drop_last() =~= before);
                    assert(members@.take(i + 1).drop_last() =~= members@.take(i as int));
                    i += 1;
                }
                assert(members@.take(i as int) =~= members@);
                Json::Object(out)
            },
        }
    }
}

impl Clone for Json {
    fn clone(&self) -> (r: Json)
        ensures
            r@ == self@,
    {
        self.copy()
    }
}

/// A copy of a list of values.
pub fn copy_items(items: &Vec<Json>) -> (r: Vec<Json>)
    ensures
        items_model(r@) == items_model(items@),
{
    let mut out: Vec<Json> = Vec::new();
    let mut i: usize = 0;
    while i < items.len()
        invariant
            i <= items@.len(),
            items_model(out@) == items_model(items@.take(i as int)),
        decreases items@.len() - i,
    {
        let ghost before = out@;
        out.push(items[i].copy());
        assert(out@.drop_last() =~= before);
        assert(items@.take(i + 1).drop_last() =~= items@.take(i as int));
        i += 1;
    }
    assert(items@.take(i as int) =~= items@);
    out
}

/// The text under that name, and the empty text where there is none.
pub open spec fn text_under(value: JsonView, name: Seq<char>) -> Seq<char> {
    match value.get(name) {
        Some(JsonView::String(s)) => s,
        _ => Seq::empty(),
    }
}

/// Whether a value has no members but those of these names.
pub open spec fn has_only(value: JsonView, names: Seq<Seq<char>>) -> bool {
    forall|name: Seq<char>| #[trigger] value.get(name) is Some ==> names.contains(name)
}

/// The members of an object are found by their names, and nothing else has members.
pub proof fn members_are_found_by_name(value: JsonView, name: Seq<char>)
    ensures
        match value {
            JsonView::Object(members) => {
                &&& value.get(name) is Some <==> members.dom().contains(name)
                &&& value.get(name) matches Some(member) ==> member == members[name]
            },
            _ => value.get(name) is None,
        },
{
}

/// Setting a member sets that one, and leaves the others.
pub proof fn members_are_set_one_at_a_time(
    value: JsonView,
    name: Seq<char>,
    member: JsonView,
    other: Seq<char>,
)
    requires
        value.accepts_members(),
    ensures
        value.with(name, member).get(name) == Some(member),
        other != name ==> value.with(name, member).get(other) == value.get(other),
        value.with(name, member) is Object,
        JsonView::object().get(other) is None,
{
}

/// What kind a value is decides what it is read as.
pub proof fn values_are_read_as_what_they_are(
    value: JsonView,
    s: Seq<char>,
    items: Seq<JsonView>,
    b: bool,
    n: u64,
)
    ensures
        value.as_str() == Some(s) <==> value == JsonView::String(s),
        value.as_array() == Some(items) <==> value == JsonView::Array(items),
        value.as_bool() == Some(b) <==> value == JsonView::Bool(b),
        value.as_u64() == Some(n) <==> value == JsonView::Int(n as int),
        value.accepts_members() <==> value is Object || value is Null,
{
}

/// What stands under a name is read as what it is, and a default stands in for a
/// text that is not there.
pub proof fn members_are_read_as_what_they_are(
    value: JsonView,
    name: Seq<char>,
    default: Seq<char>,
)
    ensures
        value.str_at(name) is Some <==> value.get(name) matches Some(JsonView::String(_)),
        value.str_at(name) matches Some(s) ==> value.get(name) == Some(JsonView::String(s)),
        value.array_at(name) is Some <==> value.get(name) matches Some(JsonView::Array(_)),
        value.array_at(name) matches Some(items) ==> value.get(name) == Some(
            JsonView::Array(items),
        ),
        value.u64_at(name) is Some <==> (value.get(name) matches Some(JsonView::Int(n)) && 0 <= n
            <= u64::MAX),
        value.u64_at(name) matches Some(n) ==> value.get(name) == Some(JsonView::Int(n as int)),
        value.str_or(name, default) == match value.get(name) {
            Some(JsonView::String(s)) => s,
            _ => default,
        },
{
}

} // verus!
