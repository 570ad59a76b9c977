//! The headers of a request.

use crate::json::opt_text;
use crate::text::same_text;
use vstd::prelude::*;

verus! {

/// A header: its name in lower case, and its value where that is text.
#[derive(Debug, PartialEq, Eq)]
pub struct Header {
    pub name: String,
    pub value: Option<String>,
}

/// What a header stands for.
pub struct HeaderView {
    pub name: Seq<char>,
    pub value: Option<Seq<char>>,
}

impl View for Header {
    type V = HeaderView;

    open spec fn view(&self) -> HeaderView {
        HeaderView {
            name: self.name@,
            value: match self.value {
                Some(value) => Some(value@),
                None => None,
            },
        }
    }
}

/// What the headers of a list stand for.
pub open spec fn headers_view(headers: Seq<Header>) -> Seq<HeaderView> {
    Seq::new(headers.len(), |i: int| headers[i]@)
}

/// The text of the first header of that name, where there is one and it is text.
pub open spec fn header_text(headers: Seq<HeaderView>, name: Seq<char>) -> Option<Seq<char>>
    decreases headers.len(),
{
    if headers.len() == 0 {
        None
    } else if headers[0].name == name {
        headers[0].value
    } else {
        header_text(headers.drop_first(), name)
    }
}

/// The text of the first header of that name, where there is one and it is text.
pub fn text_of_header<'a>(headers: &'a Vec<Header>, name: &str) -> (r: Option<&'a str>)
    ensures
        opt_text(r) == header_text(headers_view(headers@), name@),
{
    let ghost all = headers_view(headers@);
    let mut i: usize = 0;
    assert(all.skip(0) =~= all);
    while i < headers.len()
        invariant
            i <= headers@.len(),
            all == headers_view(headers@),
            header_text(all.skip(i as int), name@) == header_text(all, name@),
        decreases headers@.len() - i,
    {
        assert(all.skip(i as int)[0] == headers@[i as int]@);
        if same_text(headers[i].name.as_str(), name) {
            return match &headers[i].value {
                Some(value) => Some(value.as_str()),
                None => None,
            };
        }
        assert(all.skip(i as int).drop_first() =~= all.skip(i + 1));
        i += 1;
    }
    None
}

/// A header is looked up by its name: the first of that name counts, and none where
/// there is none.
pub proof fn headers_are_looked_up_by_name(
    before: Seq<HeaderView>,
    header: HeaderView,
    after: Seq<HeaderView>,
    name: Seq<char>,
)
    requires
        forall|i: int| 0 <= i < before.len() ==> (#[trigger] before[i]).name != name,
    ensures
        header_text(before, name) is None,
        header.name == name ==> header_text(before + seq![header] + after, name) == header.value,
    decreases before.len(),
{
    let all = before + seq![header] + after;
    if before.len() == 0 {
        assert(all[0] == header);
    } else {
        let less = before.drop_first();
        assert(forall|i: int| 0 <= i < less.len() ==> less[i] == before[i + 1]);
        headers_are_looked_up_by_name(less, header, after, name);
        assert(all[0] == before[0]);
        assert(all.drop_first() =~= less + seq![header] + after);
    }
}

} // verus!
