//! Content types.

use std::str::FromStr;

use vstd::prelude::*;

use crate::text::same_ignoring_case;

verus! {

/// A content type: a top-level type, a sub type, and parameters in order.
#[derive(Debug, Clone)]
pub struct ContentType {
    /// The top-level type, such as `multipart`.
    pub top: String,
    /// The sub type, such as `mixed`.
    pub sub: String,
    /// The parameters, each a name and a value.
    pub params: Vec<(String, String)>,
}

impl View for ContentType {
    type V = (Seq<char>, Seq<char>, Seq<(Seq<char>, Seq<char>)>);

    open spec fn view(&self) -> (Seq<char>, Seq<char>, Seq<(Seq<char>, Seq<char>)>) {
        (
            self.top@,
            self.sub@,
            self.params@.map_values(|param: (String, String)| (param.0@, param.1@)),
        )
    }
}

/// The value of the first parameter with this name, without regard to case.
pub open spec fn param_of(params: Seq<(Seq<char>, Seq<char>)>, name: Seq<char>) -> Option<
    Seq<char>,
>
    decreases params.len(),
{
    if params.len() == 0 {
        None
    } else if same_ignoring_case(params[0].0, name) {
        Some(params[0].1)
    } else {
        param_of(params.drop_first(), name)
    }
}

/// What Rocket reads from the text of a content type: the top-level type, the
/// sub type and the parameters, or nothing where the text is not one.
pub uninterp spec fn parsed_content_type(text: Seq<char>) -> Option<
    (Seq<char>, Seq<char>, Seq<(Seq<char>, Seq<char>)>),
>;

/// `rocket::http::ContentType::from_str` reads a content type, always the same
/// one from the same text.
#[verifier::external_body]
pub(crate) fn read_content_type(text: &str) -> (parsed: Option<ContentType>)
    ensures
        match parsed {
            Some(content_type) => parsed_content_type(text@) == Some(content_type@),
            None => parsed_content_type(text@) is None,
        },
{
    let parsed = rocket::http::ContentType::from_str(text).ok()?;
    let params = parsed.params().map(|(k, v)| (k.to_string(), v.to_string())).collect();
    Some(ContentType { top: parsed.top().to_string(), sub: parsed.sub().to_string(), params })
}

impl ContentType {
    /// The value of the first parameter with this name, without regard to case.
    pub fn param(&self, name: &str) -> (value: Option<&str>)
        ensures
            match value {
                Some(v) => param_of(self@.2, name@) == Some(v@),
                None => param_of(self@.2, name@) is None,
            },
    {
        let mut i: usize = 0;
        assert(self@.2.skip(0) =~= self@.2);
        while i < self.params.len()
            invariant
                i <= self.params@.len(),
                self@.2.len() == self.params@.len(),
                param_of(self@.2, name@) == param_of(self@.2.skip(i as int), name@),
            decreases self.params@.len() - i,
        {
            assert(self@.2.skip(i as int)[0] == (self.params@[i as int].0@, self.params@[i as int].1@));
            assert(self@.2.skip(i as int).drop_first() =~= self@.2.skip(i + 1));
            if self.params[i].0.as_str().eq_ignore_ascii_case(name) {
                return Some(self.params[i].1.as_str());
            }
            i += 1;
        }
        None
    }
}

} // verus!
