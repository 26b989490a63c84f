//! Looking up partial templates by name.

use vstd::prelude::*;

use crate::text::string_of;

verus! {

/// A resolver's answer as characters.
pub open spec fn reply_view(r: Option<String>) -> Option<Seq<char>> {
    match r {
        Some(s) => Some(s@),
        None => None,
    }
}

/// Supplies the text of a partial template for a name.
///
/// Users implement this trait; the engine asks for a partial each time it
/// renders a partial tag, with the tag's name. An implementation says in
/// `answers` which replies it may give for a name; the answers may differ
/// from one call to the next (a resolver that reads files sees the files as
/// they are at that moment), and an implementation that promises nothing
/// keeps the default, which allows any answer.
pub trait PartialResolver {
    /// Whether `reply` is an answer this resolver may give for `name`; by
    /// default any answer.
    open spec fn answers(&self, name: Seq<char>, reply: Option<Seq<char>>) -> bool {
        true
    }

    /// The text of the partial called `name`, or `None` when there is none.
    fn resolve(&self, name: &str) -> (r: Option<String>)
        ensures
            self.answers(name@, reply_view(r)),
    ;
}

/// The file a directory of partials holds partial `name` in: the name with
/// `.mustache` appended, taken relative to that directory.
pub fn partial_file_name(name: &str) -> (r: String)
    ensures
        r@ == name@ + ".mustache"@,
{
    let mut file = string_of(name);
    file.append(".mustache");
    file
}

} // verus!
