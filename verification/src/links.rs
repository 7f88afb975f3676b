//! Link extraction, delegated to the `linkify` crate.

use vstd::prelude::*;

verus! {

/// The sequence of URLs that link extraction finds in a text, in the order
/// they occur. The result is a function of the text alone.
pub uninterp spec fn links_of(text: Seq<char>) -> Seq<Seq<char>>;

/// Relies on `linkify::LinkFinder::links` restricted to `LinkKind::Url`:
/// scanning is a pure function of the text, with no side effects, so its
/// result on equal texts is equal.
#[verifier::external_body]
pub(crate) fn find_links(text: &str) -> (r: Vec<String>)
    ensures
        r.deep_view() == links_of(text@),
{
    let mut finder = linkify::LinkFinder::new();
    finder.kinds(&[linkify::LinkKind::Url]);
    finder.links(text).map(|l| l.as_str().to_string()).collect()
}

} // verus!
