//! What is served without asking a page handler: resources that are part of
//! the site, and the decision what a path of one segment stands for.

use vstd::prelude::*;
use vstd::string::*;
use vstd::utf8::encode_utf8;
use crate::headers::{Field, Headers};
use crate::server::Response;
use crate::text::{str_eq, texts};

verus! {

/// How long a client may keep a resource: two weeks, a shared cache one day.
pub open spec fn keep_policy() -> Seq<char> {
    "public, max-age=1209600, s-maxage=86400"@
}

/// The headers of a resource of the given type: the type, and with `cache`
/// the [`keep_policy`].
pub open spec fn resource_headers(content_type: Seq<char>, cache: bool) -> Seq<Field> {
    if cache {
        seq![("content-type"@, content_type), ("Cache-Control"@, keep_policy())]
    } else {
        seq![("content-type"@, content_type)]
    }
}

/// The response that serves `body` as a resource of the given type.
pub fn resource<B>(body: B, content_type: &str, cache: bool) -> (res: Response<B>)
    ensures
        res.status == 200,
        res.status_text@ == Seq::<char>::empty(),
        res.headers@ == resource_headers(content_type@, cache),
        res.body == body,
{
    let mut headers = Headers::new();
    headers.append("content-type", content_type);
    if cache {
        headers.append("Cache-Control", "public, max-age=1209600, s-maxage=86400");
    }
    proof {
        assert(headers@ =~= resource_headers(content_type@, cache));
    }
    Response { status: 200, status_text: String::new(), headers, body }
}

/// `base` followed by each of `themes`, every theme on a new line.
pub open spec fn stylesheet(base: Seq<char>, themes: Seq<Seq<char>>) -> Seq<char>
    decreases themes.len(),
{
    if themes.len() == 0 {
        base
    } else {
        stylesheet(base, themes.drop_last()).push('\n') + themes.last()
    }
}

/// The response that serves the style sheet: `base` with the themes
/// appended, see [`stylesheet`], as a resource that clients may keep.
pub fn style(base: &str, themes: &Vec<String>) -> (res: Response<String>)
    ensures
        res.status == 200,
        res.status_text@ == Seq::<char>::empty(),
        res.headers@ == resource_headers("text/css"@, true),
        res.body@ == stylesheet(base@, texts(themes@)),
{
    let ghost all = texts(themes@);
    let mut text = String::from_str(base);
    let mut i: usize = 0;
    proof {
        assert(all.take(0) == Seq::<Seq<char>>::empty());
    }
    while i < themes.len()
        invariant
            i <= themes.len(),
            all == texts(themes@),
            text@ == stylesheet(base@, all.take(i as int)),
        decreases themes.len() - i,
    {
        proof {
            assert(all.take(i + 1).drop_last() == all.take(i as int));
            assert(all.take(i + 1).last() == themes@[i as int]@);
        }
        text.push('\n');
        text.append(themes[i].as_str());
        i += 1;
    }
    proof {
        assert(all.take(all.len() as int) == all);
    }
    resource(text, "text/css", true)
}

/// What a path of one segment stands for.
#[derive(Debug, Clone, PartialEq, Eq)]
pub enum Visit {
    /// The front page in the order that the segment names.
    FrontPage,
    /// A short link to a post: resolve the canonical path of this path.
    ShortLink(String),
    /// Nothing.
    Nothing,
}

/// Whether `id` names an order of the front page.
pub open spec fn is_sorting(id: Seq<char>) -> bool {
    id == "best"@ || id == "hot"@ || id == "new"@ || id == "top"@ || id == "rising"@ || id
        == "controversial"@
}

/// Whether `id` has the length of a short link: 5 to 7 bytes.
pub open spec fn is_short(id: Seq<char>) -> bool {
    5 <= encode_utf8(id).len() < 8
}

fn is_short_id(id: &str) -> (r: bool)
    ensures
        r == is_short(id@),
{
    let n = id.as_bytes().len();
    5 <= n && n < 8
}

/// Decides what the segment `id` stands for: an order of the front page by
/// its name; else a short link to the path `/id` if it has the length of
/// one; else nothing, as does a missing segment.
pub fn visit(id: Option<&str>) -> (v: Visit)
    ensures
        match id {
            None => v is Nothing,
            Some(s) => if is_sorting(s@) {
                v is FrontPage
            } else if is_short(s@) {
                v matches Visit::ShortLink(path) && path@ == seq!['/'] + s@
            } else {
                v is Nothing
            },
        },
{
    match id {
        None => Visit::Nothing,
        Some(id) => {
            if str_eq(id, "best") || str_eq(id, "hot") || str_eq(id, "new") || str_eq(id, "top")
                || str_eq(id, "rising") || str_eq(id, "controversial") {
                Visit::FrontPage
            } else if is_short_id(id) {
                let mut path = String::new();
                path.push('/');
                path.append(id);
                proof {
                    assert(path@ =~= seq!['/'] + id@);
                }
                Visit::ShortLink(path)
            } else {
                Visit::Nothing
            }
        },
    }
}

/// The message for a short link that leads nowhere.
pub open spec fn dead_link() -> Seq<char> {
    "Post ID is invalid. It may point to a post on a community that has been banned."@
}

/// Where a short link leads, given the outcome of resolving its canonical
/// path: to that path, or to an error with the text of the failure, or with
/// [`dead_link`] where there is no canonical path.
pub fn follow_short_link(canonical: Result<Option<String>, String>) -> (r: Result<String, String>)
    ensures
        match canonical {
            Ok(Some(path)) => r == Ok::<String, String>(path),
            Ok(None) => r matches Err(text) && text@ == dead_link(),
            Err(cause) => r == Err::<String, String>(cause),
        },
{
    match canonical {
        Ok(Some(path)) => Ok(path),
        Ok(None) => Err(
            String::from_str(
                "Post ID is invalid. It may point to a post on a community that has been banned.",
            ),
        ),
        Err(cause) => Err(cause),
    }
}

} // verus!
