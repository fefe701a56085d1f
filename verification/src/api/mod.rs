//! What the server answers: representations, documents and pages.
pub mod data;
pub mod html;
pub mod metadata;
pub mod negotiate;

use vstd::prelude::*;

use crate::catalog::Catalog;
use crate::config::Config;
use crate::json::{self, Fields, Json, Tree};

verus! {

/// The collections that are served, and how.
#[derive(Debug)]
pub struct AppState {
    pub catalog: Catalog,
    pub config: Config,
}

/// An href a reader can paste into a shell: the configured base URL where there
/// is one, and the request's own host otherwise.
pub open spec fn pasteable(base_url: Seq<char>, path: Seq<char>, host: Option<Seq<char>>) -> Seq<
    char,
> {
    match host {
        Some(h) if base_url.len() == 0 => "http://"@ + h + path,
        _ => base_url + path,
    }
}

/// What a text that may be absent holds.
pub open spec fn maybe(s: Option<&str>) -> Option<Seq<char>> {
    match s {
        Some(t) => Some(t@),
        None => None,
    }
}

impl AppState {
    pub open spec fn wf(&self) -> bool {
        &&& self.catalog.wf()
        &&& forall|i: int|
            0 <= i < self.catalog.collections.entries@.len() ==> (
            #[trigger] self.catalog.collections.entries@[i]).1.wf()
    }

    /// Absolute or root-relative href for an API path.
    pub fn href(&self, path: &str) -> (r: String)
        ensures
            r@ == self.config.base_url@ + path@,
    {
        let mut out: String = self.config.base_url.clone();
        out.append(path);
        out
    }

    /// An href a reader can paste into a shell.
    ///
    /// Root-relative links are right for navigation but useless in a `curl`
    /// example, so a configured base URL is used when there is one and the
    /// request's own `Host` otherwise.
    pub fn absolute_href(&self, path: &str, host: Option<&str>) -> (r: String)
        ensures
            r@ == pasteable(self.config.base_url@, path@, maybe(host)),
    {
        let bare = crate::text::chars_of(self.config.base_url.as_str()).len() == 0;
        if bare {
            if let Some(h) = host {
                let mut out: String = "http://".to_owned();
                out.append(h);
                out.append(path);
                return out;
            }
        }
        self.href(path)
    }
}

/// A link of a document.
pub open spec fn link_tree(
    href: Seq<char>,
    rel: Seq<char>,
    media_type: Seq<char>,
    title: Seq<char>,
) -> Tree {
    Tree::Object(
        json::no_fields().push(("href"@, json::t(href))).push(("rel"@, json::t(rel))).push(
            ("type"@, json::t(media_type)),
        ).push(("title"@, json::t(title))),
    )
}

pub fn link(href: String, rel: &str, media_type: &str, title: &str) -> (r: Json)
    ensures
        json::tree(r) == link_tree(href@, rel@, media_type@, title@),
{
    let mut f = Fields::new();
    f.put_text("href", href.as_str());
    f.put_text("rel", rel);
    f.put_text("type", media_type);
    f.put_text("title", title);
    f.done()
}

/// Whether a value is a link that leads to `href`, under a relation and for a media
/// type.
pub open spec fn leads_to(
    link: Tree,
    href: Seq<char>,
    rel: Seq<char>,
    media_type: Seq<char>,
) -> bool {
    &&& json::member(link, "href"@) == Some(Tree::Text(href))
    &&& json::member(link, "rel"@) == Some(Tree::Text(rel))
    &&& json::member(link, "type"@) == Some(Tree::Text(media_type))
}

/// A link is read back as it was made: each of its parts stands under its name.
pub proof fn a_link_leads_where_it_was_made_to(
    href: Seq<char>,
    rel: Seq<char>,
    media_type: Seq<char>,
    title: Seq<char>,
)
    ensures
        leads_to(link_tree(href, rel, media_type, title), href, rel, media_type),
        json::member(link_tree(href, rel, media_type, title), "title"@) == Some(
            Tree::Text(title),
        ),
{
    broadcast use json::what_is_put_is_found;

    reveal_strlit("href");
    reveal_strlit("rel");
    reveal_strlit("type");
    reveal_strlit("title");
    assert("href"@.len() == 4 && "rel"@.len() == 3 && "type"@.len() == 4 && "title"@.len() == 5);
    assert("href"@[0] == 'h' && "type"@[0] == 't');
}

/// A link to paste starts with the configured base where there is one, and names
/// the host of the request where there is none.
pub proof fn a_pasteable_link_names_its_host(
    base_url: Seq<char>,
    path: Seq<char>,
    host: Seq<char>,
)
    ensures
        pasteable(base_url, path, None) == base_url + path,
        base_url.len() > 0 ==> pasteable(base_url, path, Some(host)) == base_url + path,
        pasteable(Seq::empty(), path, Some(host)) == "http://"@ + host + path,
{
}

} // verus!
