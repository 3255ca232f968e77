use pulldown_cmark::{CowStr, Event, LinkType, Tag};
use vstd::prelude::*;

verus! {

/// Converts challenge and competition markdown to HTML, rewriting in-text
/// links that reference an attachment's declared filename into the asset
/// store's public URL. Markdown parsing and HTML serialisation are the
/// work of an outside library; the link substitution decision is verified
/// here.
///
/// The filename-to-URL substitutions a description is rendered with, as a
/// map: a later pair for the same filename wins.
pub open spec fn link_map_of(pairs: Seq<(String, String)>) -> Map<Seq<char>, Seq<char>>
    decreases pairs.len(),
{
    if pairs.len() == 0 {
        Map::empty()
    } else {
        link_map_of(pairs.drop_last()).insert(pairs.last().0@, pairs.last().1@)
    }
}

/// The map ignores pairs beyond `i` whose filename is not `k`.
proof fn lemma_link_map_skip(pairs: Seq<(String, String)>, k: Seq<char>, i: int)
    requires
        0 <= i <= pairs.len(),
        forall|j: int| i <= j < pairs.len() ==> pairs[j].0@ != k,
    ensures
        link_map_of(pairs).dom().contains(k) == link_map_of(pairs.take(i)).dom().contains(k),
        link_map_of(pairs).dom().contains(k) ==> link_map_of(pairs)[k] == link_map_of(
            pairs.take(i),
        )[k],
    decreases pairs.len() - i,
{
    if i < pairs.len() {
        lemma_link_map_skip(pairs, k, i + 1);
        let cut = pairs.take(i + 1);
        assert(cut.drop_last() =~= pairs.take(i));
        assert(cut.last() == pairs[i]);
    } else {
        assert(pairs.take(i) =~= pairs);
    }
}

/// The target an inline link ends up with: the asset URL recorded for the
/// link's destination, where one is recorded; the destination unchanged
/// otherwise.
pub fn rewrite_href(links: &Vec<(String, String)>, href: &String) -> (target: String)
    ensures
        link_map_of(links@).dom().contains(href@) ==> target@ == link_map_of(links@)[href@],
        !link_map_of(links@).dom().contains(href@) ==> target@ == href@,
{
    let mut i: usize = links.len();
    while i > 0
        invariant
            0 <= i <= links@.len(),
            forall|j: int| i <= j < links@.len() ==> links@[j].0@ != href@,
        decreases i,
    {
        i -= 1;
        if links[i].0 == *href {
            proof {
                lemma_link_map_skip(links@, href@, i + 1);
                let cut = links@.take(i + 1);
                assert(cut.drop_last() =~= links@.take(i as int));
                assert(cut.last() == links@[i as int]);
            }
            return links[i].1.clone();
        }
    }
    proof {
        lemma_link_map_skip(links@, href@, 0);
        assert(links@.take(0) =~= Seq::<(String, String)>::empty());
    }
    href.clone()
}

/// The HTML an outside markdown renderer produces for a source text under
/// given link substitutions; it depends on the text and the substitutions
/// alone.
pub uninterp spec fn md_html_of(md: Seq<char>, links: Map<Seq<char>, Seq<char>>) -> Seq<char>;

/// Relies on pulldown_cmark: `Parser::new` turns CommonMark text into an
/// event stream and `html::push_html` serialises the stream as HTML. Every
/// inline-link event is routed through the verified `rewrite_href`; all
/// other events pass through untouched.
#[verifier::external_body]
pub fn render_markdown(md: &String, links: &Vec<(String, String)>) -> (html: String)
    ensures
        html@ == md_html_of(md@, link_map_of(links@)),
{
    let parser = pulldown_cmark::Parser::new(md).map(|event| match event {
        Event::Start(Tag::Link(LinkType::Inline, href, title)) => {
            let target = rewrite_href(links, &href.clone().into_string());
            let boxed = CowStr::Boxed(target.into_boxed_str());
            Event::Start(Tag::Link(LinkType::Inline, boxed, title))
        },
        other => other,
    });
    let mut html = String::new();
    pulldown_cmark::html::push_html(&mut html, parser);
    html
}

} // verus!
