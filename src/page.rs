//! What the crawler reads out of an HTML page: title, body text without
//! script, style and embedded objects, robots directives and links. The
//! parsing and selector matching are scraper's.
use crate::crawler::{FetchedPage, Link};
use vstd::prelude::*;

verus! {

/// The text nodes of each element matching `selector`, in document order.
pub uninterp spec fn selected_texts_of(html: Seq<char>, selector: Seq<char>) -> Seq<Seq<Seq<char>>>;

/// The value of attribute `attr` on each element matching `selector`, in
/// document order.
pub uninterp spec fn selected_attrs_of(html: Seq<char>, selector: Seq<char>, attr: Seq<char>) -> Seq<
    Option<Seq<char>>,
>;

/// The serialized HTML of each element matching `selector`, in document
/// order.
pub uninterp spec fn selected_html_of(html: Seq<char>, selector: Seq<char>) -> Seq<Seq<char>>;

/// The text nodes of an HTML fragment, in document order.
pub uninterp spec fn fragment_texts_of(html: Seq<char>) -> Seq<Seq<char>>;

/// Text pieces joined by single spaces.
pub open spec fn joined(parts: Seq<Seq<char>>) -> Seq<char>
    decreases parts.len(),
{
    if parts.len() == 0 {
        Seq::empty()
    } else if parts.len() == 1 {
        parts[0]
    } else {
        joined(parts.drop_last()) + seq![' '] + parts.last()
    }
}

pub open spec fn strings_view(v: Seq<String>) -> Seq<Seq<char>> {
    v.map_values(|t: String| t@)
}

/// Joins text pieces with single spaces.
pub fn join_texts(parts: &Vec<String>) -> (r: String)
    ensures
        r@ == joined(strings_view(parts@)),
{
    let ghost pv = strings_view(parts@);
    let mut r = String::new();
    let mut i: usize = 0;
    while i < parts.len()
        invariant
            i <= parts@.len(),
            pv == strings_view(parts@),
            r@ == joined(pv.take(i as int)),
        decreases parts@.len() - i,
    {
        assert(pv.take(i as int + 1).drop_last() =~= pv.take(i as int));
        assert(pv.take(i as int + 1).last() == parts@[i as int]@);
        if i > 0 {
            r.append(" ");
            proof {
                reveal_strlit(" ");
            }
        } else {
            assert(pv.take(0) =~= Seq::<Seq<char>>::empty());
        }
        r.append(parts[i].as_str());
        i = i + 1;
        assert(r@ =~= joined(pv.take(i as int)));
    }
    assert(pv.take(parts@.len() as int) =~= pv);
    r
}

pub open spec fn opt_view(o: Option<String>) -> Option<Seq<char>> {
    match o {
        Some(s) => Some(s@),
        None => None,
    }
}

/// Relies on `scraper::Html::parse_document`, `Selector::parse`, `select`
/// and `ElementRef::text`: the text nodes of each match.
#[verifier::external_body]
fn select_texts(html: &str, selector: &str) -> (r: Vec<Vec<String>>)
    ensures
        r@.map_values(|v: Vec<String>| strings_view(v@)) == selected_texts_of(html@, selector@),
{
    let doc = scraper::Html::parse_document(html);
    match scraper::Selector::parse(selector) {
        Ok(sel) => doc.select(&sel).map(|e| e.text().map(|t| t.to_string()).collect()).collect(),
        Err(_) => Vec::new(),
    }
}

/// Relies on `scraper::Html::parse_document`, `Selector::parse`, `select`
/// and `Element::attr`: the attribute of each match.
#[verifier::external_body]
fn select_attrs(html: &str, selector: &str, attr: &str) -> (r: Vec<Option<String>>)
    ensures
        r@.map_values(|o: Option<String>| opt_view(o)) == selected_attrs_of(html@, selector@, attr@),
{
    let doc = scraper::Html::parse_document(html);
    match scraper::Selector::parse(selector) {
        Ok(sel) => doc.select(&sel).map(|e| e.value().attr(attr).map(|v| v.to_string())).collect(),
        Err(_) => Vec::new(),
    }
}

/// Relies on `scraper::Html::parse_document`, `Selector::parse`, `select`
/// and `ElementRef::html`: the serialized HTML of each match.
#[verifier::external_body]
fn select_html(html: &str, selector: &str) -> (r: Vec<String>)
    ensures
        r@.map_values(|t: String| t@) == selected_html_of(html@, selector@),
{
    let doc = scraper::Html::parse_document(html);
    match scraper::Selector::parse(selector) {
        Ok(sel) => doc.select(&sel).map(|e| e.html()).collect(),
        Err(_) => Vec::new(),
    }
}

/// Relies on `scraper::Html::parse_fragment` and `ElementRef::text`: the
/// fragment's text nodes.
#[verifier::external_body]
fn fragment_texts(html: &str) -> (r: Vec<String>)
    ensures
        strings_view(r@) == fragment_texts_of(html@),
{
    scraper::Html::parse_fragment(html).root_element().text().map(|t| t.to_string()).collect()
}

/// `s` with every occurrence of `pat` removed, scanning left to right
/// without overlaps; an empty pattern removes nothing.
pub open spec fn removed_all(s: Seq<char>, pat: Seq<char>) -> Seq<char>
    decreases s.len(),
{
    if pat.len() == 0 || s.len() == 0 {
        s
    } else if pat.len() <= s.len() && s.take(pat.len() as int) == pat {
        removed_all(s.skip(pat.len() as int), pat)
    } else {
        seq![s[0]] + removed_all(s.skip(1), pat)
    }
}

/// Relies on `str::replace` with an empty replacement: every
/// non-overlapping occurrence, from the left, removed.
#[verifier::external_body]
fn remove_all(s: &str, pat: &str) -> (r: String)
    ensures
        r@ == removed_all(s@, pat@),
{
    s.replace(pat, "")
}

/// The values that are present, in order.
pub open spec fn present(s: Seq<Option<Seq<char>>>) -> Seq<Seq<char>>
    decreases s.len(),
{
    if s.len() == 0 {
        Seq::empty()
    } else {
        match s.last() {
            Some(v) => present(s.drop_last()).push(v),
            None => present(s.drop_last()),
        }
    }
}

/// `body` with each excluded subtree's HTML removed in turn.
pub open spec fn strip_all(body: Seq<char>, excluded: Seq<Seq<char>>) -> Seq<char>
    decreases excluded.len(),
{
    if excluded.len() == 0 {
        body
    } else {
        removed_all(strip_all(body, excluded.drop_last()), excluded.last())
    }
}

/// The links of a page: each `a[href]` with its `rel`, in document order.
pub open spec fn links_of(hrefs: Seq<Option<Seq<char>>>, rels: Seq<Option<Seq<char>>>) -> Seq<(Seq<char>, Option<Seq<char>>)>
    decreases hrefs.len(),
{
    if hrefs.len() == 0 {
        Seq::empty()
    } else {
        let i = hrefs.len() - 1;
        let prev = links_of(hrefs.drop_last(), rels);
        match hrefs[i] {
            Some(h) => prev.push((h, if i < rels.len() { rels[i] } else { None })),
            None => prev,
        }
    }
}

pub open spec fn link_view(l: Link) -> (Seq<char>, Option<Seq<char>>) {
    (l.href@, opt_view(l.rel))
}

/// Reads a fetched HTML page: the content of its robots / googlebot meta
/// tags, its first title, the text of its first body with script, style,
/// noscript, iframe, object and embed subtrees cut out, and its links.
pub fn extract_page(status: u16, content_type: String, html: &str) -> (r: FetchedPage)
    ensures
        r.status == status,
        r.content_type == content_type,
        r.robots_meta@.map_values(|t: String| t@) == present(
            selected_attrs_of(html@, "meta[name=\"robots\"], meta[name=\"googlebot\"]"@, "content"@),
        ),
        opt_view(r.title) == (if selected_texts_of(html@, "title"@).len() > 0 {
            Some(joined(selected_texts_of(html@, "title"@)[0]))
        } else {
            None
        }),
        r.text@ == (if selected_html_of(html@, "body"@).len() > 0 {
            joined(fragment_texts_of(
                strip_all(
                    selected_html_of(html@, "body"@)[0],
                    selected_html_of(html@, "script, style, noscript, iframe, object, embed"@),
                ),
            ))
        } else {
            Seq::empty()
        }),
        r.links@.map_values(|l: Link| link_view(l)) == links_of(
            selected_attrs_of(html@, "a[href]"@, "href"@),
            selected_attrs_of(html@, "a[href]"@, "rel"@),
        ),
{
    let metas = select_attrs(html, "meta[name=\"robots\"], meta[name=\"googlebot\"]", "content");
    let ghost mv = metas@.map_values(|o: Option<String>| opt_view(o));
    let mut robots_meta: Vec<String> = Vec::new();
    let mut i: usize = 0;
    while i < metas.len()
        invariant
            i <= metas@.len(),
            mv == metas@.map_values(|o: Option<String>| opt_view(o)),
            robots_meta@.map_values(|t: String| t@) == present(mv.take(i as int)),
        decreases metas@.len() - i,
    {
        let ghost before = robots_meta@;
        assert(mv.take(i as int + 1).drop_last() =~= mv.take(i as int));
        match &metas[i] {
            Some(c) => {
                robots_meta.push(c.clone());
                assert(robots_meta@.map_values(|t: String| t@) =~= before.map_values(|t: String| t@).push(c@));
            },
            None => {},
        }
        i = i + 1;
    }
    assert(mv.take(metas@.len() as int) =~= mv);
    let titles = select_texts(html, "title");
    let title = if titles.len() > 0 {
        assert(strings_view(titles@[0]@) == selected_texts_of(html@, "title"@)[0]);
        Some(join_texts(&titles[0]))
    } else {
        None
    };
    let bodies = select_html(html, "body");
    let text = if bodies.len() > 0 {
        let excluded = select_html(html, "script, style, noscript, iframe, object, embed");
        let ghost ev = excluded@.map_values(|t: String| t@);
        let ghost b0 = bodies@[0]@;
        let mut content = bodies[0].clone();
        let mut k: usize = 0;
        assert(ev.take(0) =~= Seq::<Seq<char>>::empty());
        while k < excluded.len()
            invariant
                k <= excluded@.len(),
                ev == excluded@.map_values(|t: String| t@),
                content@ == strip_all(b0, ev.take(k as int)),
            decreases excluded@.len() - k,
        {
            assert(ev.take(k as int + 1).drop_last() =~= ev.take(k as int));
            content = remove_all(content.as_str(), excluded[k].as_str());
            k = k + 1;
        }
        assert(ev.take(excluded@.len() as int) =~= ev);
        join_texts(&fragment_texts(content.as_str()))
    } else {
        String::new()
    };
    let hrefs = select_attrs(html, "a[href]", "href");
    let rels = select_attrs(html, "a[href]", "rel");
    let ghost hv = hrefs@.map_values(|o: Option<String>| opt_view(o));
    let ghost rv = rels@.map_values(|o: Option<String>| opt_view(o));
    let mut links: Vec<Link> = Vec::new();
    let mut j: usize = 0;
    while j < hrefs.len()
        invariant
            j <= hrefs@.len(),
            hv == hrefs@.map_values(|o: Option<String>| opt_view(o)),
            rv == rels@.map_values(|o: Option<String>| opt_view(o)),
            links@.map_values(|l: Link| link_view(l)) == links_of(hv.take(j as int), rv),
        decreases hrefs@.len() - j,
    {
        let ghost before = links@;
        assert(hv.take(j as int + 1).drop_last() =~= hv.take(j as int));
        match &hrefs[j] {
            Some(h) => {
                let rel = if j < rels.len() {
                    match &rels[j] {
                        Some(x) => Some(x.clone()),
                        None => None,
                    }
                } else {
                    None
                };
                let l = Link { href: h.clone(), rel };
                links.push(l);
                assert(links@.map_values(|l: Link| link_view(l)) =~= before.map_values(|l: Link| link_view(l)).push(link_view(l)));
            },
            None => {},
        }
        j = j + 1;
    }
    assert(hv.take(hrefs@.len() as int) =~= hv);
    FetchedPage { status, content_type, title, text, robots_meta, links }
}

} // verus!
