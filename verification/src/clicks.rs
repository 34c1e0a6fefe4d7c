//! What a click on a shown page does.
use crate::inline::{target_view, Inline, LinkTarget};
use crate::links::{is_safe_external_url, safe_url, LinkHit, Target};
use crate::overlay::{map_to_source, source_at};
use crate::properties::{property_value_segments, seg_views, segments, PropSeg, Segment};
use crate::text::{push_char, to_string, trim, trim_range, Text};
use vstd::prelude::*;

verus! {

/// What a click on a link does: opens a page, opens a URL, or nothing.
#[derive(PartialEq, Eq, Debug)]
pub enum Follow<S> {
    Page(S),
    Url(S),
    Nothing,
}

/// A step as a value.
pub open spec fn follow_view(f: Follow<String>) -> Follow<Seq<char>> {
    match f {
        Follow::Page(s) => Follow::Page(s@),
        Follow::Url(s) => Follow::Url(s@),
        Follow::Nothing => Follow::Nothing,
    }
}

/// A URL is opened only if it is safe to hand to the system: pages are
/// untrusted.
pub open spec fn open_url(url: Seq<char>) -> Follow<Seq<char>> {
    if safe_url(url) {
        Follow::Url(url)
    } else {
        Follow::Nothing
    }
}

/// A page is opened only if someone handles it.
pub open spec fn open_page(title: Seq<char>, handled: bool) -> Follow<Seq<char>> {
    if handled {
        Follow::Page(title)
    } else {
        Follow::Nothing
    }
}

/// What a click on an inline link does.
pub open spec fn followed(target: Option<LinkTarget<Seq<char>>>, handled: bool) -> Follow<
    Seq<char>,
> {
    match target {
        Some(LinkTarget::Wiki(title)) => open_page(title, handled),
        Some(LinkTarget::Url(url)) => open_url(url),
        None => Follow::Nothing,
    }
}

fn try_url(url: &String) -> (r: Follow<String>)
    ensures
        follow_view(r) == open_url(url@),
{
    if is_safe_external_url(url.as_str()) {
        Follow::Url(url.clone())
    } else {
        Follow::Nothing
    }
}

/// Follows an inline link. `handled` says whether the host opens pages.
pub fn follow_link(target: Option<&LinkTarget<String>>, handled: bool) -> (r: Follow<String>)
    ensures
        follow_view(r) == followed(
            match target {
                Some(t) => Some(target_view(*t)),
                None => None,
            },
            handled,
        ),
{
    match target {
        Some(LinkTarget::Wiki(title)) => if handled {
            Follow::Page(title.clone())
        } else {
            Follow::Nothing
        },
        Some(LinkTarget::Url(url)) => try_url(url),
        None => Follow::Nothing,
    }
}

/// What a click on a property pill does; a block reference opens as `#^id`.
pub open spec fn pill_followed(hit: Target, handled: bool) -> Follow<Seq<char>> {
    match hit {
        Target::Page(title) => open_page(title, handled),
        Target::BlockRef(id) => open_page(seq!['#', '^'] + id, handled),
        Target::Url(url) => open_url(url),
    }
}

/// Follows a property pill.
pub fn follow_pill(hit: &LinkHit, handled: bool) -> (r: Follow<String>)
    ensures
        follow_view(r) == pill_followed(hit@, handled),
{
    match hit {
        LinkHit::Page(title) => if handled {
            Follow::Page(title.clone())
        } else {
            Follow::Nothing
        },
        LinkHit::BlockRef(id) => if handled {
            let mut title = String::new();
            push_char(&mut title, '#');
            push_char(&mut title, '^');
            title.append(id.as_str());
            assert(title@ =~= seq!['#', '^'] + id@);
            Follow::Page(title)
        } else {
            Follow::Nothing
        },
        LinkHit::Url(url) => try_url(url),
    }
}

// --- Property values ---

/// The segments of a property value as its panel shows them, from `i` on: text
/// without the whitespace around it, and none that is blank.
pub open spec fn parts_from(all: Seq<Segment>, i: int) -> Seq<Segment>
    decreases all.len() - i,
{
    if i < 0 || i >= all.len() {
        seq![]
    } else {
        let rest = parts_from(all, i + 1);
        match all[i] {
            Segment::Text(t) => if trim(t).len() == 0 {
                rest
            } else {
                seq![Segment::Text(trim(t))] + rest
            },
            pill => seq![pill] + rest,
        }
    }
}

/// What the panel shows of a property value.
pub fn value_parts(value: &str) -> (r: Vec<PropSeg>)
    ensures
        seg_views(r@) == parts_from(segments(value@), 0),
{
    let all = property_value_segments(value);
    let ghost want = parts_from(segments(value@), 0);
    let ghost views = seg_views(all@);
    let mut out: Vec<PropSeg> = Vec::new();
    let ghost mut n: int = 0;
    assert(seg_views(out@) =~= seq![]);
    assert(seq![] + want =~= want);
    for seg in it: all
        invariant
            views == seg_views(it.seq()),
            it.index() == n,
            want == seg_views(out@) + parts_from(views, n),
    {
        let ghost before = seg_views(out@);
        assert(views[n] == seg@);
        match seg {
            PropSeg::Text(t) => {
                let x = Text::new(t.as_str());
                let s = x.chars.as_slice();
                let (a, b) = trim_range(s);
                if a < b {
                    let cut = to_string(crate::text::part(s, a, b));
                    assert(cut@ == trim(t@));
                    out.push(PropSeg::Text(cut));
                    assert(seg_views(out@) =~= before + seq![Segment::Text(trim(t@))]);
                    assert(before + (seq![Segment::Text(trim(t@))] + parts_from(views, n + 1))
                        =~= seg_views(out@) + parts_from(views, n + 1));
                }
            },
            PropSeg::Pill { label, target, is_tag } => {
                let ghost p = Segment::Pill { label: label@, target: target@, is_tag };
                out.push(PropSeg::Pill { label, target, is_tag });
                assert(seg_views(out@) =~= before + seq![p]);
                assert(before + (seq![p] + parts_from(views, n + 1)) =~= seg_views(out@)
                    + parts_from(views, n + 1));
            },
        }
        proof {
            n = n + 1;
        }
    }
    assert(seg_views(out@) + Seq::<Segment>::empty() =~= seg_views(out@));
    out
}

// --- Inline text ---

/// The first link from `i` on over a byte of the text.
pub open spec fn link_over(
    links: Seq<(int, int, LinkTarget<Seq<char>>)>,
    at: int,
    i: int,
) -> Option<int>
    decreases links.len() - i,
{
    if i < 0 || i >= links.len() {
        None
    } else if links[i].0 <= at < links[i].1 {
        Some(i)
    } else {
        link_over(links, at, i + 1)
    }
}

/// The link over a byte of the text.
pub fn find_link(inline: &Inline, at: usize) -> (r: Option<usize>)
    ensures
        r is Some == link_over(inline@.links, at as int, 0) is Some,
        r is Some ==> r->0 as int == link_over(inline@.links, at as int, 0)->0,
{
    let ghost all = inline@.links;
    let mut i: usize = 0;
    while i < inline.links.len()
        invariant
            i <= inline.links@.len(),
            all == inline@.links,
            link_over(all, at as int, 0) == link_over(all, at as int, i as int),
        decreases inline.links.len() - i,
    {
        let l = &inline.links[i];
        assert(all[i as int] == (l.0.start as int, l.0.end as int, target_view(l.1)));
        if l.0.start <= at && at < l.0.end {
            return Some(i);
        }
        i += 1;
    }
    None
}

/// What a click on shown text does: previews the image under it, is left to the
/// link under it, puts the caret at a place of the source, or nothing.
#[derive(PartialEq, Eq, Debug)]
pub enum Click<S> {
    Preview(S),
    Link,
    Caret(usize),
    Nothing,
}

/// A click as a value.
pub open spec fn click_view(c: Click<String>) -> Click<Seq<char>> {
    match c {
        Click::Preview(s) => Click::Preview(s@),
        Click::Link => Click::Link,
        Click::Caret(n) => Click::Caret(n),
        Click::Nothing => Click::Nothing,
    }
}

/// A click on the image `image`, or else on byte `at` of the text.
pub fn click_text(inline: &Inline, image: Option<String>, at: usize) -> (r: Click<String>)
    requires
        source_at(inline.source_map@, at as int) is Some ==> source_at(
            inline.source_map@,
            at as int,
        )->0 <= usize::MAX,
    ensures
        click_view(r) == match image {
            Some(src) => Click::Preview(src@),
            None => if link_over(inline@.links, at as int, 0) is Some {
                Click::Link
            } else {
                match source_at(inline.source_map@, at as int) {
                    Some(b) => Click::Caret(b as usize),
                    None => Click::Nothing,
                }
            },
        },
{
    if let Some(src) = image {
        return Click::Preview(src);
    }
    if find_link(inline, at).is_some() {
        return Click::Link;
    }
    match map_to_source(inline.source_map.as_slice(), at) {
        Some(b) => Click::Caret(b),
        None => Click::Nothing,
    }
}

// --- Laws ---

/// A link whose target is no web or mail address is never handed to the system.
pub proof fn law_only_safe_urls_open(target: Option<LinkTarget<Seq<char>>>, hit: Target, handled: bool)
    ensures
        followed(target, handled) matches Follow::Url(u) ==> safe_url(u),
        pill_followed(hit, handled) matches Follow::Url(u) ==> safe_url(u),
{
}

} // verus!
