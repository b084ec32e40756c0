//! Which configured links apply on this machine: the operating system and host
//! filters, and the optional tag filter of `sync --tag`.
use vstd::prelude::*;
use crate::config::LinkEntry;
use crate::env::Environment;

verus! {

/// Why a link is kept or skipped.
#[derive(Debug, Clone, Copy, PartialEq, Eq, Structural)]
pub enum LinkVerdict {
    /// The link applies.
    Keep,
    /// The link asks for another operating system.
    OsMismatch,
    /// The link asks for another host.
    HostMismatch,
    /// A tag was asked for and the link does not carry it.
    TagMismatch,
}

/// What a target path holds, as the `check` command reports it.
#[derive(Debug, Clone, Copy, PartialEq, Eq, Structural)]
pub enum TargetStatus {
    /// The target is a symlink.
    Linked,
    /// The target is a regular file or directory.
    Conflict,
    /// Nothing is at the target.
    Missing,
}

/// The tag asked for, as plain characters.
pub open spec fn tag_view(tag: Option<&String>) -> Option<Seq<char>> {
    match tag {
        Some(t) => Some(t@),
        None => None,
    }
}

/// The link's tags include `tag`.
pub open spec fn has_tag(tags: Option<Vec<String>>, tag: Seq<char>) -> bool {
    match tags {
        Some(ts) => exists|i: int| 0 <= i < ts@.len() && #[trigger] ts@[i]@ == tag,
        None => false,
    }
}

/// The verdict on `link` in `env`: the operating system is checked first, then
/// the host, then the tag when one is asked for.
pub open spec fn verdict(link: LinkEntry, env: Environment, tag: Option<Seq<char>>) -> LinkVerdict {
    if link.os is Some && link.os->0@ != env.os@ {
        LinkVerdict::OsMismatch
    } else if link.host is Some && link.host->0@ != env.hostname@ {
        LinkVerdict::HostMismatch
    } else if tag is Some && !has_tag(link.tags, tag->0) {
        LinkVerdict::TagMismatch
    } else {
        LinkVerdict::Keep
    }
}

/// The links of `links` whose verdict is `Keep`, in their order.
pub open spec fn kept_links(links: Seq<LinkEntry>, env: Environment, tag: Option<Seq<char>>) -> Seq<
    LinkEntry,
>
    decreases links.len(),
{
    if links.len() == 0 {
        Seq::empty()
    } else if verdict(links.last(), env, tag) == LinkVerdict::Keep {
        kept_links(links.drop_last(), env, tag).push(links.last())
    } else {
        kept_links(links.drop_last(), env, tag)
    }
}

fn same_text(a: &String, b: &String) -> (r: bool)
    ensures
        r == (a@ == b@),
{
    *a == *b
}

/// Whether `tags` holds `tag`.
fn tags_contain(tags: &Option<Vec<String>>, tag: &String) -> (r: bool)
    ensures
        r == has_tag(*tags, tag@),
{
    match tags {
        Some(ts) => {
            let mut i: usize = 0;
            while i < ts.len()
                invariant
                    i <= ts@.len(),
                    *tags == Some(*ts),
                    forall|j: int| 0 <= j < i ==> #[trigger] ts@[j]@ != tag@,
                decreases ts@.len() - i,
            {
                if same_text(&ts[i], tag) {
                    assert(ts@[i as int]@ == tag@);
                    assert(tags->0@[i as int]@ == tag@);
                    return true;
                }
                i = i + 1;
            }
            false
        },
        None => false,
    }
}

/// The verdict on one link.
pub fn link_verdict(link: &LinkEntry, env: &Environment, tag: Option<&String>) -> (r: LinkVerdict)
    ensures
        r == verdict(*link, *env, tag_view(tag)),
{
    match &link.os {
        Some(os) => {
            if !same_text(os, &env.os) {
                return LinkVerdict::OsMismatch;
            }
        },
        None => {},
    }
    match &link.host {
        Some(host) => {
            if !same_text(host, &env.hostname) {
                return LinkVerdict::HostMismatch;
            }
        },
        None => {},
    }
    match tag {
        Some(t) => {
            if !tags_contain(&link.tags, t) {
                return LinkVerdict::TagMismatch;
            }
        },
        None => {},
    }
    LinkVerdict::Keep
}

/// The links that apply in `env` (and carry `tag`, when one is asked for), in
/// their order.
pub fn select_links(links: Vec<LinkEntry>, env: &Environment, tag: Option<&String>) -> (r: Vec<
    LinkEntry,
>)
    ensures
        r@ == kept_links(links@, *env, tag_view(tag)),
{
    let ghost all = links@;
    let mut rest = links;
    let mut out: Vec<LinkEntry> = Vec::new();
    let ghost mut k: int = 0;
    assert(all.take(0) =~= Seq::<LinkEntry>::empty());
    assert(all.skip(0) =~= all);
    while rest.len() > 0
        invariant
            0 <= k <= all.len(),
            rest@ == all.skip(k),
            out@ == kept_links(all.take(k), *env, tag_view(tag)),
        decreases rest@.len(),
    {
        let link = rest.remove(0);
        proof {
            assert(all.take(k + 1).drop_last() =~= all.take(k));
            assert(all.take(k + 1).last() == link);
            assert(all.skip(k).remove(0) =~= all.skip(k + 1));
        }
        match link_verdict(&link, env, tag) {
            LinkVerdict::Keep => {
                out.push(link);
            },
            _ => {},
        }
        proof {
            k = k + 1;
        }
    }
    assert(all.take(k) =~= all);
    out
}

/// What the `check` command reports for a target, from whether it is a symlink and
/// whether anything is there.
pub fn target_status(is_symlink: bool, exists: bool) -> (r: TargetStatus)
    ensures
        is_symlink ==> r == TargetStatus::Linked,
        !is_symlink && exists ==> r == TargetStatus::Conflict,
        !is_symlink && !exists ==> r == TargetStatus::Missing,
{
    if is_symlink {
        TargetStatus::Linked
    } else if exists {
        TargetStatus::Conflict
    } else {
        TargetStatus::Missing
    }
}

/// Selection keeps exactly the links whose verdict is `Keep`: every selected
/// link is one of the configured links and applies, and every configured link
/// that applies is selected.
pub proof fn lemma_selection_exact(links: Seq<LinkEntry>, env: Environment, tag: Option<Seq<char>>)
    ensures
        forall|i: int|
            0 <= i < kept_links(links, env, tag).len() ==> verdict(
                #[trigger] kept_links(links, env, tag)[i],
                env,
                tag,
            ) == LinkVerdict::Keep && links.contains(kept_links(links, env, tag)[i]),
        forall|i: int|
            0 <= i < links.len() && verdict(#[trigger] links[i], env, tag) == LinkVerdict::Keep
                ==> kept_links(links, env, tag).contains(links[i]),
        kept_links(links, env, tag).len() <= links.len(),
    decreases links.len(),
{
    if links.len() > 0 {
        let init = links.drop_last();
        lemma_selection_exact(init, env, tag);
        let k = kept_links(links, env, tag);
        let ki = kept_links(init, env, tag);
        assert forall|i: int| 0 <= i < k.len() implies verdict(#[trigger] k[i], env, tag)
            == LinkVerdict::Keep && links.contains(k[i]) by {
            if i < ki.len() {
                assert(k[i] == ki[i]);
                let j = choose|j: int| 0 <= j < init.len() && init[j] == ki[i];
                assert(links[j] == init[j]);
            } else {
                assert(k[i] == links.last());
                assert(links[links.len() - 1] == links.last());
            }
        }
        assert forall|i: int|
            0 <= i < links.len() && verdict(#[trigger] links[i], env, tag)
                == LinkVerdict::Keep implies k.contains(links[i]) by {
            if i < links.len() - 1 {
                assert(init[i] == links[i]);
                let j = choose|j: int| 0 <= j < ki.len() && ki[j] == init[i];
                assert(k[j] == ki[j]);
            } else {
                assert(k[k.len() - 1] == links.last());
            }
        }
    }
}

/// A tag only narrows the selection: the operating system and host verdicts do
/// not depend on it, a link that fails without a tag fails with one for the
/// same reason, and a link kept under a tag carries that tag.
pub proof fn lemma_tag_only_narrows(link: LinkEntry, env: Environment, tag: Seq<char>)
    ensures
        verdict(link, env, None) != LinkVerdict::Keep ==> verdict(link, env, Some(tag)) == verdict(
            link,
            env,
            None,
        ),
        verdict(link, env, Some(tag)) == LinkVerdict::Keep ==> verdict(link, env, None)
            == LinkVerdict::Keep && has_tag(link.tags, tag),
        verdict(link, env, None) != LinkVerdict::TagMismatch,
        link.tags is None ==> verdict(link, env, Some(tag)) != LinkVerdict::Keep,
{
}

/// The verdict, stated through the link's fields: a link whose operating
/// system is set and differs is skipped for it; otherwise a link whose host
/// is set and differs is skipped for it; otherwise, when a tag is asked for,
/// the link is kept exactly when one of its tags, at any position, is that
/// tag; without a tag it is kept.
pub proof fn lemma_verdict_exactly(link: LinkEntry, env: Environment, tag: Option<Seq<char>>)
    ensures
        (link.os is Some && link.os->0@ != env.os@) ==> verdict(link, env, tag)
            == LinkVerdict::OsMismatch,
        (link.os is None || link.os->0@ == env.os@) && (link.host is Some && link.host->0@
            != env.hostname@) ==> verdict(link, env, tag) == LinkVerdict::HostMismatch,
        (link.os is None || link.os->0@ == env.os@) && (link.host is None || link.host->0@
            == env.hostname@) && tag is None ==> verdict(link, env, tag) == LinkVerdict::Keep,
        (link.os is None || link.os->0@ == env.os@) && (link.host is None || link.host->0@
            == env.hostname@) && tag is Some ==> (verdict(link, env, tag) == LinkVerdict::Keep
            <==> (link.tags is Some && exists|i: int|
            0 <= i < link.tags->0@.len() && #[trigger] link.tags->0@[i]@ == tag->0)),
        (link.os is None || link.os->0@ == env.os@) && (link.host is None || link.host->0@
            == env.hostname@) && tag is Some ==> (verdict(link, env, tag) == LinkVerdict::Keep
            || verdict(link, env, tag) == LinkVerdict::TagMismatch),
{
}

/// A link on the right machine that carries the asked tag at any position of
/// its list is selected.
pub proof fn lemma_any_listed_tag_selects(
    links: Seq<LinkEntry>,
    env: Environment,
    tag: Seq<char>,
    k: int,
    i: int,
)
    requires
        0 <= k < links.len(),
        links[k].os is None || links[k].os->0@ == env.os@,
        links[k].host is None || links[k].host->0@ == env.hostname@,
        links[k].tags is Some,
        0 <= i < links[k].tags->0@.len(),
        links[k].tags->0@[i]@ == tag,
    ensures
        verdict(links[k], env, Some(tag)) == LinkVerdict::Keep,
        kept_links(links, env, Some(tag)).contains(links[k]),
{
    lemma_verdict_exactly(links[k], env, Some(tag));
    lemma_selection_exact(links, env, Some(tag));
}

} // verus!
