//! Ignore rules: a name is ignored when it equals an ignore entry or matches it
//! as a glob pattern.
use vstd::prelude::*;
use crate::path::views;

verus! {

/// Whether `glob::Pattern::new` accepts `pattern`.
pub uninterp spec fn glob_compiles(pattern: Seq<char>) -> bool;

/// Whether the pattern compiled from `pattern` matches `name`
/// (`glob::Pattern::matches`, default options).
pub uninterp spec fn glob_matches(pattern: Seq<char>, name: Seq<char>) -> bool;

/// Compiles `pattern` with `glob::Pattern::new` and, when that succeeds, asks
/// `glob::Pattern::matches` whether it matches `name`. The contract claims that
/// the outcome is a function of the two strings alone: `None` exactly when the
/// pattern does not compile, else whether it matches.
#[verifier::external_body]
fn glob_match(pattern: &str, name: &str) -> (r: Option<bool>)
    ensures
        r is None <==> !glob_compiles(pattern@),
        r matches Some(m) ==> m == glob_matches(pattern@, name@),
{
    match glob::Pattern::new(pattern) {
        Ok(compiled) => Some(compiled.matches(name)),
        Err(_) => None,
    }
}

/// `pattern` is equal to `name`, or a valid glob that matches it.
pub open spec fn pattern_hits(pattern: Seq<char>, name: Seq<char>) -> bool {
    pattern == name || (glob_compiles(pattern) && glob_matches(pattern, name))
}

/// The entry ends in a separator: it names directories only.
pub open spec fn is_dir_entry(entry: Seq<char>) -> bool {
    entry.len() > 0 && entry.last() == '/'
}

/// One ignore entry hits a name. An entry ending in `/` hits only a directory,
/// whose name the entry without its `/` must equal or match as a glob; any
/// other entry hits a file or directory whose name it equals or matches.
pub open spec fn entry_hits(entry: Seq<char>, name: Seq<char>, is_dir: bool) -> bool {
    if is_dir_entry(entry) {
        is_dir && pattern_hits(entry.drop_last(), name)
    } else {
        pattern_hits(entry, name)
    }
}

/// Some entry of `ignores` hits `name`.
pub open spec fn ignored_by(name: Seq<char>, is_dir: bool, ignores: Seq<Seq<char>>) -> bool {
    exists|i: int| 0 <= i < ignores.len() && #[trigger] entry_hits(ignores[i], name, is_dir)
}

/// Whether `pattern` equals `name` or matches it as a valid glob.
fn pattern_hits_name(pattern: &str, name: &str) -> (r: bool)
    ensures
        r == pattern_hits(pattern@, name@),
{
    let p = pattern.to_owned();
    let n = name.to_owned();
    if p == n {
        return true;
    }
    match glob_match(pattern, name) {
        Some(m) => m,
        None => false,
    }
}

/// Whether one ignore entry hits `name`, a directory when `is_dir`.
pub fn entry_hits_name(entry: &String, name: &str, is_dir: bool) -> (r: bool)
    ensures
        r == entry_hits(entry@, name@, is_dir),
{
    let n = entry.as_str().unicode_len();
    if n > 0 && entry.as_str().get_char(n - 1) == '/' {
        if !is_dir {
            return false;
        }
        let stripped = entry.as_str().substring_char(0, n - 1);
        assert(stripped@ =~= entry@.drop_last());
        pattern_hits_name(stripped, name)
    } else {
        pattern_hits_name(entry.as_str(), name)
    }
}

/// Whether any entry of `ignores` hits `name`, a directory when `is_dir`.
pub fn is_ignored(name: &str, is_dir: bool, ignores: &Vec<String>) -> (r: bool)
    ensures
        r == ignored_by(name@, is_dir, views(ignores@)),
{
    let mut i: usize = 0;
    while i < ignores.len()
        invariant
            i <= ignores@.len(),
            forall|j: int| 0 <= j < i ==> !#[trigger] entry_hits(views(ignores@)[j], name@, is_dir),
        decreases ignores@.len() - i,
    {
        assert(views(ignores@)[i as int] == ignores@[i as int]@);
        if entry_hits_name(&ignores[i], name, is_dir) {
            return true;
        }
        i = i + 1;
    }
    false
}

/// The global ignore entries followed by the entry's own.
pub fn collect_ignores(global: &Vec<String>, local: &Vec<String>) -> (r: Vec<String>)
    ensures
        views(r@) == views(global@) + views(local@),
{
    let mut r: Vec<String> = Vec::new();
    let mut i: usize = 0;
    while i < global.len()
        invariant
            i <= global@.len(),
            views(r@) == views(global@).take(i as int),
        decreases global@.len() - i,
    {
        let s = global[i].clone();
        proof {
            crate::path::lemma_views_push(r@, s);
            assert(views(global@).take(i + 1) =~= views(global@).take(i as int).push(s@));
        }
        r.push(s);
        i = i + 1;
    }
    let mut j: usize = 0;
    while j < local.len()
        invariant
            j <= local@.len(),
            views(r@) == views(global@) + views(local@).take(j as int),
        decreases local@.len() - j,
    {
        let s = local[j].clone();
        proof {
            crate::path::lemma_views_push(r@, s);
            assert(views(global@) + views(local@).take(j + 1) =~= (views(global@) + views(
                local@,
            ).take(j as int)).push(s@));
        }
        r.push(s);
        j = j + 1;
    }
    assert(views(global@).take(global@.len() as int) =~= views(global@));
    assert(views(local@).take(local@.len() as int) =~= views(local@));
    r
}

/// A name is ignored under the combined list exactly when the global list or
/// the entry's own list ignores it.
pub proof fn lemma_combined_ignores(
    name: Seq<char>,
    is_dir: bool,
    global: Seq<Seq<char>>,
    local: Seq<Seq<char>>,
)
    ensures
        ignored_by(name, is_dir, global + local) <==> (ignored_by(name, is_dir, global)
            || ignored_by(name, is_dir, local)),
{
    let all = global + local;
    if ignored_by(name, is_dir, all) {
        let i = choose|i: int| 0 <= i < all.len() && #[trigger] entry_hits(all[i], name, is_dir);
        if i < global.len() {
            assert(entry_hits(global[i], name, is_dir));
        } else {
            assert(entry_hits(local[i - global.len()], name, is_dir));
        }
    }
    if ignored_by(name, is_dir, global) {
        let i = choose|i: int|
            0 <= i < global.len() && #[trigger] entry_hits(global[i], name, is_dir);
        assert(entry_hits(all[i], name, is_dir));
    }
    if ignored_by(name, is_dir, local) {
        let i = choose|i: int| 0 <= i < local.len() && #[trigger] entry_hits(local[i], name, is_dir);
        assert(entry_hits(all[global.len() + i], name, is_dir));
    }
}

/// An entry ending in `/` never hits a file, and hits a directory exactly
/// when the entry without its `/` would; an entry without it hits files and
/// directories alike.
pub proof fn lemma_directory_entries(entry: Seq<char>, name: Seq<char>)
    ensures
        is_dir_entry(entry) ==> !entry_hits(entry, name, false),
        is_dir_entry(entry) ==> (entry_hits(entry, name, true) <==> pattern_hits(
            entry.drop_last(),
            name,
        )),
        !is_dir_entry(entry) ==> (entry_hits(entry, name, true) == entry_hits(entry, name, false)),
{
}

/// What an ignore entry hits, stated directly: an entry not ending in `/` hits
/// exactly the names it equals or, when it compiles as a glob, matches; an
/// entry ending in `/` hits exactly the directories whose names the entry
/// without its `/` equals or matches. In particular an entry that is only a
/// prefix of a name, and no matching glob, does not hit it.
pub proof fn lemma_entry_hits_exactly(entry: Seq<char>, name: Seq<char>, is_dir: bool)
    ensures
        (entry.len() == 0 || entry.last() != '/') ==> (entry_hits(entry, name, is_dir) <==> (entry
            == name || (glob_compiles(entry) && glob_matches(entry, name)))),
        (entry.len() > 0 && entry.last() == '/') ==> (entry_hits(entry, name, is_dir) <==> (is_dir
            && (entry.drop_last() == name || (glob_compiles(entry.drop_last()) && glob_matches(
            entry.drop_last(),
            name,
        ))))),
{
}

/// A name is ignored exactly when some entry of the list hits it as
/// `lemma_entry_hits_exactly` states.
pub proof fn lemma_ignored_exactly(name: Seq<char>, is_dir: bool, ignores: Seq<Seq<char>>)
    ensures
        ignored_by(name, is_dir, ignores) <==> exists|i: int|
            0 <= i < ignores.len() && {
                let e = #[trigger] ignores[i];
                if e.len() > 0 && e.last() == '/' {
                    is_dir && (e.drop_last() == name || (glob_compiles(e.drop_last())
                        && glob_matches(e.drop_last(), name)))
                } else {
                    e == name || (glob_compiles(e) && glob_matches(e, name))
                }
            },
{
    if ignored_by(name, is_dir, ignores) {
        let i = choose|i: int| 0 <= i < ignores.len() && #[trigger] entry_hits(ignores[i], name, is_dir);
        lemma_entry_hits_exactly(ignores[i], name, is_dir);
    }
    if exists|i: int|
        0 <= i < ignores.len() && {
            let e = #[trigger] ignores[i];
            if e.len() > 0 && e.last() == '/' {
                is_dir && (e.drop_last() == name || (glob_compiles(e.drop_last()) && glob_matches(
                    e.drop_last(),
                    name,
                )))
            } else {
                e == name || (glob_compiles(e) && glob_matches(e, name))
            }
        } {
        let i = choose|i: int|
            0 <= i < ignores.len() && {
                let e = #[trigger] ignores[i];
                if e.len() > 0 && e.last() == '/' {
                    is_dir && (e.drop_last() == name || (glob_compiles(e.drop_last())
                        && glob_matches(e.drop_last(), name)))
                } else {
                    e == name || (glob_compiles(e) && glob_matches(e, name))
                }
            };
        lemma_entry_hits_exactly(ignores[i], name, is_dir);
        assert(entry_hits(ignores[i], name, is_dir));
    }
}

} // verus!
