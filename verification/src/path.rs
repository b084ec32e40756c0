//! A model of Unix paths as character sequences, with the operations that the
//! link engine needs: splitting into components, trimming, joining, file names
//! and component-wise prefixes.
use vstd::prelude::*;

verus! {

/// The views of a sequence of strings.
pub open spec fn views(v: Seq<String>) -> Seq<Seq<char>> {
    v.map_values(|s: String| s@)
}

pub proof fn lemma_views_push(v: Seq<String>, s: String)
    ensures
        views(v.push(s)) == views(v).push(s@),
{
    assert(views(v.push(s)) =~= views(v).push(s@));
}

/// The pieces of `p` between separators, in order, empty pieces included.
pub open spec fn split_segments(p: Seq<char>) -> Seq<Seq<char>>
    decreases p.len(),
{
    if p.len() == 0 {
        seq![Seq::empty()]
    } else {
        let init = split_segments(p.drop_last());
        if p.last() == '/' {
            init.push(Seq::empty())
        } else {
            init.update(init.len() - 1, init.last().push(p.last()))
        }
    }
}

/// A piece that names something: not empty and not `.`.
pub open spec fn is_kept_segment(seg: Seq<char>) -> bool {
    seg.len() > 0 && !(seg.len() == 1 && seg[0] == '.')
}

/// The pieces that name something, in order.
pub open spec fn kept_segments(segs: Seq<Seq<char>>) -> Seq<Seq<char>>
    decreases segs.len(),
{
    if segs.len() == 0 {
        Seq::empty()
    } else if is_kept_segment(segs.last()) {
        kept_segments(segs.drop_last()).push(segs.last())
    } else {
        kept_segments(segs.drop_last())
    }
}

pub open spec fn has_root(p: Seq<char>) -> bool {
    p.len() > 0 && p[0] == '/'
}

/// A relative path whose first piece is exactly `.`.
pub open spec fn leading_cur_dir(p: Seq<char>) -> bool {
    p.len() > 0 && p[0] == '.' && (p.len() == 1 || p[1] == '/')
}

/// The components of a path: the root `/` (or a leading `.` of a relative path),
/// then every piece that names something. Repeated separators and interior `.`
/// pieces do not count.
pub open spec fn components(p: Seq<char>) -> Seq<Seq<char>> {
    let head: Seq<Seq<char>> = if has_root(p) {
        seq![seq!['/']]
    } else if leading_cur_dir(p) {
        seq![seq!['.']]
    } else {
        Seq::empty()
    };
    head + kept_segments(split_segments(p))
}

/// A component that is an ordinary name (not the root, `.` or `..`).
pub open spec fn is_normal_component(c: Seq<char>) -> bool {
    &&& c.len() > 0
    &&& !(c.len() == 1 && (c[0] == '/' || c[0] == '.'))
    &&& !(c.len() == 2 && c[0] == '.' && c[1] == '.')
}

/// The last component of `p` when it is an ordinary name.
pub open spec fn file_name(p: Seq<char>) -> Option<Seq<char>> {
    let c = components(p);
    if c.len() > 0 && is_normal_component(c.last()) {
        Some(c.last())
    } else {
        None
    }
}

/// `a` is a prefix of `b`.
pub open spec fn is_prefix_of<A>(a: Seq<A>, b: Seq<A>) -> bool {
    a.len() <= b.len() && forall|i: int| 0 <= i < a.len() ==> #[trigger] a[i] == b[i]
}

/// Path `p` starts with path `base`, component by component.
pub open spec fn path_starts_with(p: Seq<char>, base: Seq<char>) -> bool {
    is_prefix_of(components(base), components(p))
}

/// `p` with separators and `.` pieces removed from its front.
pub open spec fn trim_front(p: Seq<char>) -> Seq<char>
    decreases p.len(),
{
    if p.len() > 0 && (p[0] == '/' || (p[0] == '.' && (p.len() == 1 || p[1] == '/'))) {
        trim_front(p.drop_first())
    } else {
        p
    }
}

/// `p` with separators and `.` pieces removed from its back.
pub open spec fn trim_back(p: Seq<char>) -> Seq<char>
    decreases p.len(),
{
    if p.len() > 0 && (p.last() == '/' || (p.last() == '.' && (p.len() == 1 || p[p.len()
        - 2] == '/'))) {
        trim_back(p.drop_last())
    } else {
        p
    }
}

/// `p` with separators and `.` pieces removed from both ends.
pub open spec fn trim_ends(p: Seq<char>) -> Seq<char> {
    trim_back(trim_front(p))
}

/// `rest` appended to `base` as a path: an absolute `rest` replaces `base`,
/// otherwise a separator goes between them unless `base` is empty or already
/// ends with one.
pub open spec fn join(base: Seq<char>, rest: Seq<char>) -> Seq<char> {
    if has_root(rest) {
        rest
    } else if base.len() == 0 || base.last() == '/' {
        base + rest
    } else {
        base + seq!['/'] + rest
    }
}

proof fn lemma_split_nonempty(p: Seq<char>)
    ensures
        split_segments(p).len() >= 1,
    decreases p.len(),
{
    if p.len() > 0 {
        lemma_split_nonempty(p.drop_last());
    }
}

/// How the pieces grow when one more character is read.
proof fn lemma_split_step(p: Seq<char>, i: int)
    requires
        0 <= i < p.len(),
    ensures
        split_segments(p.take(i)).len() >= 1,
        p[i] == '/' ==> split_segments(p.take(i + 1)) == split_segments(p.take(i)).push(
            Seq::empty(),
        ),
        p[i] != '/' ==> split_segments(p.take(i + 1)).drop_last() == split_segments(
            p.take(i),
        ).drop_last(),
        p[i] != '/' ==> split_segments(p.take(i + 1)).last() == split_segments(
            p.take(i),
        ).last().push(p[i]),
        split_segments(p.take(i + 1)).len() >= 1,
{
    lemma_split_nonempty(p.take(i));
    lemma_split_nonempty(p.take(i + 1));
    assert(p.take(i + 1).drop_last() =~= p.take(i));
    let s = split_segments(p.take(i));
    if p[i] != '/' {
        assert(s.update(s.len() - 1, s.last().push(p[i])).drop_last() =~= s.drop_last());
    }
}

/// A sequence without separators is a single piece.
proof fn lemma_split_no_sep(a: Seq<char>)
    requires
        forall|i: int| 0 <= i < a.len() ==> a[i] != '/',
    ensures
        split_segments(a) == seq![a],
    decreases a.len(),
{
    if a.len() == 0 {
        assert(a =~= Seq::<char>::empty());
    } else {
        lemma_split_no_sep(a.drop_last());
        assert(a.drop_last().push(a.last()) =~= a);
        assert(seq![a.drop_last()].update(0, a.drop_last().push(a.last())) =~= seq![a]);
    }
}

/// Splitting at a separator splits the two sides separately.
proof fn lemma_split_concat(a: Seq<char>, b: Seq<char>)
    ensures
        split_segments(a + seq!['/'] + b) == split_segments(a) + split_segments(b),
    decreases b.len(),
{
    let x = a + seq!['/'] + b;
    if b.len() == 0 {
        assert(x.drop_last() =~= a);
        assert(split_segments(a) + split_segments(b) =~= split_segments(a).push(Seq::empty()));
    } else {
        lemma_split_concat(a, b.drop_last());
        assert(x.drop_last() =~= a + seq!['/'] + b.drop_last());
        lemma_split_nonempty(b.drop_last());
        let sa = split_segments(a);
        let sb = split_segments(b.drop_last());
        if b.last() == '/' {
            assert((sa + sb).push(Seq::empty()) =~= sa + sb.push(Seq::empty()));
        } else {
            let l = (sa + sb).len() - 1;
            assert((sa + sb).last() == sb.last());
            assert((sa + sb).update(l, sb.last().push(b.last())) =~= sa + sb.update(
                sb.len() - 1,
                sb.last().push(b.last()),
            ));
        }
    }
}

/// Keeping pieces distributes over concatenation.
proof fn lemma_kept_concat(x: Seq<Seq<char>>, y: Seq<Seq<char>>)
    ensures
        kept_segments(x + y) == kept_segments(x) + kept_segments(y),
    decreases y.len(),
{
    if y.len() == 0 {
        assert(x + y =~= x);
        assert(kept_segments(x) + kept_segments(y) =~= kept_segments(x));
    } else {
        lemma_kept_concat(x, y.drop_last());
        assert((x + y).drop_last() =~= x + y.drop_last());
        assert((x + y).last() == y.last());
        if is_kept_segment(y.last()) {
            assert((kept_segments(x) + kept_segments(y.drop_last())).push(y.last())
                =~= kept_segments(x) + kept_segments(y.drop_last()).push(y.last()));
        }
    }
}

/// The first separator of a path that has one.
proof fn first_separator(p: Seq<char>) -> (j: int)
    requires
        exists|i: int| 0 <= i < p.len() && p[i] == '/',
    ensures
        0 <= j < p.len(),
        p[j] == '/',
        forall|i: int| 0 <= i < j ==> p[i] != '/',
    decreases p.len(),
{
    let q = p.drop_last();
    if exists|i: int| 0 <= i < q.len() && q[i] == '/' {
        let j = first_separator(q);
        assert(p[j] == q[j]);
        assert forall|i: int| 0 <= i < j implies p[i] != '/' by {
            assert(p[i] == q[i]);
        }
        j
    } else {
        assert forall|i: int| 0 <= i < p.len() - 1 implies p[i] != '/' by {
            assert(p[i] == q[i]);
        }
        p.len() - 1
    }
}

/// Keeping the pieces of a single piece.
proof fn lemma_kept_single(a: Seq<char>)
    ensures
        kept_segments(seq![a]) == (if is_kept_segment(a) {
            seq![a]
        } else {
            Seq::<Seq<char>>::empty()
        }),
{
    let s = seq![a];
    assert(s.drop_last() =~= Seq::<Seq<char>>::empty());
    assert(kept_segments(Seq::<Seq<char>>::empty()) == Seq::<Seq<char>>::empty());
    assert(s.last() == a);
    assert(Seq::<Seq<char>>::empty().push(a) =~= seq![a]);
}

/// The components of `~` are just `~`.
proof fn lemma_components_tilde()
    ensures
        components(seq!['~']) == seq![seq!['~']],
{
    lemma_split_no_sep(seq!['~']);
    let s = seq![seq!['~']];
    lemma_kept_single(seq!['~']);
    assert(components(seq!['~']) =~= Seq::<Seq<char>>::empty() + s);
}

/// A path's first component is `~` exactly when the path is `~` or begins
/// with `~/`.
pub proof fn lemma_tilde_component(p: Seq<char>)
    ensures
        path_starts_with(p, seq!['~']) <==> (p.len() > 0 && p[0] == '~' && (p.len() == 1 || p[1]
            == '/')),
{
    lemma_components_tilde();
    let c = components(p);
    let t = seq!['~'];
    assert(path_starts_with(p, t) <==> (c.len() >= 1 && c[0] == t)) by {
        if c.len() >= 1 && c[0] == t {
            assert forall|i: int| 0 <= i < 1 implies #[trigger] seq![t][i] == c[i] by {}
        }
        if path_starts_with(p, t) {
            assert(seq![t][0] == c[0]);
        }
    }
    if p.len() == 0 {
        assert(p =~= Seq::<char>::empty());
        lemma_kept_single(Seq::<char>::empty());
        assert(c =~= Seq::<Seq<char>>::empty());
    } else if p[0] == '/' {
        assert(c[0] == seq!['/']);
        assert(c[0][0] != t[0]);
    } else if leading_cur_dir(p) {
        assert(c[0] == seq!['.']);
        assert(c[0][0] != t[0]);
    } else if exists|i: int| 0 <= i < p.len() && p[i] == '/' {
        let j = first_separator(p);
        let a = p.take(j);
        let b = p.skip(j + 1);
        assert(p =~= a + seq!['/'] + b);
        assert forall|i: int| 0 <= i < a.len() implies a[i] != '/' by {}
        lemma_split_no_sep(a);
        lemma_split_concat(a, b);
        lemma_kept_concat(seq![a], split_segments(b));
        assert(j >= 1);
        assert(is_kept_segment(a));
        lemma_kept_single(a);
        assert(c =~= seq![a] + kept_segments(split_segments(b)));
        assert(c[0] == a);
        if a == t {
            assert(p[0] == a[0]);
            assert(j == 1);
        }
        if p[0] == '~' && p[1] == '/' {
            assert(j == 1);
            assert(a =~= t);
        }
    } else {
        lemma_split_no_sep(p);
        assert(is_kept_segment(p));
        lemma_kept_single(p);
        assert(c =~= seq![p]);
        if p =~= t {
        } else {
            if p.len() == 1 && p[0] == '~' {
                assert(p =~= t);
            }
        }
    }
}

/// Trimming the front keeps the pieces that name something.
proof fn lemma_trim_front_kept(x: Seq<char>)
    ensures
        kept_segments(split_segments(trim_front(x))) == kept_segments(split_segments(x)),
    decreases x.len(),
{
    let e = Seq::<char>::empty();
    lemma_kept_single(e);
    if x.len() > 0 && x[0] == '/' {
        let rest = x.drop_first();
        assert(x =~= e + seq!['/'] + rest);
        lemma_split_concat(e, rest);
        assert(split_segments(e) =~= seq![e]);
        lemma_kept_concat(seq![e], split_segments(rest));
        lemma_trim_front_kept(rest);
        assert(kept_segments(split_segments(x)) =~= kept_segments(split_segments(rest)));
    } else if x.len() == 1 && x[0] == '.' {
        let dot = seq!['.'];
        assert(x =~= dot);
        lemma_split_no_sep(dot);
        lemma_kept_single(dot);
        assert(x.drop_first() =~= e);
        assert(trim_front(e) == e);
        assert(split_segments(e) =~= seq![e]);
    } else if x.len() >= 2 && x[0] == '.' && x[1] == '/' {
        let dot = seq!['.'];
        let rest = x.skip(2);
        let x1 = x.drop_first();
        assert(x =~= dot + seq!['/'] + rest);
        assert(x1 =~= e + seq!['/'] + rest);
        lemma_split_no_sep(dot);
        lemma_kept_single(dot);
        lemma_split_concat(dot, rest);
        lemma_split_concat(e, rest);
        assert(split_segments(e) =~= seq![e]);
        lemma_kept_concat(seq![dot], split_segments(rest));
        lemma_kept_concat(seq![e], split_segments(rest));
        lemma_trim_front_kept(x1);
        assert(kept_segments(split_segments(x)) =~= kept_segments(split_segments(rest)));
        assert(kept_segments(split_segments(x1)) =~= kept_segments(split_segments(rest)));
    }
}

/// Trimming the back keeps the pieces that name something.
proof fn lemma_trim_back_kept(x: Seq<char>)
    ensures
        kept_segments(split_segments(trim_back(x))) == kept_segments(split_segments(x)),
    decreases x.len(),
{
    let e = Seq::<char>::empty();
    lemma_kept_single(e);
    if x.len() > 0 && x.last() == '/' {
        let init = x.drop_last();
        assert(x =~= init + seq!['/'] + e);
        lemma_split_concat(init, e);
        assert(split_segments(e) =~= seq![e]);
        lemma_kept_concat(split_segments(init), seq![e]);
        lemma_trim_back_kept(init);
        assert(kept_segments(split_segments(x)) =~= kept_segments(split_segments(init)));
    } else if x.len() == 1 && x.last() == '.' {
        let dot = seq!['.'];
        assert(x =~= dot);
        lemma_split_no_sep(dot);
        lemma_kept_single(dot);
        assert(x.drop_last() =~= e);
        assert(trim_back(e) == e);
        assert(split_segments(e) =~= seq![e]);
    } else if x.len() >= 2 && x.last() == '.' && x[x.len() - 2] == '/' {
        let dot = seq!['.'];
        let head = x.take(x.len() - 2);
        let x1 = x.drop_last();
        assert(x =~= head + seq!['/'] + dot);
        assert(x1 =~= head + seq!['/'] + e);
        lemma_split_no_sep(dot);
        lemma_kept_single(dot);
        lemma_split_concat(head, dot);
        lemma_split_concat(head, e);
        assert(split_segments(e) =~= seq![e]);
        lemma_kept_concat(split_segments(head), seq![dot]);
        lemma_kept_concat(split_segments(head), seq![e]);
        lemma_trim_back_kept(x1);
        assert(kept_segments(split_segments(x)) =~= kept_segments(split_segments(head)));
        assert(kept_segments(split_segments(x1)) =~= kept_segments(split_segments(head)));
    }
}

/// A back-trimmed path ends in a piece that names something.
proof fn lemma_trim_back_ends_named(x: Seq<char>)
    ensures
        trim_back(x).len() > 0 ==> {
            let y = trim_back(x);
            &&& y.last() != '/'
            &&& !(y.last() == '.' && (y.len() == 1 || y[y.len() - 2] == '/'))
        },
    decreases x.len(),
{
    if x.len() > 0 && (x.last() == '/' || (x.last() == '.' && (x.len() == 1 || x[x.len() - 2]
        == '/'))) {
        lemma_trim_back_ends_named(x.drop_last());
    }
}

/// A non-empty trimmed path has a piece that names something.
proof fn lemma_trimmed_has_named_piece(x: Seq<char>)
    ensures
        trim_back(x).len() > 0 ==> kept_segments(split_segments(trim_back(x))).len() > 0,
{
    let y = trim_back(x);
    lemma_trim_back_ends_named(x);
    if y.len() > 0 {
        let q = y.drop_last();
        lemma_split_nonempty(q);
        let sq = split_segments(q);
        let last = sq.last().push(y.last());
        assert(split_segments(y).last() == last);
        if !is_kept_segment(last) {
            assert(sq.last().len() == 0);
            if q.len() > 0 {
                if q.last() != '/' {
                    lemma_split_nonempty(q.drop_last());
                    assert(sq.last().len() > 0);
                }
                assert(q.last() == y[y.len() - 2]);
            }
        }
        assert(is_kept_segment(split_segments(y).last()));
    }
}

/// For a path that starts with `~`, something follows the `~` exactly when
/// the path has more than one component.
pub proof fn lemma_tilde_rest_nonempty(p: Seq<char>)
    requires
        p.len() > 0 && p[0] == '~' && (p.len() == 1 || p[1] == '/'),
    ensures
        trim_ends(p.drop_first()).len() > 0 <==> components(p).len() > 1,
{
    let e = Seq::<char>::empty();
    let t = seq!['~'];
    lemma_split_no_sep(t);
    lemma_kept_single(t);
    if p.len() == 1 {
        assert(p =~= t);
        assert(p.drop_first() =~= e);
        assert(trim_front(e) == e);
        assert(trim_back(e) == e);
        assert(components(p) =~= seq![t]);
    } else {
        let b = p.skip(2);
        assert(p =~= t + seq!['/'] + b);
        lemma_split_concat(t, b);
        lemma_kept_concat(seq![t], split_segments(b));
        assert(components(p) =~= seq![t] + kept_segments(split_segments(b)));
        let rest = p.drop_first();
        assert(rest.drop_first() =~= b);
        assert(trim_front(rest) == trim_front(b));
        lemma_trim_front_kept(b);
        lemma_trim_back_kept(trim_front(b));
        lemma_trimmed_has_named_piece(trim_front(b));
        let y = trim_ends(rest);
        if y.len() == 0 {
            assert(y =~= e);
            lemma_kept_single(e);
            assert(split_segments(e) =~= seq![e]);
        }
    }
}

/// Trimming the front never leaves a separator first.
proof fn lemma_trim_front_not_rooted(x: Seq<char>)
    ensures
        !has_root(trim_front(x)),
    decreases x.len(),
{
    if x.len() > 0 && (x[0] == '/' || (x[0] == '.' && (x.len() == 1 || x[1] == '/'))) {
        lemma_trim_front_not_rooted(x.drop_first());
    }
}

/// Trimming the back keeps a prefix.
proof fn lemma_trim_back_prefix(x: Seq<char>)
    ensures
        trim_back(x).len() <= x.len(),
        trim_back(x) == x.take(trim_back(x).len() as int),
    decreases x.len(),
{
    if x.len() > 0 && (x.last() == '/' || (x.last() == '.' && (x.len() == 1 || x[x.len() - 2]
        == '/'))) {
        lemma_trim_back_prefix(x.drop_last());
        let y = trim_back(x.drop_last());
        assert(x.drop_last().take(y.len() as int) =~= x.take(y.len() as int));
    } else {
        assert(x.take(x.len() as int) =~= x);
    }
}

/// A path trimmed at both ends does not start at the root.
pub proof fn lemma_trimmed_not_rooted(x: Seq<char>)
    ensures
        !has_root(trim_ends(x)),
{
    lemma_trim_front_not_rooted(x);
    lemma_trim_back_prefix(trim_front(x));
    let y = trim_ends(x);
    if y.len() > 0 {
        assert(y[0] == trim_front(x)[0]);
    }
}

/// The components of the empty path: none.
proof fn lemma_components_empty()
    ensures
        components(Seq::<char>::empty()) == Seq::<Seq<char>>::empty(),
{
    let e = Seq::<char>::empty();
    lemma_kept_single(e);
    assert(split_segments(e) =~= seq![e]);
    assert(components(e) =~= Seq::<Seq<char>>::empty());
}

/// Every path starts with itself.
pub proof fn lemma_starts_with_self(p: Seq<char>)
    ensures
        path_starts_with(p, p),
{
}

/// A relative path appended to `base` lies under `base`.
pub proof fn lemma_join_under(base: Seq<char>, rest: Seq<char>)
    requires
        !has_root(rest),
    ensures
        path_starts_with(join(base, rest), base),
{
    let j = join(base, rest);
    let e = Seq::<char>::empty();
    if base.len() == 0 {
        lemma_components_empty();
        assert(is_prefix_of(components(base), components(j)));
    } else {
        let kb = kept_segments(split_segments(base));
        let kr = kept_segments(split_segments(rest));
        if base.last() == '/' {
            let b1 = base.drop_last();
            assert(base =~= b1 + seq!['/'] + e);
            assert(j =~= b1 + seq!['/'] + rest);
            lemma_split_concat(b1, e);
            lemma_split_concat(b1, rest);
            assert(split_segments(e) =~= seq![e]);
            lemma_kept_single(e);
            lemma_kept_concat(split_segments(b1), seq![e]);
            lemma_kept_concat(split_segments(b1), split_segments(rest));
            assert(kb =~= kept_segments(split_segments(b1)));
            assert(kept_segments(split_segments(j)) =~= kb + kr);
            assert(j[0] == base[0]);
            if base.len() >= 2 {
                assert(j[1] == base[1]);
            }
        } else {
            assert(j =~= base + seq!['/'] + rest);
            lemma_split_concat(base, rest);
            lemma_kept_concat(split_segments(base), split_segments(rest));
            assert(j[0] == base[0]);
            if base.len() >= 2 {
                assert(j[1] == base[1]);
            } else {
                assert(j[1] == '/');
            }
        }
        assert(has_root(j) == has_root(base));
        assert(leading_cur_dir(j) == leading_cur_dir(base));
        let cb = components(base);
        let cj = components(j);
        assert(cj =~= cb + kr);
        assert forall|i: int| 0 <= i < cb.len() implies #[trigger] cb[i] == cj[i] by {}
    }
}

/// Appending two relative paths to the same base gives the same path only
/// when they are the same.
pub proof fn lemma_join_injective(base: Seq<char>, a: Seq<char>, b: Seq<char>)
    requires
        !has_root(a),
        !has_root(b),
        join(base, a) == join(base, b),
    ensures
        a == b,
{
    let pre: Seq<char> = if base.len() == 0 || base.last() == '/' {
        base
    } else {
        base + seq!['/']
    };
    assert(join(base, a) =~= pre + a);
    assert(join(base, b) =~= pre + b);
    assert(a =~= (pre + a).skip(pre.len() as int));
    assert(b =~= (pre + b).skip(pre.len() as int));
}

/// Keeps the pieces of `cs[start..end]` for the component list.
fn push_if_kept(p: &str, cs: &Vec<char>, start: usize, end: usize, out: &mut Vec<String>)
    requires
        cs@ == p@,
        start <= end <= cs@.len(),
    ensures
        is_kept_segment(p@.subrange(start as int, end as int)) ==> views(final(out)@) == views(
            old(out)@,
        ).push(p@.subrange(start as int, end as int)),
        !is_kept_segment(p@.subrange(start as int, end as int)) ==> final(out)@ == old(out)@,
{
    let keep = start < end && !(end == start + 1 && cs[start] == '.');
    assert(keep == is_kept_segment(p@.subrange(start as int, end as int)));
    if keep {
        let seg = p.substring_char(start, end).to_owned();
        proof {
            lemma_views_push(out@, seg);
        }
        out.push(seg);
    }
}

/// The components of a path, as `components` describes them.
pub fn components_of(p: &str) -> (r: Vec<String>)
    ensures
        views(r@) == components(p@),
{
    let cs = chars_of(p);
    let n = cs.len();
    let mut out: Vec<String> = Vec::new();
    if n > 0 && (cs[0] == '/' || (cs[0] == '.' && (n == 1 || cs[1] == '/'))) {
        let first = p.substring_char(0, 1).to_owned();
        proof {
            lemma_views_push(out@, first);
            assert(first@ =~= seq![cs@[0]]);
        }
        out.push(first);
    }
    let ghost head = views(out@);
    assert(head =~= (if has_root(p@) {
        seq![seq!['/']]
    } else if leading_cur_dir(p@) {
        seq![seq!['.']]
    } else {
        Seq::<Seq<char>>::empty()
    }));
    let mut start: usize = 0;
    let mut i: usize = 0;
    assert(p@.take(0) =~= Seq::<char>::empty());
    assert(p@.subrange(0, 0) =~= Seq::<char>::empty());
    while i < n
        invariant
            n == cs@.len(),
            cs@ == p@,
            start <= i <= n,
            split_segments(p@.take(i as int)).len() >= 1,
            split_segments(p@.take(i as int)).last() == p@.subrange(start as int, i as int),
            views(out@) == head + kept_segments(split_segments(p@.take(i as int)).drop_last()),
        decreases n - i,
    {
        proof {
            lemma_split_step(p@, i as int);
        }
        let ghost before = split_segments(p@.take(i as int));
        if cs[i] == '/' {
            push_if_kept(p, &cs, start, i, &mut out);
            proof {
                let after = split_segments(p@.take(i + 1));
                assert(after.drop_last() =~= before);
                assert(before.drop_last().push(before.last()) =~= before);
                assert(p@.subrange(i + 1, i + 1) =~= Seq::<char>::empty());
                if is_kept_segment(before.last()) {
                    assert(head + kept_segments(before.drop_last()).push(before.last()) =~= head
                        + kept_segments(before));
                }
            }
            start = i + 1;
        } else {
            proof {
                assert(p@.subrange(start as int, i as int).push(p@[i as int]) =~= p@.subrange(
                    start as int,
                    i + 1,
                ));
            }
        }
        i = i + 1;
    }
    assert(p@.take(n as int) =~= p@);
    let ghost all = split_segments(p@);
    push_if_kept(p, &cs, start, n, &mut out);
    proof {
        assert(all.drop_last().push(all.last()) =~= all);
        if is_kept_segment(all.last()) {
            assert(head + kept_segments(all.drop_last()).push(all.last()) =~= head
                + kept_segments(all));
        } else {
            assert(kept_segments(all) == kept_segments(all.drop_last()));
        }
    }
    out
}


/// Bounds `(a, b)` with `p[a..b]` equal to `p[lo..hi]` trimmed at both ends.
pub fn trim_bounds(cs: &Vec<char>, lo: usize, hi: usize) -> (r: (usize, usize))
    requires
        lo <= hi <= cs@.len(),
    ensures
        lo <= r.0 <= r.1 <= hi,
        cs@.subrange(r.0 as int, r.1 as int) == trim_ends(cs@.subrange(lo as int, hi as int)),
{
    let mut a = lo;
    while a < hi && (cs[a] == '/' || (cs[a] == '.' && (a + 1 == hi || cs[a + 1] == '/')))
        invariant
            lo <= a <= hi <= cs@.len(),
            trim_front(cs@.subrange(lo as int, hi as int)) == trim_front(
                cs@.subrange(a as int, hi as int),
            ),
        decreases hi - a,
    {
        assert(cs@.subrange(a as int, hi as int).drop_first() =~= cs@.subrange(
            a + 1,
            hi as int,
        ));
        a = a + 1;
    }
    assert(trim_front(cs@.subrange(a as int, hi as int)) == cs@.subrange(a as int, hi as int));
    let mut b = hi;
    while b > a && (cs[b - 1] == '/' || (cs[b - 1] == '.' && (b - 1 == a || cs[b - 2] == '/')))
        invariant
            lo <= a <= b <= hi <= cs@.len(),
            trim_back(cs@.subrange(a as int, hi as int)) == trim_back(
                cs@.subrange(a as int, b as int),
            ),
        decreases b - a,
    {
        assert(cs@.subrange(a as int, b as int).drop_last() =~= cs@.subrange(
            a as int,
            b - 1,
        ));
        b = b - 1;
    }
    (a, b)
}

/// `rest` appended to `base` as a path, as `join` describes it.
pub fn join_path(base: &str, rest: &str) -> (r: String)
    ensures
        r@ == join(base@, rest@),
{
    let rn = rest.unicode_len();
    if rn > 0 && rest.get_char(0) == '/' {
        return rest.to_owned();
    }
    let bn = base.unicode_len();
    let mut r = base.to_owned();
    if bn > 0 && base.get_char(bn - 1) != '/' {
        proof {
            reveal_strlit("/");
        }
        r.append("/");
    }
    r.append(rest);
    r
}

/// The last component of `p` when it is an ordinary name.
pub fn file_name_of(p: &str) -> (r: Option<String>)
    ensures
        r matches Some(s) ==> file_name(p@) == Some(s@),
        r is None ==> file_name(p@) is None,
{
    let comps = components_of(p);
    let n = comps.len();
    if n == 0 {
        return None;
    }
    let last = comps[n - 1].clone();
    assert(views(comps@).last() == last@);
    let cs = chars_of(last.as_str());
    let m = cs.len();
    let normal = m > 0 && !(m == 1 && (cs[0] == '/' || cs[0] == '.')) && !(m == 2 && cs[0]
        == '.' && cs[1] == '.');
    if normal {
        Some(last)
    } else {
        None
    }
}

/// Whether `p` starts with `base`, component by component.
pub fn starts_with_path(p: &str, base: &str) -> (r: bool)
    ensures
        r == path_starts_with(p@, base@),
{
    let pc = components_of(p);
    let bc = components_of(base);
    if bc.len() > pc.len() {
        return false;
    }
    let mut i: usize = 0;
    while i < bc.len()
        invariant
            bc@.len() <= pc@.len(),
            i <= bc@.len(),
            views(pc@) == components(p@),
            views(bc@) == components(base@),
            forall|j: int| 0 <= j < i ==> #[trigger] components(base@)[j] == components(p@)[j],
        decreases bc@.len() - i,
    {
        assert(views(bc@)[i as int] == bc@[i as int]@);
        assert(views(pc@)[i as int] == pc@[i as int]@);
        if bc[i] != pc[i] {
            return false;
        }
        i = i + 1;
    }
    true
}

/// The characters of `s`, one by one.
pub fn chars_of(s: &str) -> (v: Vec<char>)
    ensures
        v@ == s@,
{
    let mut v: Vec<char> = Vec::new();
    for c in it: s.chars()
        invariant
            v@ == it.seq().take(it.index() as int),
    {
        v.push(c);
    }
    v
}

} // verus!
