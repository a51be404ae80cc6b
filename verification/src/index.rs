use vstd::prelude::*;
use crate::path::{FsPath, PathModel, path_starts_with, rebase, is_ancestor, ancestor_at, normalized};
use crate::text::{lowercase, to_lowercase, has_substring, str_contains};
use crate::entry::{Entry, EntryModel, models, lemma_children_models, subtrees, subtrees_from};
use crate::pathset::PathSet;

verus! {

/// A flattened, pre-lowercased `(path, name)` entry list for fast
/// searching. Built incrementally as branches finish scanning, so a search
/// never has to walk (and re-lowercase) the nested tree itself.
pub type SearchIndex = Vec<(FsPath, String)>;

/// The abstract value of a search index.
pub open spec fn index_view(s: Seq<(FsPath, String)>) -> Seq<(PathModel, Seq<char>)> {
    Seq::new(s.len(), |i: int| (s[i].0@, s[i].1@))
}

/// Every entry of the subtree of `m` in depth-first order, `m` first, as
/// `(path, lowercase name)`.
pub open spec fn flatten(m: EntryModel) -> Seq<(PathModel, Seq<char>)>
    decreases m, 0int,
{
    seq![(m.path, lowercase(m.name))] + flatten_from(m.children, 0)
}

/// The flattened subtrees of `s[k..]`, one after the other.
pub open spec fn flatten_from(s: Seq<EntryModel>, k: int) -> Seq<(PathModel, Seq<char>)>
    decreases s, s.len() - k,
{
    if k < 0 || k >= s.len() {
        Seq::empty()
    } else {
        flatten(s[k]) + flatten_from(s, k + 1)
    }
}

proof fn lemma_flatten_from_counts(s: Seq<EntryModel>, k: int)
    requires
        0 <= k,
    ensures
        flatten_from(s, k).len() == subtrees_from(s, k).len(),
        forall|x: EntryModel|
            subtrees_from(s, k).count(x) > 0 ==> flatten_from(s, k).contains(
                (x.path, lowercase(x.name)),
            ),
    decreases s, s.len() - k,
{
    if k < s.len() {
        assert(decreases_to!(s => s[k]));
        lemma_flatten_counts(s[k]);
        lemma_flatten_from_counts(s, k + 1);
        let a = flatten(s[k]);
        let b = flatten_from(s, k + 1);
        assert forall|x: EntryModel| subtrees_from(s, k).count(x) > 0 implies flatten_from(
            s,
            k,
        ).contains((x.path, lowercase(x.name))) by {
            let e = (x.path, lowercase(x.name));
            if subtrees(s[k]).count(x) > 0 {
                let j = choose|j: int| 0 <= j < a.len() && a[j] == e;
                assert((a + b)[j] == e);
            } else {
                let j = choose|j: int| 0 <= j < b.len() && b[j] == e;
                assert((a + b)[a.len() + j] == e);
            }
        }
    }
}

proof fn lemma_flatten_counts(m: EntryModel)
    ensures
        flatten(m).len() == subtrees(m).len(),
        forall|x: EntryModel|
            subtrees(m).count(x) > 0 ==> flatten(m).contains((x.path, lowercase(x.name))),
    decreases m, 1int,
{
    assert(decreases_to!(m => m.children));
    lemma_flatten_from_counts(m.children, 0);
    let a = seq![(m.path, lowercase(m.name))];
    let b = flatten_from(m.children, 0);
    assert forall|x: EntryModel| subtrees(m).count(x) > 0 implies flatten(m).contains(
        (x.path, lowercase(x.name)),
    ) by {
        let e = (x.path, lowercase(x.name));
        if x == m {
            assert((a + b)[0] == e);
        } else {
            assert(subtrees_from(m.children, 0).count(x) > 0);
            let j = choose|j: int| 0 <= j < b.len() && b[j] == e;
            assert((a + b)[1 + j] == e);
        }
    }
}

/// Law: indexing a subtree records every entry of it, directories and
/// files of any size alike, with its path and lowercased name; the index
/// grows by exactly the number of entries in the subtree.
pub proof fn lemma_index_holds_every_entry(m: EntryModel)
    ensures
        flatten(m).len() == subtrees(m).len(),
        forall|x: EntryModel|
            #[trigger] subtrees(m).count(x) > 0 ==> flatten(m).contains(
                (x.path, lowercase(x.name)),
            ),
{
    lemma_flatten_counts(m);
}

/// Appends `entry` and every descendant to `index`, lowercasing each name
/// once up front so repeated searches don't have to.
pub fn index_subtree(entry: &Entry, index: &mut SearchIndex)
    ensures
        index_view(final(index)@) == index_view(old(index)@) + flatten(entry.model()),
    decreases entry.model(),
{
    let ghost m = entry.model();
    let ghost start = index_view(index@);
    proof {
        lemma_children_models(entry);
    }
    let ghost ms = models(entry.children@);
    let ghost before_push = index@;
    index.push((entry.path.clone(), to_lowercase(entry.name.as_str())));
    proof {
        assert(index_view(index@) =~= start + seq![(m.path, lowercase(m.name))]);
    }
    let n = entry.children.len();
    let mut i: usize = 0;
    while i < n
        invariant
            i <= n,
            n == ms.len(),
            m == entry.model(),
            m.children == ms,
            ms == models(entry.children@),
            index_view(index@) + flatten_from(ms, i as int) == start + flatten(m),
        decreases n - i,
    {
        let ghost before = index_view(index@);
        proof {
            assert(ms[i as int] == entry.children@[i as int].model());
            assert(decreases_to!(m => m.children));
            assert(decreases_to!(m.children => m.children[i as int]));
        }
        index_subtree(&entry.children[i], index);
        proof {
            assert(flatten_from(ms, i as int) == flatten(ms[i as int]) + flatten_from(
                ms,
                i + 1,
            ));
            assert(index_view(index@) + flatten_from(ms, i + 1) =~= before + flatten_from(
                ms,
                i as int,
            ));
        }
        i = i + 1;
    }
    proof {
        assert(flatten_from(ms, n as int) =~= Seq::<(PathModel, Seq<char>)>::empty());
        assert(index_view(index@) =~= index_view(index@) + flatten_from(ms, n as int));
    }
}

/// The entries of `s` whose path is neither `base` nor under it, in order.
pub open spec fn outside_of(s: Seq<(PathModel, Seq<char>)>, base: PathModel) -> Seq<
    (PathModel, Seq<char>),
>
    decreases s.len(),
{
    if s.len() == 0 {
        s
    } else {
        let r = outside_of(s.drop_last(), base);
        if path_starts_with(s.last().0, base) {
            r
        } else {
            r.push(s.last())
        }
    }
}

/// Removes every indexed entry at or under `path` (e.g. after a delete).
pub fn remove_from_index(index: &mut SearchIndex, path: &FsPath)
    ensures
        index_view(final(index)@) == outside_of(index_view(old(index)@), path@),
{
    let mut items: SearchIndex = Vec::new();
    std::mem::swap(&mut items, index);
    let ghost orig = index_view(items@);
    proof {
        assert(orig.take(0) =~= Seq::<(PathModel, Seq<char>)>::empty());
        assert(index_view(index@) =~= Seq::<(PathModel, Seq<char>)>::empty());
    }
    for item in it: items.into_iter()
        invariant
            orig == index_view(it.seq()),
            index_view(index@) == outside_of(orig.take(it.index() as int), path@),
    {
        let ghost k = it.index();
        let ghost before = index@;
        proof {
            assert(orig.take(k + 1).drop_last() =~= orig.take(k as int));
            assert(orig.take(k + 1).last() == orig[k as int]);
            assert(orig[k as int] == (item.0@, item.1@));
        }
        if !item.0.starts_with(path) {
            index.push(item);
            proof {
                assert(index_view(index@) =~= index_view(before).push(orig[k as int]));
            }
        }
    }
    proof {
        assert(orig.take(orig.len() as int) =~= orig);
    }
}

/// `s` with every path at or under `from` moved under `to`; names kept.
pub open spec fn reindexed(s: Seq<(PathModel, Seq<char>)>, from: PathModel, to: PathModel) -> Seq<
    (PathModel, Seq<char>),
> {
    Seq::new(
        s.len(),
        |i: int|
            match rebase(s[i].0, from, to) {
                Some(q) => (q, s[i].1),
                None => s[i],
            },
    )
}

/// Rewrites every indexed path with the `old_prefix` prefix to use
/// `new_prefix` instead (e.g. after a rename).
pub fn reindex_prefix(index: &mut SearchIndex, old_prefix: &FsPath, new_prefix: &FsPath)
    ensures
        index_view(final(index)@) == reindexed(index_view(old(index)@), old_prefix@, new_prefix@),
{
    let ghost orig = index_view(index@);
    let n = index.len();
    let mut i: usize = 0;
    while i < n
        invariant
            i <= n,
            n == index.len(),
            orig.len() == n,
            forall|j: int|
                0 <= j < i ==> #[trigger] index_view(index@)[j] == reindexed(
                    orig,
                    old_prefix@,
                    new_prefix@,
                )[j],
            forall|j: int| i <= j < n ==> #[trigger] index_view(index@)[j] == orig[j],
        decreases n - i,
    {
        let ghost before = index@;
        proof {
            assert(index_view(before)[i as int] == orig[i as int]);
        }
        match index[i].0.rebased(old_prefix, new_prefix) {
            Some(p) => {
                index[i].0 = p;
                proof {
                    assert(index@ == before.update(i as int, index@[i as int]));
                    assert(index@[i as int].1 == before[i as int].1);
                }
            },
            None => {},
        }
        proof {
            assert forall|j: int| 0 <= j < i + 1 implies #[trigger] index_view(index@)[j]
                == reindexed(orig, old_prefix@, new_prefix@)[j] by {
                if j < i {
                    assert(index_view(index@)[j] == index_view(before)[j]);
                }
            }
            assert forall|j: int| i + 1 <= j < n implies #[trigger] index_view(index@)[j]
                == orig[j] by {
                assert(index_view(index@)[j] == index_view(before)[j]);
            }
        }
        i = i + 1;
    }
    proof {
        assert(index_view(index@) =~= reindexed(orig, old_prefix@, new_prefix@));
    }
}


/// Every path whose indexed name holds `q`, and every ancestor of such a
/// path.
pub open spec fn search_matches(s: Seq<(PathModel, Seq<char>)>, q: Seq<char>) -> Set<PathModel> {
    Set::new(
        |a: PathModel|
            exists|i: int|
                0 <= i < s.len() && has_substring(s[i].1, q) && #[trigger] is_ancestor(a, s[i].0),
    )
}

/// The ancestors of `p`, `p` itself included.
pub open spec fn ancestors_of(p: PathModel) -> Set<PathModel> {
    Set::new(|a: PathModel| is_ancestor(a, p))
}

/// Every ancestor of a member is a member.
pub open spec fn ancestor_closed(st: Set<PathModel>) -> bool {
    forall|a: PathModel, b: PathModel| #[trigger] st.contains(a) && #[trigger] is_ancestor(b, a) ==> st.contains(b)
}

pub proof fn lemma_ancestor_shape(a: PathModel, p: PathModel)
    requires
        is_ancestor(a, p),
    ensures
        a == ancestor_at(p, a.parts.len() as int),
{
    assert(a.parts =~= p.parts.take(a.parts.len() as int));
}

pub proof fn lemma_ancestor_transitive(a: PathModel, b: PathModel, c: PathModel)
    requires
        is_ancestor(a, b),
        is_ancestor(b, c),
    ensures
        is_ancestor(a, c),
{
    assert(c.parts.take(a.parts.len() as int) =~= b.parts.take(a.parts.len() as int));
}

pub proof fn lemma_ancestor_at_is_ancestor(p: PathModel, k: int)
    requires
        0 <= k <= p.parts.len(),
    ensures
        is_ancestor(ancestor_at(p, k), p),
        ancestor_at(p, k).parts.len() == k,
{
    assert(p.parts.take(k).len() == k);
}

/// Returns the paths of every indexed entry whose name matches `query`
/// (expected already lowercased), plus every ancestor of a match, i.e.
/// exactly the set of entries a search-filtered tree view should keep.
///
/// Once an ancestor has been recorded by an earlier match, every path
/// above it must already be recorded too, so walking stops as soon as it
/// hits one.
pub fn search_index(index: &SearchIndex, query: &str) -> (matches: PathSet)
    ensures
        matches@ == search_matches(index_view(index@), query@),
{
    let ghost iv = index_view(index@);
    let mut matches = PathSet::new();
    let n = index.len();
    let mut i: usize = 0;
    proof {
        assert(matches@ =~= search_matches(iv.take(0), query@));
    }
    while i < n
        invariant
            i <= n,
            n == index.len(),
            iv == index_view(index@),
            matches@ == search_matches(iv.take(i as int), query@),
            ancestor_closed(matches@),
        decreases n - i,
    {
        let path = &index[i].0;
        let name = &index[i].1;
        let ghost p = path@;
        let ghost s0 = matches@;
        proof {
            assert(iv[i as int] == (path@, name@));
        }
        if str_contains(name.as_str(), query) {
            let len = path.parts.len();
            let mut k: usize = len;
            proof {
                assert(matches@ =~= s0.union(
                    Set::new(|a: PathModel| is_ancestor(a, p) && a.parts.len() > k),
                )) by {
                    assert forall|a: PathModel|
                        is_ancestor(a, p) implies a.parts.len() <= k by {}
                }
            }
            loop
                invariant_except_break
                    k <= len,
                    matches@ == s0.union(
                        Set::new(|a: PathModel| is_ancestor(a, p) && a.parts.len() > k),
                    ),
                invariant
                    len == p.parts.len(),
                    p == path@,
                    ancestor_closed(s0),
                ensures
                    matches@ == s0.union(ancestors_of(p)),
                decreases k,
            {
                let a = path.ancestor(k);
                proof {
                    lemma_ancestor_at_is_ancestor(p, k as int);
                }
                let ghost before = matches@;
                let added = matches.insert(a);
                if !added {
                    proof {
                        assert(s0.contains(a@));
                        assert forall|b: PathModel| is_ancestor(b, p) && b.parts.len() <= k implies s0.contains(b) by {
                            lemma_ancestor_shape(b, p);
                            assert(b.parts =~= a@.parts.take(b.parts.len() as int));
                            assert(is_ancestor(b, a@));
                        }
                        assert(matches@ =~= s0.union(ancestors_of(p)));
                    }
                    break ;
                }
                if k == 0 {
                    proof {
                        assert forall|b: PathModel| is_ancestor(b, p) implies matches@.contains(b) by {
                            if b.parts.len() == 0 {
                                lemma_ancestor_shape(b, p);
                            }
                        }
                        assert(matches@ =~= s0.union(ancestors_of(p)));
                    }
                    break ;
                }
                proof {
                    assert forall|b: PathModel| is_ancestor(b, p) && b.parts.len() > k - 1 implies matches@.contains(b) by {
                        if b.parts.len() == k {
                            lemma_ancestor_shape(b, p);
                        }
                    }
                    assert(matches@ =~= s0.union(
                        Set::new(|b: PathModel| is_ancestor(b, p) && b.parts.len() > k - 1),
                    ));
                }
                k = k - 1;
            }
            proof {
                assert forall|a: PathModel, b: PathModel| #[trigger] matches@.contains(a) && #[trigger] is_ancestor(b, a) implies matches@.contains(b) by {
                    if !s0.contains(a) {
                        lemma_ancestor_transitive(b, a, p);
                    }
                }
                assert forall|a: PathModel| matches@.contains(a) <==> search_matches(iv.take(i + 1), query@).contains(a) by {
                    let t = iv.take(i + 1);
                    assert(t[i as int] == iv[i as int]);
                    if ancestors_of(p).contains(a) {
                        assert(is_ancestor(a, t[i as int].0));
                        assert(has_substring(t[i as int].1, query@));
                    }
                    if search_matches(iv.take(i as int), query@).contains(a) {
                        let j = choose|j: int| 0 <= j < iv.take(i as int).len() && has_substring(iv.take(i as int)[j].1, query@) && #[trigger] is_ancestor(a, iv.take(i as int)[j].0);
                        assert(t[j] == iv.take(i as int)[j]);
                    }
                    if search_matches(t, query@).contains(a) {
                        let j = choose|j: int| 0 <= j < t.len() && has_substring(t[j].1, query@) && #[trigger] is_ancestor(a, t[j].0);
                        if j < i {
                            assert(iv.take(i as int)[j] == t[j]);
                        }
                    }
                }
                assert(matches@ =~= search_matches(iv.take(i + 1), query@));
            }
        } else {
            proof {
                assert forall|a: PathModel| matches@.contains(a) <==> search_matches(iv.take(i + 1), query@).contains(a) by {
                    let t = iv.take(i + 1);
                    if search_matches(iv.take(i as int), query@).contains(a) {
                        let j = choose|j: int| 0 <= j < iv.take(i as int).len() && has_substring(iv.take(i as int)[j].1, query@) && #[trigger] is_ancestor(a, iv.take(i as int)[j].0);
                        assert(t[j] == iv.take(i as int)[j]);
                    }
                    if search_matches(t, query@).contains(a) {
                        let j = choose|j: int| 0 <= j < t.len() && has_substring(t[j].1, query@) && #[trigger] is_ancestor(a, t[j].0);
                        if j < i {
                            assert(iv.take(i as int)[j] == t[j]);
                        } else {
                            assert(t[j] == iv[i as int]);
                        }
                    }
                }
                assert(matches@ =~= search_matches(iv.take(i + 1), query@));
            }
        }
        i = i + 1;
    }
    proof {
        assert(iv.take(n as int) =~= iv);
    }
    matches
}


/// Law: a search result holds every ancestor of each path it holds, so the
/// filtered tree view never shows an entry without its parent folders.
pub proof fn lemma_search_results_ancestor_closed(s: Seq<(PathModel, Seq<char>)>, q: Seq<char>)
    ensures
        ancestor_closed(search_matches(s, q)),
{
    let st = search_matches(s, q);
    assert forall|a: PathModel, b: PathModel| #[trigger] st.contains(a) && #[trigger] is_ancestor(
        b,
        a,
    ) implies st.contains(b) by {
        let i = choose|i: int|
            0 <= i < s.len() && has_substring(s[i].1, q) && #[trigger] is_ancestor(a, s[i].0);
        lemma_ancestor_transitive(b, a, s[i].0);
    }
}

/// Law: dropping `base` from the index leaves no entry at or under `base`
/// and keeps every other entry.
pub proof fn lemma_outside_of(s: Seq<(PathModel, Seq<char>)>, base: PathModel)
    ensures
        forall|i: int|
            0 <= i < outside_of(s, base).len() ==> !path_starts_with(
                #[trigger] outside_of(s, base)[i].0,
                base,
            ),
        forall|x: (PathModel, Seq<char>)|
            #[trigger] s.contains(x) && !path_starts_with(x.0, base) ==> outside_of(
                s,
                base,
            ).contains(x),
        forall|x: (PathModel, Seq<char>)| #[trigger] outside_of(s, base).contains(x) ==> s.contains(x),
    decreases s.len(),
{
    if s.len() > 0 {
        let d = s.drop_last();
        lemma_outside_of(d, base);
        let r = outside_of(d, base);
        assert forall|x: (PathModel, Seq<char>)| #[trigger] s.contains(x) && !path_starts_with(
            x.0,
            base,
        ) implies outside_of(s, base).contains(x) by {
            let j = choose|j: int| 0 <= j < s.len() && s[j] == x;
            if j < s.len() - 1 {
                assert(d[j] == x);
                assert(d.contains(x));
                let k = choose|k: int| 0 <= k < r.len() && r[k] == x;
                assert(outside_of(s, base)[k] == x);
            } else {
                assert(outside_of(s, base).last() == x);
            }
        }
        assert forall|x: (PathModel, Seq<char>)| #[trigger] outside_of(s, base).contains(x)
            implies s.contains(x) by {
            let k = choose|k: int| 0 <= k < outside_of(s, base).len() && outside_of(s, base)[k] == x;
            if k < r.len() {
                assert(r[k] == x);
                assert(r.contains(x));
                let j = choose|j: int| 0 <= j < d.len() && d[j] == x;
                assert(s[j] == x);
            } else {
                assert(s[s.len() - 1] == x);
            }
        }
    }
}

/// The paths a search for `query` keeps, whatever its case: every indexed
/// entry whose lowercased name holds the lowercased query, and every
/// ancestor of one.
pub fn search_query(index: &SearchIndex, query: &str) -> (matches: PathSet)
    ensures
        matches@ == search_matches(index_view(index@), lowercase(query@)),
{
    let lowered = to_lowercase(query);
    search_index(index, lowered.as_str())
}

/// Law: moving the indexed paths from under `a` to under `b` and back gives
/// the index back, when no indexed path was under `b` to begin with (`a`
/// is not the empty path, and the paths' components are normalized, as
/// those of every `Path` are).
pub proof fn lemma_reindex_round_trip(
    s: Seq<(PathModel, Seq<char>)>,
    a: PathModel,
    b: PathModel,
)
    requires
        !crate::path::is_empty_path(a),
        forall|i: int| 0 <= i < s.len() ==> normalized(#[trigger] s[i].0),
        forall|i: int| 0 <= i < s.len() ==> !path_starts_with(#[trigger] s[i].0, b),
    ensures
        reindexed(reindexed(s, a, b), b, a) == s,
{
    let once = reindexed(s, a, b);
    let twice = reindexed(once, b, a);
    assert forall|i: int| 0 <= i < s.len() implies #[trigger] twice[i] == s[i] by {
        let p = s[i].0;
        assert(normalized(p));
        assert(!path_starts_with(p, b));
        if path_starts_with(p, a) {
            crate::path::lemma_rebase_round_trip(p, a, b);
        } else {
            assert(once[i] == s[i]);
            assert(twice[i] == s[i]);
        }
    }
    assert(twice =~= s);
}

} // verus!
