use vstd::prelude::*;
use vstd::string::*;
use vstd::multiset::Multiset;
use crate::path::{FsPath, PathModel, file_name, display_path, rebase};

verus! {

/// Name of the folder a scanned root's saved index is stored under. Scans
/// skip this folder entirely: it is app metadata, not user data to measure.
pub const INDEX_DIR_NAME: &'static str = ".costree";

/// Abstract value of an entry and its whole subtree.
pub struct EntryModel {
    pub name: Seq<char>,
    pub path: PathModel,
    pub size: nat,
    pub is_dir: bool,
    pub scanned: bool,
    pub children: Seq<EntryModel>,
}

/// A single file or directory node in the scanned tree.
pub struct Entry {
    pub name: String,
    pub path: FsPath,
    pub size: u64,
    pub is_dir: bool,
    /// True once `size` and `children` reflect the full subtree. Directories
    /// start out unscanned so the top level can be shown before recursion
    /// into their contents has finished.
    pub scanned: bool,
    /// Populated for directories; sorted largest-first.
    pub children: Vec<Entry>,
}

pub open spec fn empty_model() -> EntryModel {
    EntryModel {
        name: Seq::empty(),
        path: PathModel { absolute: false, parts: Seq::empty() },
        size: 0,
        is_dir: false,
        scanned: false,
        children: Seq::empty(),
    }
}

impl Entry {
    /// The abstract value of this entry and everything below it.
    pub open spec fn model(&self) -> EntryModel
        decreases self,
    {
        EntryModel {
            name: self.name@,
            path: self.path@,
            size: self.size as nat,
            is_dir: self.is_dir,
            scanned: self.scanned,
            children: Seq::new(
                self.children@.len(),
                |i: int|
                    if 0 <= i < self.children@.len() {
                        self.children@[i].model()
                    } else {
                        empty_model()
                    },
            ),
        }
    }
}

/// The abstract values of a run of entries.
pub open spec fn models(s: Seq<Entry>) -> Seq<EntryModel> {
    Seq::new(s.len(), |i: int| s[i].model())
}

pub proof fn lemma_children_models(e: &Entry)
    ensures
        e.model().children == models(e.children@),
{
    assert(e.model().children =~= models(e.children@));
}

/// Sum of the sizes of `s`.
pub open spec fn sum_sizes(s: Seq<EntryModel>) -> nat
    decreases s.len(),
{
    if s.len() == 0 {
        0
    } else {
        sum_sizes(s.drop_last()) + s.last().size
    }
}

/// How many leading entries of `s` are at least `size` large.
pub open spec fn count_at_least(s: Seq<EntryModel>, size: nat) -> nat
    decreases s.len(),
{
    if s.len() == 0 {
        0
    } else if s[0].size >= size {
        1 + count_at_least(s.drop_first(), size)
    } else {
        0
    }
}

/// `x` placed into the largest-first sequence `s` after every entry at
/// least as large as it.
pub open spec fn insert_by_size(s: Seq<EntryModel>, x: EntryModel) -> Seq<EntryModel> {
    s.insert(count_at_least(s, x.size) as int, x)
}

/// `s` ordered largest-first, entries of equal size kept in their order
/// (what a stable `sort_by(|a, b| b.size.cmp(&a.size))` gives).
pub open spec fn sort_by_size(s: Seq<EntryModel>) -> Seq<EntryModel>
    decreases s.len(),
{
    if s.len() == 0 {
        s
    } else {
        insert_by_size(sort_by_size(s.drop_last()), s.last())
    }
}

/// Largest first.
pub open spec fn sorted_by_size(s: Seq<EntryModel>) -> bool {
    forall|i: int, j: int| 0 <= i < j < s.len() ==> #[trigger] s[i].size >= #[trigger] s[j].size
}

proof fn lemma_count_bounds(s: Seq<EntryModel>, size: nat)
    ensures
        count_at_least(s, size) <= s.len(),
        forall|j: int| 0 <= j < count_at_least(s, size) ==> s[j].size >= size,
        count_at_least(s, size) < s.len() ==> s[count_at_least(s, size) as int].size < size,
    decreases s.len(),
{
    if s.len() > 0 && s[0].size >= size {
        lemma_count_bounds(s.drop_first(), size);
        assert forall|j: int| 0 <= j < count_at_least(s, size) implies s[j].size >= size by {
            if j > 0 {
                assert(s[j] == s.drop_first()[j - 1]);
            }
        }
    }
}

/// Ordering keeps a largest-first order.
pub proof fn lemma_insert_sorted(s: Seq<EntryModel>, x: EntryModel)
    requires
        sorted_by_size(s),
    ensures
        sorted_by_size(insert_by_size(s, x)),
        insert_by_size(s, x).len() == s.len() + 1,
{
    lemma_count_bounds(s, x.size);
    let k = count_at_least(s, x.size) as int;
    let r = insert_by_size(s, x);
    assert forall|i: int, j: int| 0 <= i < j < r.len() implies #[trigger] r[i].size
        >= #[trigger] r[j].size by {
        if j < k {
        } else if j == k {
            assert(r[i] == s[i]);
        } else if i < k {
            assert(r[i] == s[i]);
            assert(r[j] == s[j - 1]);
            if j - 1 >= k {
                assert(s[k].size >= s[j - 1].size);
            }
        } else if i == k {
            assert(r[j] == s[j - 1]);
            assert(s[k].size >= s[j - 1].size);
        } else {
            assert(r[i] == s[i - 1]);
            assert(r[j] == s[j - 1]);
        }
    }
}

/// Law: ordering by size gives a largest-first sequence of the same
/// entries, each as often as before.
pub proof fn lemma_sort_by_size(s: Seq<EntryModel>)
    ensures
        sorted_by_size(sort_by_size(s)),
        sort_by_size(s).to_multiset() == s.to_multiset(),
        sort_by_size(s).len() == s.len(),
    decreases s.len(),
{
    broadcast use vstd::seq_lib::group_to_multiset_ensures;
    broadcast use vstd::seq_lib::to_multiset_insert;

    if s.len() > 0 {
        lemma_sort_by_size(s.drop_last());
        let r = sort_by_size(s.drop_last());
        lemma_insert_sorted(r, s.last());
        lemma_count_bounds(r, s.last().size);
        assert(s.drop_last().push(s.last()) =~= s);
    }
}

/// The entries of `s` whose size is `w`, in order.
pub open spec fn of_size(s: Seq<EntryModel>, w: nat) -> Seq<EntryModel>
    decreases s.len(),
{
    if s.len() == 0 {
        s
    } else {
        let r = of_size(s.drop_last(), w);
        if s.last().size == w {
            r.push(s.last())
        } else {
            r
        }
    }
}

proof fn lemma_of_size_concat(a: Seq<EntryModel>, b: Seq<EntryModel>, w: nat)
    ensures
        of_size(a + b, w) == of_size(a, w) + of_size(b, w),
    decreases b.len(),
{
    if b.len() == 0 {
        assert(a + b =~= a);
        assert(of_size(a, w) + of_size(b, w) =~= of_size(a, w));
    } else {
        lemma_of_size_concat(a, b.drop_last(), w);
        assert((a + b).drop_last() =~= a + b.drop_last());
        assert((a + b).last() == b.last());
        if b.last().size == w {
            assert(of_size(a, w) + of_size(b.drop_last(), w).push(b.last()) =~= (of_size(a, w)
                + of_size(b.drop_last(), w)).push(b.last()));
        }
    }
}

proof fn lemma_of_size_single(x: EntryModel, w: nat)
    ensures
        of_size(seq![x], w) == (if x.size == w {
            seq![x]
        } else {
            Seq::<EntryModel>::empty()
        }),
{
    assert(seq![x].drop_last() =~= Seq::<EntryModel>::empty());
    assert(of_size(seq![x].drop_last(), w) =~= Seq::<EntryModel>::empty());
    assert(seq![x].last() == x);
    assert(Seq::<EntryModel>::empty().push(x) =~= seq![x]);
}

/// Nothing of size `w` is picked from a run that holds no entry of size `w`.
proof fn lemma_of_size_none(s: Seq<EntryModel>, w: nat)
    requires
        forall|j: int| 0 <= j < s.len() ==> #[trigger] s[j].size != w,
    ensures
        of_size(s, w) == Seq::<EntryModel>::empty(),
    decreases s.len(),
{
    if s.len() > 0 {
        lemma_of_size_none(s.drop_last(), w);
    }
}

/// The entries of size `w` in the run without its first entry.
proof fn lemma_of_size_tail(s: Seq<EntryModel>, w: nat)
    requires
        s.len() > 0,
    ensures
        of_size(s.drop_first(), w) == (if s[0].size == w {
            of_size(s, w).drop_first()
        } else {
            of_size(s, w)
        }),
        s[0].size == w ==> of_size(s, w).len() > 0 && of_size(s, w)[0] == s[0],
{
    assert(s =~= seq![s[0]] + s.drop_first());
    lemma_of_size_concat(seq![s[0]], s.drop_first(), w);
    lemma_of_size_single(s[0], w);
    if s[0].size == w {
        assert((seq![s[0]] + of_size(s.drop_first(), w)).drop_first() =~= of_size(s.drop_first(), w));
    } else {
        assert(Seq::<EntryModel>::empty() + of_size(s.drop_first(), w) =~= of_size(s.drop_first(), w));
    }
}

/// A run that holds an entry of size `w` picks something of size `w`.
proof fn lemma_of_size_nonempty(s: Seq<EntryModel>, j: int)
    requires
        0 <= j < s.len(),
    ensures
        of_size(s, s[j].size).len() > 0,
    decreases s.len(),
{
    if j == s.len() - 1 {
    } else {
        lemma_of_size_nonempty(s.drop_last(), j);
    }
}

/// Every entry picked by size `w` has size `w`.
proof fn lemma_of_size_sizes(s: Seq<EntryModel>, w: nat)
    ensures
        forall|j: int| 0 <= j < of_size(s, w).len() ==> (#[trigger] of_size(s, w)[j]).size == w,
    decreases s.len(),
{
    if s.len() > 0 {
        let t = s.drop_last();
        lemma_of_size_sizes(t, w);
        assert forall|j: int| 0 <= j < of_size(s, w).len() implies (#[trigger] of_size(s, w)[j]).size
            == w by {
            if j < of_size(t, w).len() {
                assert(of_size(s, w)[j] == of_size(t, w)[j]);
            }
        }
    }
}

/// Ordering by size keeps entries of equal size in the order they came in.
pub proof fn lemma_sort_by_size_stable(s: Seq<EntryModel>, w: nat)
    ensures
        of_size(sort_by_size(s), w) == of_size(s, w),
    decreases s.len(),
{
    if s.len() > 0 {
        let t = s.drop_last();
        let x = s.last();
        lemma_sort_by_size_stable(t, w);
        let r = sort_by_size(t);
        lemma_sort_by_size(t);
        lemma_count_bounds(r, x.size);
        let k = count_at_least(r, x.size) as int;
        assert(r.insert(k, x) =~= r.take(k) + seq![x] + r.skip(k));
        lemma_of_size_concat(r.take(k) + seq![x], r.skip(k), w);
        lemma_of_size_concat(r.take(k), seq![x], w);
        lemma_of_size_single(x, w);
        assert(r =~= r.take(k) + r.skip(k));
        lemma_of_size_concat(r.take(k), r.skip(k), w);
        if x.size == w {
            assert forall|j: int| 0 <= j < r.skip(k).len() implies #[trigger] r.skip(k)[j].size != w by {
                assert(r.skip(k)[j] == r[k + j]);
                if j > 0 {
                    assert(r[k].size >= r[k + j].size);
                }
            }
            lemma_of_size_none(r.skip(k), w);
            assert(of_size(r.take(k), w) + seq![x] + Seq::<EntryModel>::empty() =~= (of_size(
                r.take(k),
                w,
            ) + of_size(r.skip(k), w)).push(x));
        } else {
            assert(of_size(r.take(k), w) + Seq::<EntryModel>::empty() + of_size(r.skip(k), w)
                =~= of_size(r.take(k), w) + of_size(r.skip(k), w));
        }
    }
}

/// Law: there is one stable ordering by size. Two largest-first runs that
/// hold the same entries of each size, in the same order, are equal.
pub proof fn lemma_stable_order_unique(a: Seq<EntryModel>, b: Seq<EntryModel>)
    requires
        sorted_by_size(a),
        sorted_by_size(b),
        forall|w: nat| #[trigger] of_size(a, w) == of_size(b, w),
    ensures
        a == b,
    decreases a.len() + b.len(),
{
    if a.len() == 0 && b.len() == 0 {
        assert(a =~= b);
    } else if a.len() == 0 {
        lemma_of_size_nonempty(b, 0);
        assert(of_size(a, b[0].size) == of_size(b, b[0].size));
    } else if b.len() == 0 {
        lemma_of_size_nonempty(a, 0);
        assert(of_size(a, a[0].size) == of_size(b, a[0].size));
    } else {
        let m = a[0].size;
        let n = b[0].size;
        assert(m == n) by {
            lemma_of_size_nonempty(a, 0);
            lemma_of_size_nonempty(b, 0);
            assert(of_size(a, m) == of_size(b, m));
            assert(of_size(a, n) == of_size(b, n));
            lemma_of_size_sizes(b, m);
            lemma_of_size_sizes(a, n);
            lemma_of_size_members(b, m);
            lemma_of_size_members(a, n);
            let x = of_size(b, m)[0];
            let y = of_size(a, n)[0];
            let i = choose|i: int| 0 <= i < b.len() && b[i] == x;
            let j = choose|j: int| 0 <= j < a.len() && a[j] == y;
            if i > 0 {
                assert(b[0].size >= b[i].size);
            }
            if j > 0 {
                assert(a[0].size >= a[j].size);
            }
        }
        lemma_of_size_tail(a, m);
        lemma_of_size_tail(b, m);
        assert(of_size(a, m) == of_size(b, m));
        assert(a[0] == b[0]);
        let ta = a.drop_first();
        let tb = b.drop_first();
        assert forall|w: nat| #[trigger] of_size(ta, w) == of_size(tb, w) by {
            lemma_of_size_tail(a, w);
            lemma_of_size_tail(b, w);
            assert(of_size(a, w) == of_size(b, w));
        }
        assert(sorted_by_size(ta)) by {
            assert forall|i: int, j: int| 0 <= i < j < ta.len() implies #[trigger] ta[i].size
                >= #[trigger] ta[j].size by {
                assert(a[i + 1].size >= a[j + 1].size);
            }
        }
        assert(sorted_by_size(tb)) by {
            assert forall|i: int, j: int| 0 <= i < j < tb.len() implies #[trigger] tb[i].size
                >= #[trigger] tb[j].size by {
                assert(b[i + 1].size >= b[j + 1].size);
            }
        }
        lemma_stable_order_unique(ta, tb);
        assert(a =~= seq![a[0]] + ta);
        assert(b =~= seq![b[0]] + tb);
    }
}

/// Every entry picked by size is an entry of the run.
proof fn lemma_of_size_members(s: Seq<EntryModel>, w: nat)
    ensures
        forall|j: int| 0 <= j < of_size(s, w).len() ==> s.contains(#[trigger] of_size(s, w)[j]),
    decreases s.len(),
{
    if s.len() > 0 {
        let t = s.drop_last();
        lemma_of_size_members(t, w);
        assert forall|j: int| 0 <= j < of_size(s, w).len() implies s.contains(
            #[trigger] of_size(s, w)[j],
        ) by {
            if j < of_size(t, w).len() {
                assert(of_size(s, w)[j] == of_size(t, w)[j]);
                let i = choose|i: int| 0 <= i < t.len() && t[i] == of_size(t, w)[j];
                assert(s[i] == t[i]);
            } else {
                assert(of_size(s, w)[j] == s.last());
                assert(s[s.len() - 1] == s.last());
            }
        }
    }
}

/// Law: the total size does not depend on the order of the entries.
pub proof fn lemma_sum_sort(s: Seq<EntryModel>)
    ensures
        sum_sizes(sort_by_size(s)) == sum_sizes(s),
    decreases s.len(),
{
    if s.len() > 0 {
        lemma_sum_sort(s.drop_last());
        let r = sort_by_size(s.drop_last());
        lemma_count_bounds(r, s.last().size);
        lemma_sum_insert(r, count_at_least(r, s.last().size) as int, s.last());
    }
}

pub proof fn lemma_sum_insert(s: Seq<EntryModel>, k: int, x: EntryModel)
    requires
        0 <= k <= s.len(),
    ensures
        sum_sizes(s.insert(k, x)) == sum_sizes(s) + x.size,
    decreases s.len(),
{
    if k == s.len() {
        assert(s.insert(k, x) =~= s.push(x));
        assert(s.push(x).drop_last() =~= s);
    } else {
        lemma_sum_insert(s.drop_last(), k, x);
        assert(s.insert(k, x).drop_last() =~= s.drop_last().insert(k, x));
    }
}

pub proof fn lemma_sum_remove(s: Seq<EntryModel>, k: int)
    requires
        0 <= k < s.len(),
    ensures
        sum_sizes(s.remove(k)) + s[k].size == sum_sizes(s),
{
    lemma_sum_insert(s.remove(k), k, s[k]);
    assert(s.remove(k).insert(k, s[k]) =~= s);
}

pub proof fn lemma_sum_update(s: Seq<EntryModel>, k: int, x: EntryModel)
    requires
        0 <= k < s.len(),
    ensures
        sum_sizes(s.update(k, x)) + s[k].size == sum_sizes(s) + x.size,
{
    lemma_sum_remove(s, k);
    lemma_sum_remove(s.update(k, x), k);
    assert(s.update(k, x).remove(k) =~= s.remove(k));
}

proof fn lemma_sum_prefix(s: Seq<EntryModel>, i: int)
    requires
        0 <= i < s.len(),
    ensures
        sum_sizes(s.take(i + 1)) == sum_sizes(s.take(i)) + s[i].size,
        sum_sizes(s.take(i + 1)) <= sum_sizes(s),
    decreases s.len(),
{
    assert(s.take(i + 1).drop_last() =~= s.take(i));
    if i + 1 < s.len() {
        lemma_sum_prefix(s.drop_last(), i);
        assert(s.drop_last().take(i + 1) =~= s.take(i + 1));
        if i + 2 <= s.len() - 1 {
        }
        lemma_sum_prefix_le(s.drop_last(), i + 1);
    } else {
        assert(s.take(i + 1) =~= s);
    }
}

proof fn lemma_sum_prefix_le(s: Seq<EntryModel>, k: int)
    requires
        0 <= k <= s.len(),
    ensures
        sum_sizes(s.take(k)) <= sum_sizes(s),
    decreases s.len() - k,
{
    if k < s.len() {
        lemma_sum_prefix_le(s, k + 1);
        assert(s.take(k + 1).drop_last() =~= s.take(k));
    } else {
        assert(s.take(k) =~= s);
    }
}

/// Total size of `v`.
pub fn total_size(v: &Vec<Entry>) -> (r: u64)
    requires
        sum_sizes(models(v@)) <= u64::MAX,
    ensures
        r == sum_sizes(models(v@)),
{
    let ghost m = models(v@);
    let mut total: u64 = 0;
    let mut i: usize = 0;
    proof {
        assert(m.take(0) =~= Seq::<EntryModel>::empty());
    }
    while i < v.len()
        invariant
            m == models(v@),
            i <= v.len(),
            sum_sizes(m) <= u64::MAX,
            total == sum_sizes(m.take(i as int)),
        decreases v.len() - i,
    {
        proof {
            assert(m.take(i + 1).drop_last() =~= m.take(i as int));
            lemma_sum_prefix_le(m, i + 1);
        }
        total = total + v[i].size;
        i = i + 1;
    }
    proof {
        assert(m.take(v.len() as int) =~= m);
    }
    total
}

/// The entries of `v` ordered largest-first, equal sizes kept in order.
pub fn sort_entries(v: Vec<Entry>) -> (r: Vec<Entry>)
    ensures
        models(r@) == sort_by_size(models(v@)),
{
    let ghost orig = models(v@);
    let mut r = v;
    crate::order::sort_larger_first(&mut r);
    proof {
        lemma_sort_by_size(orig);
        assert forall|w: nat| #[trigger] of_size(models(r@), w) == of_size(sort_by_size(orig), w) by {
            lemma_sort_by_size_stable(orig, w);
        }
        lemma_stable_order_unique(models(r@), sort_by_size(orig));
    }
    r
}

/// The text shown for an entry at `p`: its file name, or the whole path
/// when it has none (the root, `.` or `..`).
pub open spec fn name_for(p: PathModel) -> Seq<char> {
    match file_name(p) {
        Some(n) => n,
        None => display_path(p),
    }
}

/// `p` is the saved-index folder of some scanned root.
pub open spec fn is_index_dir_path(p: PathModel) -> bool {
    file_name(p) == Some(INDEX_DIR_NAME@)
}

/// The name shown for the entry at `path`.
pub fn entry_name(path: &FsPath) -> (r: String)
    ensures
        r@ == name_for(path@),
{
    match path.file_name() {
        Some(n) => n,
        None => path.display(),
    }
}

/// Whether `path` is a saved-index folder, which scans skip.
pub fn is_index_dir(path: &FsPath) -> (r: bool)
    ensures
        r == is_index_dir_path(path@),
{
    match path.file_name() {
        Some(n) => {
            let marker = String::from_str(INDEX_DIR_NAME);
            n == marker
        },
        None => false,
    }
}

/// The first entry in the subtree of `m`, in depth-first order starting
/// with `m` itself, whose path is `t`.
pub open spec fn find_model(m: EntryModel, t: PathModel) -> Option<EntryModel>
    decreases m, 0int,
{
    if m.path == t {
        Some(m)
    } else {
        find_from(m.children, t, 0)
    }
}

/// The first match for `t` in the subtrees of `s[k..]`.
pub open spec fn find_from(s: Seq<EntryModel>, t: PathModel, k: int) -> Option<EntryModel>
    decreases s, s.len() - k,
{
    if k < 0 || k >= s.len() {
        None
    } else {
        match find_model(s[k], t) {
            Some(e) => Some(e),
            None => find_from(s, t, k + 1),
        }
    }
}

/// Finds the entry at `target` anywhere in the tree rooted at `node`.
pub fn find_entry<'a>(node: &'a Entry, target: &FsPath) -> (r: Option<&'a Entry>)
    ensures
        r matches Some(e) ==> find_model(node.model(), target@) == Some(e.model()),
        r is None ==> find_model(node.model(), target@) is None,
    decreases node,
{
    if node.path.same_as(target) {
        return Some(node);
    }
    proof {
        lemma_children_models(node);
    }
    let ghost ms = models(node.children@);
    let mut i: usize = 0;
    while i < node.children.len()
        invariant
            i <= node.children.len(),
            ms == models(node.children@),
            node.model().children == ms,
            node.path@ != target@,
            find_from(ms, target@, 0) == find_from(ms, target@, i as int),
        decreases node.children.len() - i,
    {
        let child = &node.children[i];
        proof {
            assert(ms[i as int] == child.model());
        }
        match find_entry(child, target) {
            Some(e) => {
                proof {
                    assert(find_from(ms, target@, i as int) == Some(e.model()));
                    assert(find_model(node.model(), target@) == find_from(ms, target@, 0));
                }
                return Some(e);
            },
            None => {},
        }
        proof {
            assert(find_from(ms, target@, i as int) == find_from(ms, target@, i + 1));
        }
        i = i + 1;
    }
    None
}


/// Index of the first entry of `s[k..]` whose path is `t`.
pub open spec fn direct_from(s: Seq<EntryModel>, t: PathModel, k: int) -> Option<int>
    decreases s.len() - k,
{
    if k < 0 || k >= s.len() {
        None
    } else if s[k].path == t {
        Some(k)
    } else {
        direct_from(s, t, k + 1)
    }
}

/// `m` with the children `ch`: its size becomes their total and they are
/// ordered largest-first.
pub open spec fn settle(m: EntryModel, ch: Seq<EntryModel>) -> EntryModel {
    EntryModel { size: sum_sizes(ch), children: sort_by_size(ch), ..m }
}

/// What removing `t` below `m` gives: whether an entry was removed, and the
/// new subtree. A direct child at `t` is removed; otherwise the first
/// directory child that holds `t` below it has it removed. Every ancestor
/// of the removed entry gets its size recomputed and its children resorted.
pub open spec fn remove_model(m: EntryModel, t: PathModel) -> (bool, EntryModel)
    decreases m, 0int,
{
    match direct_from(m.children, t, 0) {
        Some(i) => (true, settle(m, m.children.remove(i))),
        None => match nested_remove_from(m.children, t, 0) {
            Some(hit) => (true, settle(m, m.children.update(hit.0, hit.1))),
            None => (false, m),
        },
    }
}

/// The first directory child in `s[k..]` from below which `t` is removed,
/// with its new subtree.
pub open spec fn nested_remove_from(s: Seq<EntryModel>, t: PathModel, k: int) -> Option<
    (int, EntryModel),
>
    decreases s, s.len() - k,
{
    if k < 0 || k >= s.len() {
        None
    } else if s[k].is_dir && remove_model(s[k], t).0 {
        Some((k, remove_model(s[k], t).1))
    } else {
        nested_remove_from(s, t, k + 1)
    }
}

/// Every size that removing `t` below `m` recomputes fits in a `u64`.
pub open spec fn removal_fits(m: EntryModel, t: PathModel) -> bool
    decreases m, 0int,
{
    match direct_from(m.children, t, 0) {
        Some(i) => sum_sizes(m.children.remove(i)) <= u64::MAX,
        None => {
            &&& fits_from(m.children, t, 0)
            &&& (nested_remove_from(m.children, t, 0) matches Some(hit) ==> sum_sizes(
                m.children.update(hit.0, hit.1),
            ) <= u64::MAX)
        },
    }
}

pub open spec fn fits_from(s: Seq<EntryModel>, t: PathModel, k: int) -> bool
    decreases s, s.len() - k,
{
    if k < 0 || k >= s.len() {
        true
    } else if s[k].is_dir && remove_model(s[k], t).0 {
        removal_fits(s[k], t)
    } else {
        fits_from(s, t, k + 1)
    }
}

proof fn lemma_fits_from_none(s: Seq<EntryModel>, t: PathModel, k: int)
    requires
        0 <= k <= s.len(),
        nested_remove_from(s, t, k) is None,
    ensures
        fits_from(s, t, k),
    decreases s.len() - k,
{
    if k < s.len() {
        lemma_fits_from_none(s, t, k + 1);
    }
}

proof fn lemma_nothing_removed_fits(m: EntryModel, t: PathModel)
    requires
        !remove_model(m, t).0,
    ensures
        removal_fits(m, t),
        remove_model(m, t).1 == m,
{
    lemma_fits_from_none(m.children, t, 0);
}

/// Index of the first entry of `v` whose path is `target`.
pub fn position_of(v: &Vec<Entry>, target: &FsPath) -> (r: Option<usize>)
    ensures
        r matches Some(i) ==> i < v.len(),
        r matches Some(i) ==> direct_from(models(v@), target@, 0) == Some(i as int),
        r is None ==> direct_from(models(v@), target@, 0) is None,
{
    let ghost ms = models(v@);
    let mut i: usize = 0;
    while i < v.len()
        invariant
            i <= v.len(),
            ms == models(v@),
            direct_from(ms, target@, 0) == direct_from(ms, target@, i as int),
        decreases v.len() - i,
    {
        proof {
            assert(ms[i as int] == v@[i as int].model());
        }
        if v[i].path.same_as(target) {
            return Some(i);
        }
        i = i + 1;
    }
    None
}

/// Removes the entry at `target` from the tree rooted at `node`, recomputing
/// the size and sort order of every ancestor along the way. Returns `true`
/// if an entry was removed.
pub fn remove_path(node: &mut Entry, target: &FsPath) -> (removed: bool)
    requires
        removal_fits(old(node).model(), target@),
    ensures
        (removed, final(node).model()) == remove_model(old(node).model(), target@),
    decreases old(node).model(),
{
    proof {
        lemma_children_models(node);
    }
    let ghost m = node.model();
    let ghost ms = models(node.children@);
    let removed = match position_of(&node.children, target) {
        Some(idx) => {
            node.children.remove(idx);
            proof {
                assert(models(node.children@) =~= ms.remove(idx as int));
            }
            true
        },
        None => {
            let n = node.children.len();
            let mut removed_below = false;
            let mut i: usize = 0;
            while i < n
                invariant_except_break
                    !removed_below,
                    models(node.children@) == ms,
                    nested_remove_from(ms, target@, 0) == nested_remove_from(ms, target@, i as int),
                    fits_from(ms, target@, i as int),
                invariant
                    i <= n,
                    n == ms.len(),
                    m == old(node).model(),
                    m.children == ms,
                    node.children.len() == n,
                    node.name == old(node).name,
                    node.path == old(node).path,
                    node.size == old(node).size,
                    node.is_dir == old(node).is_dir,
                    node.scanned == old(node).scanned,
                ensures
                    removed_below ==> (nested_remove_from(ms, target@, 0) matches Some(hit) && models(
                        node.children@,
                    ) == ms.update(hit.0, hit.1)),
                    !removed_below ==> nested_remove_from(ms, target@, 0) is None && models(
                        node.children@,
                    ) == ms,
                decreases n - i,
            {
                proof {
                    assert(ms[i as int] == node.children@[i as int].model());
                }
                if node.children[i].is_dir {
                    proof {
                        if !remove_model(ms[i as int], target@).0 {
                            lemma_nothing_removed_fits(ms[i as int], target@);
                        }
                    }
                    let ghost before = node.children@;
                    proof {
                        assert(m.children == ms);
                        assert(decreases_to!(m => m.children));
                        assert(decreases_to!(m.children => m.children[i as int]));
                    }
                    let hit = remove_path(&mut node.children[i], target);
                    proof {
                        assert(node.children@ == before.update(i as int, node.children@[i as int]));
                    }
                    if hit {
                        proof {
                            assert(models(node.children@) =~= ms.update(
                                i as int,
                                remove_model(ms[i as int], target@).1,
                            ));
                        }
                        removed_below = true;
                        break ;
                    } else {
                        proof {
                            lemma_nothing_removed_fits(ms[i as int], target@);
                            assert(models(node.children@) =~= ms);
                        }
                    }
                }
                i = i + 1;
            }
            removed_below
        },
    };
    if removed {
        node.size = total_size(&node.children);
        let mut ch: Vec<Entry> = Vec::new();
        std::mem::swap(&mut ch, &mut node.children);
        node.children = sort_entries(ch);
        proof {
            assert(node.model().children =~= models(node.children@));
        }
    } else {
        proof {
            assert(node.model().children =~= models(node.children@));
        }
    }
    removed
}


/// `m` and its whole subtree with every path at or under `from` moved under
/// `to`, and every name recomputed from its (new) path.
pub open spec fn rewrite_model(m: EntryModel, from: PathModel, to: PathModel) -> EntryModel
    decreases m,
{
    let p = match rebase(m.path, from, to) {
        Some(q) => q,
        None => m.path,
    };
    EntryModel {
        name: name_for(p),
        path: p,
        children: Seq::new(
            m.children.len(),
            |i: int|
                if 0 <= i < m.children.len() {
                    rewrite_model(m.children[i], from, to)
                } else {
                    empty_model()
                },
        ),
        ..m
    }
}

/// What renaming `t` to `n` in the tree `m` gives: whether an entry was
/// renamed, and the new subtree. `m` itself is renamed when it is at `t`;
/// otherwise the first child whose subtree holds `t` has it renamed.
pub open spec fn rename_model(m: EntryModel, t: PathModel, n: PathModel) -> (bool, EntryModel)
    decreases m, 0int,
{
    if m.path == t {
        (true, rewrite_model(m, t, n))
    } else {
        match rename_from(m.children, t, n, 0) {
            Some(hit) => (true, EntryModel { children: m.children.update(hit.0, hit.1), ..m }),
            None => (false, m),
        }
    }
}

/// The first child in `s[k..]` whose subtree holds `t`, with its renamed
/// subtree.
pub open spec fn rename_from(s: Seq<EntryModel>, t: PathModel, n: PathModel, k: int) -> Option<
    (int, EntryModel),
>
    decreases s, s.len() - k,
{
    if k < 0 || k >= s.len() {
        None
    } else if rename_model(s[k], t, n).0 {
        Some((k, rename_model(s[k], t, n).1))
    } else {
        rename_from(s, t, n, k + 1)
    }
}

/// Moves every path in the subtree of `node` that lies at or under
/// `old_prefix` to the same place under `new_prefix`, and recomputes every
/// name from its path.
pub fn rewrite_paths(node: &mut Entry, old_prefix: &FsPath, new_prefix: &FsPath)
    ensures
        final(node).model() == rewrite_model(old(node).model(), old_prefix@, new_prefix@),
    decreases old(node).model(),
{
    let ghost m = node.model();
    proof {
        lemma_children_models(node);
    }
    let ghost ms = models(node.children@);
    match node.path.rebased(old_prefix, new_prefix) {
        Some(p) => {
            node.path = p;
        },
        None => {},
    }
    node.name = entry_name(&node.path);
    let n = node.children.len();
    let mut i: usize = 0;
    while i < n
        invariant
            i <= n,
            n == ms.len(),
            m == old(node).model(),
            m.children == ms,
            node.children.len() == n,
            node.path@ == rewrite_model(m, old_prefix@, new_prefix@).path,
            node.name@ == rewrite_model(m, old_prefix@, new_prefix@).name,
            node.size == old(node).size,
            node.is_dir == old(node).is_dir,
            node.scanned == old(node).scanned,
            forall|j: int|
                0 <= j < i ==> #[trigger] models(node.children@)[j] == rewrite_model(
                    ms[j],
                    old_prefix@,
                    new_prefix@,
                ),
            forall|j: int| i <= j < n ==> #[trigger] models(node.children@)[j] == ms[j],
        decreases n - i,
    {
        let ghost before = node.children@;
        proof {
            assert(models(before)[i as int] == before[i as int].model());
            assert(decreases_to!(m => m.children));
            assert(decreases_to!(m.children => m.children[i as int]));
        }
        rewrite_paths(&mut node.children[i], old_prefix, new_prefix);
        proof {
            assert(node.children@ == before.update(i as int, node.children@[i as int]));
            assert forall|j: int| 0 <= j < i + 1 implies #[trigger] models(node.children@)[j]
                == rewrite_model(ms[j], old_prefix@, new_prefix@) by {
                if j < i {
                    assert(models(node.children@)[j] == models(before)[j]);
                }
            }
            assert forall|j: int| i + 1 <= j < n implies #[trigger] models(node.children@)[j]
                == ms[j] by {
                assert(models(node.children@)[j] == models(before)[j]);
            }
        }
        i = i + 1;
    }
    proof {
        lemma_children_models(node);
        let rw = rewrite_model(m, old_prefix@, new_prefix@);
        assert forall|j: int| 0 <= j < n implies #[trigger] node.model().children[j]
            == rw.children[j] by {
            assert(models(node.children@)[j] == rewrite_model(ms[j], old_prefix@, new_prefix@));
            assert(m.children[j] == ms[j]);
        }
        assert(node.model().children =~= rw.children);
    }
}

/// Renames the entry at `target` (and, if it is a directory, every
/// descendant's path prefix) to `new_path` in the tree rooted at `node`.
/// Returns `true` if an entry was renamed.
pub fn rename_entry(node: &mut Entry, target: &FsPath, new_path: &FsPath) -> (renamed: bool)
    ensures
        (renamed, final(node).model()) == rename_model(old(node).model(), target@, new_path@),
    decreases old(node).model(),
{
    if node.path.same_as(target) {
        rewrite_paths(node, target, new_path);
        return true;
    }
    let ghost m = node.model();
    proof {
        lemma_children_models(node);
    }
    let ghost ms = models(node.children@);
    let n = node.children.len();
    let mut renamed_below = false;
    let mut i: usize = 0;
    while i < n
        invariant_except_break
            !renamed_below,
            models(node.children@) == ms,
            rename_from(ms, target@, new_path@, 0) == rename_from(ms, target@, new_path@, i as int),
        invariant
            i <= n,
            n == ms.len(),
            m == old(node).model(),
            m.children == ms,
            m.path != target@,
            node.children.len() == n,
            node.name == old(node).name,
            node.path == old(node).path,
            node.size == old(node).size,
            node.is_dir == old(node).is_dir,
            node.scanned == old(node).scanned,
        ensures
            renamed_below ==> (rename_from(ms, target@, new_path@, 0) matches Some(hit) && models(
                node.children@,
            ) == ms.update(hit.0, hit.1)),
            !renamed_below ==> rename_from(ms, target@, new_path@, 0) is None && models(
                node.children@,
            ) == ms,
        decreases n - i,
    {
        proof {
            assert(ms[i as int] == node.children@[i as int].model());
        }
        let ghost before = node.children@;
        proof {
            assert(decreases_to!(m => m.children));
            assert(decreases_to!(m.children => m.children[i as int]));
        }
        let hit = rename_entry(&mut node.children[i], target, new_path);
        proof {
            assert(node.children@ == before.update(i as int, node.children@[i as int]));
        }
        if hit {
            proof {
                assert(models(node.children@) =~= ms.update(
                    i as int,
                    rename_model(ms[i as int], target@, new_path@).1,
                ));
            }
            renamed_below = true;
            break ;
        } else {
            proof {
                assert(models(node.children@) =~= ms);
            }
        }
        i = i + 1;
    }
    proof {
        assert(node.model().children =~= models(node.children@));
    }
    renamed_below
}


/// What a directory listing found for one child: its path, whether it is a
/// directory (symlinks are not followed), and its size when it is not.
pub struct DirItem {
    pub path: FsPath,
    pub is_dir: bool,
    pub size: u64,
}

/// A fully resolved file.
pub open spec fn file_model(p: PathModel, size: nat) -> EntryModel {
    EntryModel {
        name: name_for(p),
        path: p,
        size,
        is_dir: false,
        scanned: true,
        children: Seq::empty(),
    }
}

/// A directory whose contents are still to be scanned: size 0, no
/// children.
pub open spec fn unscanned_dir_model(p: PathModel) -> EntryModel {
    EntryModel {
        name: name_for(p),
        path: p,
        size: 0,
        is_dir: true,
        scanned: false,
        children: Seq::empty(),
    }
}

/// A directory holding `ch`: its size is their total, and they are ordered
/// largest-first.
pub open spec fn dir_model(p: PathModel, ch: Seq<EntryModel>, scanned: bool) -> EntryModel {
    EntryModel {
        name: name_for(p),
        path: p,
        size: sum_sizes(ch),
        is_dir: true,
        scanned,
        children: sort_by_size(ch),
    }
}

/// The entry a top-level listing shows for `it`.
pub open spec fn listed_model(it: DirItem) -> EntryModel {
    if it.is_dir {
        unscanned_dir_model(it.path@)
    } else {
        file_model(it.path@, it.size as nat)
    }
}

/// The entries a top-level listing shows for `items`, in order, leaving
/// out saved-index folders.
pub open spec fn listed_models(items: Seq<DirItem>) -> Seq<EntryModel>
    decreases items.len(),
{
    if items.len() == 0 {
        Seq::empty()
    } else {
        let r = listed_models(items.drop_last());
        if is_index_dir_path(items.last().path@) {
            r
        } else {
            r.push(listed_model(items.last()))
        }
    }
}

/// Law: a listing leaves out exactly the entries named `.costree`: an item
/// with any other file name (a dot-name included) adds its entry after
/// those of the items before it, and one named `.costree` adds nothing.
pub proof fn lemma_listing_skips_only_the_save_folder(items: Seq<DirItem>, it: DirItem)
    ensures
        file_name(it.path@) != Some(".costree"@) ==> listed_models(items.push(it))
            == listed_models(items).push(listed_model(it)),
        file_name(it.path@) == Some(".costree"@) ==> listed_models(items.push(it)) == listed_models(
            items,
        ),
{
    assert(items.push(it).drop_last() =~= items);
    assert(items.push(it).last() == it);
    assert(INDEX_DIR_NAME@ == ".costree"@);
}

/// Law: every item of a listing not named `.costree` has its entry among
/// the listed entries.
pub proof fn lemma_listing_keeps_the_rest(items: Seq<DirItem>, i: int)
    requires
        0 <= i < items.len(),
        file_name(items[i].path@) != Some(".costree"@),
    ensures
        listed_models(items).contains(listed_model(items[i])),
    decreases items.len(),
{
    let front = items.drop_last();
    assert(items =~= front.push(items.last()));
    lemma_listing_skips_only_the_save_folder(front, items.last());
    if i == items.len() - 1 {
        let r = listed_models(items);
        assert(r[r.len() - 1] == listed_model(items[i]));
    } else {
        assert(front[i] == items[i]);
        lemma_listing_keeps_the_rest(front, i);
        let j = choose|j: int| 0 <= j < listed_models(front).len() && listed_models(front)[j]
            == listed_model(items[i]);
        if file_name(items.last().path@) != Some(".costree"@) {
            assert(listed_models(items)[j] == listed_model(items[i]));
        }
    }
}

/// The entry for a file of `size` bytes at `path`.
pub fn file_entry(path: FsPath, size: u64) -> (e: Entry)
    ensures
        e.model() == file_model(path@, size as nat),
{
    let name = entry_name(&path);
    let e = Entry { name, path, size, is_dir: false, scanned: true, children: Vec::new() };
    proof {
        assert(e.model().children =~= Seq::<EntryModel>::empty());
    }
    e
}

/// The entry for a directory at `path` whose contents are not scanned yet.
pub fn unscanned_dir_entry(path: FsPath) -> (e: Entry)
    ensures
        e.model() == unscanned_dir_model(path@),
{
    let name = entry_name(&path);
    let e = Entry { name, path, size: 0, is_dir: true, scanned: false, children: Vec::new() };
    proof {
        assert(e.model().children =~= Seq::<EntryModel>::empty());
    }
    e
}

/// The entry for the directory at `path` holding `children`.
pub fn directory_entry(path: FsPath, children: Vec<Entry>, scanned: bool) -> (e: Entry)
    requires
        sum_sizes(models(children@)) <= u64::MAX,
    ensures
        e.model() == dir_model(path@, models(children@), scanned),
{
    let size = total_size(&children);
    let name = entry_name(&path);
    let sorted = sort_entries(children);
    let e = Entry { name, path, size, is_dir: true, scanned, children: sorted };
    proof {
        assert(e.model().children =~= models(e.children@));
    }
    e
}

/// Lists only the immediate children of `path`, from what a directory
/// listing found there: files are fully resolved, directories are
/// returned unscanned with size 0, saved-index folders are left out.
pub fn list_top_level_from(path: FsPath, items: Vec<DirItem>) -> (e: Entry)
    requires
        sum_sizes(listed_models(items@)) <= u64::MAX,
    ensures
        e.model() == dir_model(path@, listed_models(items@), false),
{
    let ghost all = items@;
    let mut children: Vec<Entry> = Vec::new();
    proof {
        assert(all.take(0) =~= Seq::<DirItem>::empty());
        assert(models(children@) =~= Seq::<EntryModel>::empty());
    }
    for it in iter: items.into_iter()
        invariant
            all == iter.seq(),
            models(children@) == listed_models(all.take(iter.index() as int)),
    {
        let ghost k = iter.index();
        let ghost before = children@;
        proof {
            assert(all.take(k + 1).drop_last() =~= all.take(k as int));
            assert(all.take(k + 1).last() == all[k as int]);
        }
        if !is_index_dir(&it.path) {
            let child = if it.is_dir {
                unscanned_dir_entry(it.path)
            } else {
                file_entry(it.path, it.size)
            };
            children.push(child);
            proof {
                assert(models(children@) =~= models(before).push(listed_model(all[k as int])));
            }
        }
    }
    proof {
        assert(all.take(all.len() as int) =~= all);
    }
    directory_entry(path, children, false)
}

impl Clone for Entry {
    fn clone(&self) -> (r: Self)
        ensures
            r.model() == self.model(),
        decreases self.model(),
    {
        let ghost m = self.model();
        proof {
            lemma_children_models(self);
        }
        let mut children: Vec<Entry> = Vec::new();
        let n = self.children.len();
        let mut i: usize = 0;
        while i < n
            invariant
                i <= n,
                n == self.children.len(),
                m == self.model(),
                m.children == models(self.children@),
                models(children@) == models(self.children@).take(i as int),
            decreases n - i,
        {
            proof {
                assert(m.children[i as int] == self.children@[i as int].model());
                assert(decreases_to!(m => m.children));
                assert(decreases_to!(m.children => m.children[i as int]));
            }
            let c = self.children[i].clone();
            let ghost before = children@;
            children.push(c);
            proof {
                assert(models(children@) =~= models(before).push(c.model()));
                assert(models(self.children@).take(i + 1) =~= models(self.children@).take(
                    i as int,
                ).push(c.model()));
            }
            i = i + 1;
        }
        let r = Entry {
            name: self.name.clone(),
            path: self.path.clone(),
            size: self.size,
            is_dir: self.is_dir,
            scanned: self.scanned,
            children,
        };
        proof {
            assert(models(self.children@).take(n as int) =~= models(self.children@));
            assert(r.model().children =~= models(r.children@));
        }
        r
    }
}


/// Every directory's size is the total of its children's, files have no
/// children, and every size fits in a `u64`.
pub open spec fn consistent(m: EntryModel) -> bool
    decreases m,
{
    &&& (m.is_dir ==> m.size == sum_sizes(m.children))
    &&& (!m.is_dir ==> m.children.len() == 0)
    &&& m.size <= u64::MAX
    &&& forall|i: int| 0 <= i < m.children.len() ==> consistent(#[trigger] m.children[i])
}

proof fn lemma_sum_le_update(s: Seq<EntryModel>, k: int, x: EntryModel)
    requires
        0 <= k < s.len(),
        x.size <= s[k].size,
    ensures
        sum_sizes(s.update(k, x)) <= sum_sizes(s),
{
    lemma_sum_update(s, k, x);
}

/// Every entry of `sort_by_size(s)` is an entry of `s`.
pub proof fn lemma_sort_members(s: Seq<EntryModel>, i: int)
    requires
        0 <= i < sort_by_size(s).len(),
    ensures
        s.contains(sort_by_size(s)[i]),
{
    broadcast use vstd::seq_lib::group_to_multiset_ensures;

    lemma_sort_by_size(s);
    let x = sort_by_size(s)[i];
    assert(sort_by_size(s).contains(x));
    assert(sort_by_size(s).to_multiset().count(x) > 0);
    assert(s.to_multiset().count(x) > 0);
}

pub proof fn lemma_settle_consistent(m: EntryModel, ch: Seq<EntryModel>)
    requires
        m.is_dir,
        sum_sizes(ch) <= u64::MAX,
        forall|i: int| 0 <= i < ch.len() ==> consistent(#[trigger] ch[i]),
    ensures
        consistent(settle(m, ch)),
{
    lemma_sum_sort(ch);
    let st = settle(m, ch);
    assert forall|i: int| 0 <= i < st.children.len() implies consistent(
        #[trigger] st.children[i],
    ) by {
        lemma_sort_members(ch, i);
        let j = choose|j: int| 0 <= j < ch.len() && ch[j] == st.children[i];
        assert(consistent(ch[j]));
    }
}

/// Law: removing an entry from a size-consistent tree never overflows, keeps
/// the tree size-consistent, and does not make it larger.
pub proof fn lemma_removal_keeps_consistent(m: EntryModel, t: PathModel)
    requires
        consistent(m),
    ensures
        removal_fits(m, t),
        consistent(remove_model(m, t).1),
        remove_model(m, t).1.size <= m.size,
    decreases m, 0int,
{
    let ch = m.children;
    match direct_from(ch, t, 0) {
        Some(i) => {
            lemma_direct_in_range(ch, t, 0);
            lemma_sum_remove(ch, i);
            if !m.is_dir {
                assert(false);
            }
            assert forall|j: int| 0 <= j < ch.remove(i).len() implies consistent(
                #[trigger] ch.remove(i)[j],
            ) by {
                if j < i {
                    assert(ch.remove(i)[j] == ch[j]);
                } else {
                    assert(ch.remove(i)[j] == ch[j + 1]);
                }
            }
            lemma_settle_consistent(m, ch.remove(i));
        },
        None => {
            lemma_nested_keeps_consistent(ch, t, 0);
            match nested_remove_from(ch, t, 0) {
                Some(hit) => {
                    if !m.is_dir {
                        assert(false);
                    }
                    lemma_sum_le_update(ch, hit.0, hit.1);
                    assert forall|j: int| 0 <= j < ch.update(hit.0, hit.1).len() implies consistent(
                        #[trigger] ch.update(hit.0, hit.1)[j],
                    ) by {
                        if j != hit.0 {
                            assert(ch.update(hit.0, hit.1)[j] == ch[j]);
                        }
                    }
                    lemma_settle_consistent(m, ch.update(hit.0, hit.1));
                },
                None => {},
            }
        },
    }
}

/// Law: when an entry is removed, the tree's own children end up ordered
/// largest-first and its size becomes their total.
pub proof fn lemma_removal_resorts(m: EntryModel, t: PathModel)
    ensures
        remove_model(m, t).0 ==> sorted_by_size(remove_model(m, t).1.children)
            && remove_model(m, t).1.size == sum_sizes(remove_model(m, t).1.children),
{
    let ch = match direct_from(m.children, t, 0) {
        Some(i) => m.children.remove(i),
        None => match nested_remove_from(m.children, t, 0) {
            Some(hit) => m.children.update(hit.0, hit.1),
            None => m.children,
        },
    };
    lemma_sort_by_size(ch);
    lemma_sum_sort(ch);
}

/// The entry that removing `t` below `m` takes out: the first direct child
/// at `t`, or else the entry the first directory child holding `t` gives up.
pub open spec fn removed_entry(m: EntryModel, t: PathModel) -> EntryModel
    decreases m, 0int,
{
    match direct_from(m.children, t, 0) {
        Some(i) => if 0 <= i < m.children.len() {
            m.children[i]
        } else {
            empty_model()
        },
        None => match nested_remove_from(m.children, t, 0) {
            Some(hit) => if 0 <= hit.0 < m.children.len() {
                removed_entry(m.children[hit.0], t)
            } else {
                empty_model()
            },
            None => empty_model(),
        },
    }
}

proof fn lemma_nested_shape(s: Seq<EntryModel>, t: PathModel, k: int)
    requires
        0 <= k,
    ensures
        nested_remove_from(s, t, k) matches Some(hit) ==> {
            &&& k <= hit.0 < s.len()
            &&& s[hit.0].is_dir
            &&& remove_model(s[hit.0], t).0
            &&& hit.1 == remove_model(s[hit.0], t).1
        },
    decreases s.len() - k,
{
    if k < s.len() && !(s[k].is_dir && remove_model(s[k], t).0) {
        lemma_nested_shape(s, t, k + 1);
    }
}

/// Law: removing an entry from a size-consistent tree takes exactly the
/// removed entry's size off the tree's size (and so off every ancestor of
/// the removed entry).
pub proof fn lemma_removal_takes_its_size(m: EntryModel, t: PathModel)
    requires
        consistent(m),
        remove_model(m, t).0,
    ensures
        remove_model(m, t).1.size + removed_entry(m, t).size == m.size,
    decreases m, 0int,
{
    let ch = m.children;
    match direct_from(ch, t, 0) {
        Some(i) => {
            lemma_direct_in_range(ch, t, 0);
            lemma_sum_remove(ch, i);
            lemma_sum_sort(ch.remove(i));
            if !m.is_dir {
                assert(false);
            }
        },
        None => {
            lemma_nested_shape(ch, t, 0);
            let hit = nested_remove_from(ch, t, 0)->Some_0;
            let k = hit.0;
            assert(consistent(ch[k]));
            assert(decreases_to!(m => m.children));
            assert(decreases_to!(m.children => m.children[k]));
            lemma_removal_takes_its_size(ch[k], t);
            lemma_sum_update(ch, k, hit.1);
            lemma_sum_sort(ch.update(k, hit.1));
            if !m.is_dir {
                assert(false);
            }
        },
    }
}

/// Every directory in the tree lists its children largest-first.
pub open spec fn sorted_tree(m: EntryModel) -> bool
    decreases m,
{
    &&& sorted_by_size(m.children)
    &&& forall|i: int| 0 <= i < m.children.len() ==> sorted_tree(#[trigger] m.children[i])
}

proof fn lemma_settle_sorted(m: EntryModel, ch: Seq<EntryModel>)
    requires
        forall|i: int| 0 <= i < ch.len() ==> sorted_tree(#[trigger] ch[i]),
    ensures
        sorted_tree(settle(m, ch)),
{
    lemma_sort_by_size(ch);
    let st = settle(m, ch);
    assert forall|i: int| 0 <= i < st.children.len() implies sorted_tree(#[trigger] st.children[i]) by {
        lemma_sort_members(ch, i);
        let j = choose|j: int| 0 <= j < ch.len() && ch[j] == st.children[i];
        assert(sorted_tree(ch[j]));
    }
}

/// Law: removing an entry keeps every directory's children ordered
/// largest-first.
pub proof fn lemma_removal_keeps_sorted(m: EntryModel, t: PathModel)
    requires
        sorted_tree(m),
    ensures
        sorted_tree(remove_model(m, t).1),
    decreases m, 0int,
{
    let ch = m.children;
    match direct_from(ch, t, 0) {
        Some(i) => {
            lemma_direct_in_range(ch, t, 0);
            assert forall|j: int| 0 <= j < ch.remove(i).len() implies sorted_tree(
                #[trigger] ch.remove(i)[j],
            ) by {
                if j < i {
                    assert(ch.remove(i)[j] == ch[j]);
                } else {
                    assert(ch.remove(i)[j] == ch[j + 1]);
                }
            }
            lemma_settle_sorted(m, ch.remove(i));
        },
        None => {
            lemma_nested_shape(ch, t, 0);
            match nested_remove_from(ch, t, 0) {
                Some(hit) => {
                    let k = hit.0;
                    assert(sorted_tree(ch[k]));
                    assert(decreases_to!(m => m.children));
                    assert(decreases_to!(m.children => m.children[k]));
                    lemma_removal_keeps_sorted(ch[k], t);
                    assert forall|j: int| 0 <= j < ch.update(k, hit.1).len() implies sorted_tree(
                        #[trigger] ch.update(k, hit.1)[j],
                    ) by {
                        if j != k {
                            assert(ch.update(k, hit.1)[j] == ch[j]);
                        }
                    }
                    lemma_settle_sorted(m, ch.update(k, hit.1));
                },
                None => {},
            }
        },
    }
}

/// Law: on a size-consistent tree whose directories list their children
/// largest-first, `remove_path` keeps both properties; when it removes an
/// entry the tree's size drops by exactly that entry's size, and when it
/// removes nothing the tree is unchanged.
pub proof fn lemma_remove_path_keeps_tree(m: EntryModel, t: PathModel)
    requires
        consistent(m),
        sorted_tree(m),
    ensures
        consistent(remove_model(m, t).1),
        sorted_tree(remove_model(m, t).1),
        remove_model(m, t).0 ==> remove_model(m, t).1.size + removed_entry(m, t).size == m.size,
        !remove_model(m, t).0 ==> remove_model(m, t).1 == m,
{
    lemma_removal_keeps_consistent(m, t);
    lemma_removal_keeps_sorted(m, t);
    if remove_model(m, t).0 {
        lemma_removal_takes_its_size(m, t);
    } else {
        lemma_nothing_removed_fits(m, t);
    }
}

/// The paths of the entries in the tree of `m`, `m`'s own included, each
/// as often as it occurs.
pub open spec fn tree_paths(m: EntryModel) -> Multiset<PathModel>
    decreases m, 0int,
{
    Multiset::singleton(m.path).add(paths_from(m.children, 0))
}

/// The paths of the entries in the trees of `s[k..]`.
pub open spec fn paths_from(s: Seq<EntryModel>, k: int) -> Multiset<PathModel>
    decreases s, s.len() - k,
{
    if k < 0 || k >= s.len() {
        Multiset::empty()
    } else {
        tree_paths(s[k]).add(paths_from(s, k + 1))
    }
}

proof fn lemma_paths_shift(s: Seq<EntryModel>, i: int, j: int)
    requires
        0 <= i <= j,
        i < s.len(),
    ensures
        paths_from(s.remove(i), j) == paths_from(s, j + 1),
    decreases s.len() - j,
{
    if j < s.len() - 1 {
        lemma_paths_shift(s, i, j + 1);
        assert(s.remove(i)[j] == s[j + 1]);
    }
}

proof fn lemma_paths_split_from(s: Seq<EntryModel>, i: int, k: int)
    requires
        0 <= k <= i < s.len(),
    ensures
        paths_from(s, k) == tree_paths(s[i]).add(paths_from(s.remove(i), k)),
    decreases i - k,
{
    if k == i {
        lemma_paths_shift(s, i, i);
    } else {
        lemma_paths_split_from(s, i, k + 1);
        assert(s.remove(i)[k] == s[k]);
        assert(paths_from(s, k) =~= tree_paths(s[i]).add(paths_from(s.remove(i), k)));
    }
}

/// The paths of a list of trees are those of any one of them together
/// with those of the rest.
proof fn lemma_paths_split(s: Seq<EntryModel>, i: int)
    requires
        0 <= i < s.len(),
    ensures
        paths_from(s, 0) == tree_paths(s[i]).add(paths_from(s.remove(i), 0)),
{
    lemma_paths_split_from(s, i, 0);
}

/// The paths of a list of trees do not depend on the order of the trees.
proof fn lemma_paths_permutation(s1: Seq<EntryModel>, s2: Seq<EntryModel>)
    requires
        s1.to_multiset() == s2.to_multiset(),
    ensures
        paths_from(s1, 0) == paths_from(s2, 0),
    decreases s1.len(),
{
    broadcast use vstd::seq_lib::group_to_multiset_ensures;

    if s1.len() == 0 {
        assert(s2.to_multiset().len() == 0);
        assert(s2.len() == 0);
    } else {
        let x = s1[0];
        assert(s1.to_multiset().count(x) > 0);
        assert(s2.to_multiset().count(x) > 0);
        assert(s2.contains(x));
        let j = choose|j: int| 0 <= j < s2.len() && s2[j] == x;
        lemma_paths_split(s1, 0);
        lemma_paths_split(s2, j);
        assert(s1.remove(0).to_multiset() == s2.remove(j).to_multiset());
        lemma_paths_permutation(s1.remove(0), s2.remove(j));
    }
}

/// Law: removing an entry takes exactly its subtree's paths out of the
/// tree: the paths left, together with those of the removed entry's
/// subtree, are the paths of the tree before, each as often as before.
pub proof fn lemma_removal_takes_its_paths(m: EntryModel, t: PathModel)
    requires
        remove_model(m, t).0,
    ensures
        tree_paths(remove_model(m, t).1).add(tree_paths(removed_entry(m, t))) == tree_paths(m),
    decreases m, 0int,
{
    let ch = m.children;
    match direct_from(ch, t, 0) {
        Some(i) => {
            lemma_direct_in_range(ch, t, 0);
            lemma_sort_by_size(ch.remove(i));
            lemma_paths_permutation(sort_by_size(ch.remove(i)), ch.remove(i));
            lemma_paths_split(ch, i);
            assert(tree_paths(remove_model(m, t).1).add(tree_paths(removed_entry(m, t)))
                =~= tree_paths(m));
        },
        None => {
            lemma_nested_shape(ch, t, 0);
            let hit = nested_remove_from(ch, t, 0)->Some_0;
            let k = hit.0;
            assert(decreases_to!(m => m.children));
            assert(decreases_to!(m.children => m.children[k]));
            lemma_removal_takes_its_paths(ch[k], t);
            let ch2 = ch.update(k, hit.1);
            lemma_sort_by_size(ch2);
            lemma_paths_permutation(sort_by_size(ch2), ch2);
            lemma_paths_split(ch, k);
            lemma_paths_split(ch2, k);
            assert(ch2.remove(k) =~= ch.remove(k));
            assert(tree_paths(remove_model(m, t).1).add(tree_paths(removed_entry(m, t)))
                =~= tree_paths(m));
        },
    }
}

/// Every entry in the tree of `m`, `m` included, each taken whole with
/// its subtree, as often as it occurs.
pub open spec fn subtrees(m: EntryModel) -> Multiset<EntryModel>
    decreases m, 0int,
{
    Multiset::singleton(m).add(subtrees_from(m.children, 0))
}

/// Every entry in the trees of `s[k..]`.
pub open spec fn subtrees_from(s: Seq<EntryModel>, k: int) -> Multiset<EntryModel>
    decreases s, s.len() - k,
{
    if k < 0 || k >= s.len() {
        Multiset::empty()
    } else {
        subtrees(s[k]).add(subtrees_from(s, k + 1))
    }
}

/// The entries on the way from `m` down to the parent of the entry that
/// removing `t` takes out, as they are before the removal.
pub open spec fn removal_chain(m: EntryModel, t: PathModel) -> Multiset<EntryModel>
    decreases m, 0int,
{
    match direct_from(m.children, t, 0) {
        Some(i) => Multiset::singleton(m),
        None => match nested_remove_from(m.children, t, 0) {
            Some(hit) => if 0 <= hit.0 < m.children.len() {
                Multiset::singleton(m).add(removal_chain(m.children[hit.0], t))
            } else {
                Multiset::singleton(m)
            },
            None => Multiset::empty(),
        },
    }
}

/// The same entries as `removal_chain`, as the removal leaves them.
pub open spec fn settled_chain(m: EntryModel, t: PathModel) -> Multiset<EntryModel>
    decreases m, 0int,
{
    match direct_from(m.children, t, 0) {
        Some(i) => Multiset::singleton(remove_model(m, t).1),
        None => match nested_remove_from(m.children, t, 0) {
            Some(hit) => if 0 <= hit.0 < m.children.len() {
                Multiset::singleton(remove_model(m, t).1).add(
                    settled_chain(m.children[hit.0], t),
                )
            } else {
                Multiset::singleton(remove_model(m, t).1)
            },
            None => Multiset::empty(),
        },
    }
}

proof fn lemma_subtrees_shift(s: Seq<EntryModel>, i: int, j: int)
    requires
        0 <= i <= j,
        i < s.len(),
    ensures
        subtrees_from(s.remove(i), j) == subtrees_from(s, j + 1),
    decreases s.len() - j,
{
    if j < s.len() - 1 {
        lemma_subtrees_shift(s, i, j + 1);
        assert(s.remove(i)[j] == s[j + 1]);
    }
}

proof fn lemma_subtrees_split_from(s: Seq<EntryModel>, i: int, k: int)
    requires
        0 <= k <= i < s.len(),
    ensures
        subtrees_from(s, k) == subtrees(s[i]).add(subtrees_from(s.remove(i), k)),
    decreases i - k,
{
    if k == i {
        lemma_subtrees_shift(s, i, i);
    } else {
        lemma_subtrees_split_from(s, i, k + 1);
        assert(s.remove(i)[k] == s[k]);
        assert(subtrees_from(s, k) =~= subtrees(s[i]).add(subtrees_from(s.remove(i), k)));
    }
}

proof fn lemma_subtrees_permutation(s1: Seq<EntryModel>, s2: Seq<EntryModel>)
    requires
        s1.to_multiset() == s2.to_multiset(),
    ensures
        subtrees_from(s1, 0) == subtrees_from(s2, 0),
    decreases s1.len(),
{
    broadcast use vstd::seq_lib::group_to_multiset_ensures;

    if s1.len() == 0 {
        assert(s2.to_multiset().len() == 0);
        assert(s2.len() == 0);
    } else {
        let x = s1[0];
        assert(s1.to_multiset().count(x) > 0);
        assert(s2.to_multiset().count(x) > 0);
        assert(s2.contains(x));
        let j = choose|j: int| 0 <= j < s2.len() && s2[j] == x;
        lemma_subtrees_split_from(s1, 0, 0);
        lemma_subtrees_split_from(s2, j, 0);
        assert(s1.remove(0).to_multiset() == s2.remove(j).to_multiset());
        lemma_subtrees_permutation(s1.remove(0), s2.remove(j));
    }
}

/// Law: removing an entry changes nothing but what it must. Every entry of
/// the tree before, taken whole, is still in the tree after, except the
/// removed entry's subtree and the entries on the way down to it, which
/// give way to those same entries resized and resorted.
pub proof fn lemma_removal_keeps_the_rest(m: EntryModel, t: PathModel)
    requires
        remove_model(m, t).0,
    ensures
        subtrees(remove_model(m, t).1).add(subtrees(removed_entry(m, t))).add(
            removal_chain(m, t),
        ) == subtrees(m).add(settled_chain(m, t)),
    decreases m, 0int,
{
    let ch = m.children;
    match direct_from(ch, t, 0) {
        Some(i) => {
            lemma_direct_in_range(ch, t, 0);
            lemma_sort_by_size(ch.remove(i));
            lemma_subtrees_permutation(sort_by_size(ch.remove(i)), ch.remove(i));
            lemma_subtrees_split_from(ch, i, 0);
            assert(subtrees(remove_model(m, t).1).add(subtrees(removed_entry(m, t))).add(
                removal_chain(m, t),
            ) =~= subtrees(m).add(settled_chain(m, t)));
        },
        None => {
            lemma_nested_shape(ch, t, 0);
            let hit = nested_remove_from(ch, t, 0)->Some_0;
            let k = hit.0;
            assert(decreases_to!(m => m.children));
            assert(decreases_to!(m.children => m.children[k]));
            lemma_removal_keeps_the_rest(ch[k], t);
            let ch2 = ch.update(k, hit.1);
            lemma_sort_by_size(ch2);
            lemma_subtrees_permutation(sort_by_size(ch2), ch2);
            lemma_subtrees_split_from(ch, k, 0);
            lemma_subtrees_split_from(ch2, k, 0);
            assert(ch2.remove(k) =~= ch.remove(k));
            assert(ch2[k] == hit.1);
            let nw = remove_model(m, t).1;
            let d = removed_entry(ch[k], t);
            assert(nw == settle(m, ch2));
            assert(removed_entry(m, t) == d);
            assert(removal_chain(m, t) == Multiset::singleton(m).add(removal_chain(ch[k], t)));
            assert(settled_chain(m, t) == Multiset::singleton(nw).add(settled_chain(ch[k], t)));
            assert(subtrees(nw) == Multiset::singleton(nw).add(subtrees_from(ch2, 0)));
            assert(subtrees(m) == Multiset::singleton(m).add(subtrees_from(ch, 0)));
            let rest = subtrees_from(ch.remove(k), 0);
            let a = subtrees(hit.1);
            let b = subtrees(d);
            let rc = removal_chain(ch[k], t);
            let sc = settled_chain(ch[k], t);
            let c = subtrees(ch[k]);
            assert(a.add(b).add(rc) == c.add(sc));
            assert(subtrees_from(ch2, 0) == a.add(rest));
            assert(subtrees_from(ch, 0) == c.add(rest));
            assert forall|x: EntryModel|
                #[trigger] subtrees(nw).add(b).add(removal_chain(m, t)).count(x) == subtrees(
                    m,
                ).add(settled_chain(m, t)).count(x) by {
                assert(a.add(b).add(rc).count(x) == c.add(sc).count(x));
            }
            assert(subtrees(nw).add(subtrees(d)).add(removal_chain(m, t)) =~= subtrees(m).add(
                settled_chain(m, t),
            ));
        },
    }
}

pub proof fn lemma_direct_in_range(s: Seq<EntryModel>, t: PathModel, k: int)
    ensures
        direct_from(s, t, k) matches Some(i) ==> 0 <= i < s.len() && k <= i,
    decreases s.len() - k,
{
    if 0 <= k < s.len() && s[k].path != t {
        lemma_direct_in_range(s, t, k + 1);
    }
}

proof fn lemma_nested_keeps_consistent(s: Seq<EntryModel>, t: PathModel, k: int)
    requires
        0 <= k,
        forall|i: int| 0 <= i < s.len() ==> consistent(#[trigger] s[i]),
    ensures
        fits_from(s, t, k),
        nested_remove_from(s, t, k) matches Some(hit) ==> {
            &&& k <= hit.0 < s.len()
            &&& consistent(hit.1)
            &&& hit.1.size <= s[hit.0].size
        },
    decreases s, s.len() - k,
{
    if k < s.len() {
        assert(consistent(s[k]));
        if s[k].is_dir && remove_model(s[k], t).0 {
            lemma_removal_keeps_consistent(s[k], t);
        } else {
            lemma_nested_keeps_consistent(s, t, k + 1);
        }
    }
}

/// Law: a directory assembled from size-consistent children is
/// size-consistent.
pub proof fn lemma_dir_model_consistent(p: PathModel, ch: Seq<EntryModel>, scanned: bool)
    requires
        sum_sizes(ch) <= u64::MAX,
        forall|i: int| 0 <= i < ch.len() ==> consistent(#[trigger] ch[i]),
    ensures
        consistent(dir_model(p, ch, scanned)),
{
    let m = dir_model(p, ch, scanned);
    lemma_settle_consistent(m, ch);
    assert(settle(m, ch) == m);
}

proof fn lemma_listed_consistent(items: Seq<DirItem>)
    ensures
        forall|i: int|
            0 <= i < listed_models(items).len() ==> consistent(#[trigger] listed_models(items)[i]),
    decreases items.len(),
{
    if items.len() > 0 {
        lemma_listed_consistent(items.drop_last());
        let r = listed_models(items.drop_last());
        let x = listed_model(items.last());
        assert(consistent(x)) by {
            assert(x.children.len() == 0);
        }
        assert forall|i: int| 0 <= i < listed_models(items).len() implies consistent(
            #[trigger] listed_models(items)[i],
        ) by {
            if i < r.len() {
                assert(listed_models(items)[i] == r[i]);
            }
        }
    }
}

/// Law: a top-level listing is size-consistent.
pub proof fn lemma_listing_consistent(p: PathModel, items: Seq<DirItem>)
    requires
        sum_sizes(listed_models(items)) <= u64::MAX,
    ensures
        consistent(dir_model(p, listed_models(items), false)),
{
    lemma_listed_consistent(items);
    lemma_dir_model_consistent(p, listed_models(items), false);
}


proof fn lemma_sum_same_sizes(a: Seq<EntryModel>, b: Seq<EntryModel>)
    requires
        a.len() == b.len(),
        forall|i: int| 0 <= i < a.len() ==> #[trigger] a[i].size == b[i].size,
    ensures
        sum_sizes(a) == sum_sizes(b),
    decreases a.len(),
{
    if a.len() > 0 {
        lemma_sum_same_sizes(a.drop_last(), b.drop_last());
    }
}

proof fn lemma_rewrite_keeps_consistent(m: EntryModel, from: PathModel, to: PathModel)
    requires
        consistent(m),
    ensures
        consistent(rewrite_model(m, from, to)),
        rewrite_model(m, from, to).size == m.size,
        rewrite_model(m, from, to).is_dir == m.is_dir,
    decreases m,
{
    let r = rewrite_model(m, from, to);
    assert forall|i: int| 0 <= i < r.children.len() implies consistent(#[trigger] r.children[i])
        && r.children[i].size == m.children[i].size by {
        assert(consistent(m.children[i]));
        lemma_rewrite_keeps_consistent(m.children[i], from, to);
    }
    lemma_sum_same_sizes(r.children, m.children);
}

/// Law: renaming keeps a size-consistent tree size-consistent and leaves
/// every size as it was.
pub proof fn lemma_rename_keeps_consistent(m: EntryModel, t: PathModel, n: PathModel)
    requires
        consistent(m),
    ensures
        consistent(rename_model(m, t, n).1),
        rename_model(m, t, n).1.size == m.size,
        rename_model(m, t, n).1.is_dir == m.is_dir,
    decreases m, 0int,
{
    if m.path == t {
        lemma_rewrite_keeps_consistent(m, t, n);
    } else {
        lemma_rename_from_consistent(m.children, t, n, 0);
        match rename_from(m.children, t, n, 0) {
            Some(hit) => {
                let ch = m.children.update(hit.0, hit.1);
                assert forall|i: int| 0 <= i < ch.len() implies consistent(#[trigger] ch[i])
                    && ch[i].size == m.children[i].size by {
                    assert(consistent(m.children[i]));
                }
                lemma_sum_same_sizes(ch, m.children);
            },
            None => {},
        }
    }
}

proof fn lemma_rename_from_consistent(s: Seq<EntryModel>, t: PathModel, n: PathModel, k: int)
    requires
        0 <= k,
        forall|i: int| 0 <= i < s.len() ==> consistent(#[trigger] s[i]),
    ensures
        rename_from(s, t, n, k) matches Some(hit) ==> {
            &&& k <= hit.0 < s.len()
            &&& consistent(hit.1)
            &&& hit.1.size == s[hit.0].size
        },
    decreases s, s.len() - k,
{
    if k < s.len() {
        assert(consistent(s[k]));
        if rename_model(s[k], t, n).0 {
            lemma_rename_keeps_consistent(s[k], t, n);
        } else {
            lemma_rename_from_consistent(s, t, n, k + 1);
        }
    }
}


/// Law: removing or renaming a path that the tree does not hold changes
/// nothing and reports `false`.
pub proof fn lemma_absent_path_untouched(m: EntryModel, t: PathModel, n: PathModel)
    requires
        find_model(m, t) is None,
    ensures
        remove_model(m, t) == (false, m),
        rename_model(m, t, n) == (false, m),
    decreases m, 0int,
{
    assert(decreases_to!(m => m.children));
    lemma_absent_from(m.children, t, n, 0);
}

/// Law: renaming reports `true` exactly when the tree holds an entry at
/// `t`, file or directory, the tree's own root included.
pub proof fn lemma_rename_iff_found(m: EntryModel, t: PathModel, n: PathModel)
    ensures
        rename_model(m, t, n).0 <==> find_model(m, t) is Some,
    decreases m, 0int,
{
    if m.path != t {
        assert(decreases_to!(m => m.children));
        lemma_rename_from_iff_found(m.children, t, n, 0);
    }
}

proof fn lemma_rename_from_iff_found(s: Seq<EntryModel>, t: PathModel, n: PathModel, k: int)
    requires
        0 <= k,
    ensures
        (rename_from(s, t, n, k) is Some) <==> (find_from(s, t, k) is Some),
    decreases s, s.len() - k,
{
    if k < s.len() {
        assert(decreases_to!(s => s[k]));
        lemma_rename_iff_found(s[k], t, n);
        lemma_rename_from_iff_found(s, t, n, k + 1);
    }
}

/// Every entry of the tree has a path whose components are normalized as
/// those of every `Path` are (`lemma_parsed_paths_normalized`), a name that
/// is the file name of its path, and lies under its parent's path.
pub open spec fn well_placed(m: EntryModel) -> bool
    decreases m,
{
    &&& crate::path::normalized(m.path)
    &&& m.name == name_for(m.path)
    &&& forall|i: int|
        0 <= i < m.children.len() ==> crate::path::is_ancestor(m.path, (#[trigger] m.children[i]).path)
            && well_placed(m.children[i])
}

/// Moving a subtree that lies under `a` to under `b` and back gives it
/// back.
proof fn lemma_rewrite_round_trip(x: EntryModel, a: PathModel, b: PathModel)
    requires
        well_placed(x),
        crate::path::is_ancestor(a, x.path),
        !crate::path::is_empty_path(a),
    ensures
        crate::path::is_ancestor(b, rewrite_model(x, a, b).path),
        rewrite_model(rewrite_model(x, a, b), b, a) == x,
    decreases x,
{
    crate::path::lemma_rebase_round_trip(x.path, a, b);
    let y = rewrite_model(x, a, b);
    let z = rewrite_model(y, b, a);
    assert forall|i: int| 0 <= i < x.children.len() implies z.children[i] == x.children[i] by {
        let c = x.children[i];
        assert(crate::path::is_ancestor(x.path, c.path) && well_placed(c));
        crate::index::lemma_ancestor_transitive(a, x.path, c.path);
        assert(decreases_to!(x => x.children));
        assert(decreases_to!(x.children => x.children[i]));
        lemma_rewrite_round_trip(c, a, b);
        assert(y.children[i] == rewrite_model(c, a, b));
    }
    assert(z.children =~= x.children);
}

/// Law: renaming the entry at `a` to `b` and then renaming `b` back to `a`
/// gives the tree back, when the tree held nothing at `b` before (its
/// entries lie under their parents, carry their paths' file names, and `a`
/// is not the empty path).
pub proof fn lemma_rename_round_trip(m: EntryModel, a: PathModel, b: PathModel)
    requires
        well_placed(m),
        !crate::path::is_empty_path(a),
        find_model(m, b) is None,
        rename_model(m, a, b).0,
    ensures
        rename_model(rename_model(m, a, b).1, b, a) == (true, m),
    decreases m, 0int,
{
    let m1 = rename_model(m, a, b).1;
    if m.path == a {
        assert(a.parts.take(a.parts.len() as int) =~= a.parts);
        crate::path::lemma_rebase_round_trip(m.path, a, b);
        lemma_rewrite_round_trip(m, a, b);
        assert(m1.path.parts =~= b.parts) by {
            assert(a.parts.skip(a.parts.len() as int) =~= Seq::<Seq<char>>::empty());
            assert(b.parts + Seq::<Seq<char>>::empty() =~= b.parts);
        }
        assert(m1.path == b);
    } else {
        lemma_rename_from_iff_found(m.children, a, b, 0);
        lemma_rename_from_shape(m.children, a, b, 0);
        let hit = rename_from(m.children, a, b, 0)->Some_0;
        let k = hit.0;
        let c = m.children[k];
        assert(m.path != b);
        lemma_find_from_none(m.children, b, 0);
        assert(find_model(c, b) is None);
        assert(decreases_to!(m => m.children));
        assert(decreases_to!(m.children => m.children[k]));
        lemma_rename_round_trip(c, a, b);
        let ch1 = m.children.update(k, hit.1);
        assert forall|j: int| 0 <= j < k implies !rename_model(#[trigger] ch1[j], b, a).0 by {
            assert(ch1[j] == m.children[j]);
            lemma_rename_iff_found(m.children[j], b, a);
        }
        lemma_rename_from_skips(ch1, b, a, 0, k);
        assert(rename_from(ch1, b, a, 0) == Some((k, c)));
        assert(ch1.update(k, c) =~= m.children);
    }
}

proof fn lemma_rename_from_shape(s: Seq<EntryModel>, t: PathModel, n: PathModel, k: int)
    requires
        0 <= k,
    ensures
        rename_from(s, t, n, k) matches Some(hit) ==> {
            &&& k <= hit.0 < s.len()
            &&& rename_model(s[hit.0], t, n).0
            &&& hit.1 == rename_model(s[hit.0], t, n).1
            &&& forall|j: int| k <= j < hit.0 ==> !rename_model(#[trigger] s[j], t, n).0
        },
    decreases s.len() - k,
{
    if k < s.len() && !rename_model(s[k], t, n).0 {
        lemma_rename_from_shape(s, t, n, k + 1);
    }
}

proof fn lemma_rename_from_skips(s: Seq<EntryModel>, t: PathModel, n: PathModel, k: int, h: int)
    requires
        0 <= k <= h < s.len(),
        forall|j: int| k <= j < h ==> !rename_model(#[trigger] s[j], t, n).0,
        rename_model(s[h], t, n).0,
    ensures
        rename_from(s, t, n, k) == Some((h, rename_model(s[h], t, n).1)),
    decreases h - k,
{
    if k < h {
        lemma_rename_from_skips(s, t, n, k + 1, h);
    }
}

proof fn lemma_find_from_none(s: Seq<EntryModel>, t: PathModel, k: int)
    requires
        0 <= k,
        find_from(s, t, k) is None,
    ensures
        forall|j: int| k <= j < s.len() ==> find_model(#[trigger] s[j], t) is None,
    decreases s.len() - k,
{
    if k < s.len() {
        lemma_find_from_none(s, t, k + 1);
    }
}

proof fn lemma_absent_from(s: Seq<EntryModel>, t: PathModel, n: PathModel, k: int)
    requires
        0 <= k,
        find_from(s, t, k) is None,
    ensures
        direct_from(s, t, k) is None,
        nested_remove_from(s, t, k) is None,
        rename_from(s, t, n, k) is None,
    decreases s, s.len() - k,
{
    if k < s.len() {
        assert(decreases_to!(s => s[k]));
        lemma_absent_path_untouched(s[k], t, n);
        lemma_absent_from(s, t, n, k + 1);
    }
}


/// `e` with its size set to `y`.
pub open spec fn sized(e: EntryModel, y: nat) -> EntryModel {
    EntryModel { size: y, ..e }
}

/// The total size of `v` with the size of its `i`-th entry read as `y`
/// (all of `v` when `i` is past its end), or `None` when that total does
/// not fit a `u64`.
pub fn checked_total(v: &Vec<Entry>, i: usize, y: u64) -> (r: Option<u64>)
    ensures
        ({
            let target = if i < v.len() {
                models(v@).update(i as int, sized(models(v@)[i as int], y as nat))
            } else {
                models(v@)
            };
            &&& r matches Some(t) ==> t == sum_sizes(target)
            &&& r is None ==> sum_sizes(target) > u64::MAX
        }),
{
    let ghost ms = models(v@);
    let ghost target = if i < v.len() {
        ms.update(i as int, sized(ms[i as int], y as nat))
    } else {
        ms
    };
    let n = v.len();
    let mut total: u64 = 0;
    let mut j: usize = 0;
    proof {
        assert(target.take(0) =~= Seq::<EntryModel>::empty());
    }
    while j < n
        invariant
            j <= n,
            n == v.len(),
            ms == models(v@),
            target.len() == n,
            target == (if i < v.len() {
                ms.update(i as int, sized(ms[i as int], y as nat))
            } else {
                ms
            }),
            total == sum_sizes(target.take(j as int)),
        decreases n - j,
    {
        proof {
            assert(target.take(j + 1).drop_last() =~= target.take(j as int));
            assert(target.take(j + 1).last() == target[j as int]);
            assert(ms[j as int] == v@[j as int].model());
        }
        let size = if j == i {
            y
        } else {
            v[j].size
        };
        match total.checked_add(size) {
            Some(t) => {
                total = t;
            },
            None => {
                proof {
                    lemma_sum_prefix_le(target, j + 1);
                }
                return None;
            },
        }
        j = j + 1;
    }
    proof {
        assert(target.take(n as int) =~= target);
    }
    Some(total)
}

/// Whether removing `target` below `node` removes an entry, whether every
/// size it recomputes fits a `u64` (`removal_fits`), and, when both hold,
/// the size the tree is left with.
pub fn removal_check(node: &Entry, target: &FsPath) -> (r: (bool, bool, u64))
    ensures
        r.0 == remove_model(node.model(), target@).0,
        r.1 == removal_fits(node.model(), target@),
        r.0 && r.1 ==> r.2 == remove_model(node.model(), target@).1.size,
    decreases node.model(),
{
    let ghost m = node.model();
    proof {
        lemma_children_models(node);
    }
    let ghost ms = models(node.children@);
    match position_of(&node.children, target) {
        Some(i) => {
            let t = checked_total(&node.children, i, 0);
            proof {
                lemma_sum_update(ms, i as int, sized(ms[i as int], 0));
                lemma_sum_remove(ms, i as int);
                lemma_sum_sort(ms.remove(i as int));
            }
            match t {
                Some(t) => (true, true, t),
                None => (true, false, 0),
            }
        },
        None => {
            let n = node.children.len();
            let mut k: usize = 0;
            while k < n
                invariant
                    k <= n,
                    n == ms.len(),
                    ms == models(node.children@),
                    m == node.model(),
                    m.children == ms,
                    direct_from(ms, target@, 0) is None,
                    nested_remove_from(ms, target@, 0) == nested_remove_from(ms, target@, k as int),
                    fits_from(ms, target@, 0) == fits_from(ms, target@, k as int),
                decreases n - k,
            {
                proof {
                    assert(ms[k as int] == node.children@[k as int].model());
                }
                if node.children[k].is_dir {
                    proof {
                        assert(decreases_to!(m => m.children));
                        assert(decreases_to!(m.children => m.children[k as int]));
                    }
                    let c = removal_check(&node.children[k], target);
                    if c.0 {
                        if !c.1 {
                            return (true, false, 0);
                        }
                        let t = checked_total(&node.children, k, c.2);
                        let ghost hit = remove_model(ms[k as int], target@).1;
                        proof {
                            lemma_sum_update(ms, k as int, sized(ms[k as int], c.2 as nat));
                            lemma_sum_update(ms, k as int, hit);
                            lemma_sum_sort(ms.update(k as int, hit));
                        }
                        return match t {
                            Some(t) => (true, true, t),
                            None => (true, false, 0),
                        };
                    }
                }
                k = k + 1;
            }
            proof {
                lemma_nothing_removed_fits(m, target@);
            }
            (false, true, node.size)
        },
    }
}

} // verus!
