use vstd::prelude::*;
use std::collections::HashMap;
use crate::path::{FsPath, PathModel, display_path};
use crate::text::chars_of;

verus! {

broadcast use vstd::std_specs::hash::group_hash_axioms;

/// The abstract values of a run of paths.
pub open spec fn path_models(s: Seq<FsPath>) -> Seq<PathModel> {
    s.map_values(|p: FsPath| p@)
}

/// The modulus of the text hash: the largest prime below 2^32.
pub open spec fn hash_modulus() -> nat {
    4294967291
}

/// A polynomial hash of a text, reduced modulo `hash_modulus()`.
pub open spec fn text_hash(s: Seq<char>) -> nat
    decreases s.len(),
{
    if s.len() == 0 {
        0
    } else {
        (text_hash(s.drop_last()) * 31 + (s.last() as u32) as nat) % hash_modulus()
    }
}

/// The bucket a path is filed under: the hash of its text.
pub open spec fn bucket_of(p: PathModel) -> u64 {
    text_hash(display_path(p)) as u64
}

/// The bucket `p` is filed under.
fn bucket_key(p: &FsPath) -> (k: u64)
    ensures
        k == bucket_of(p@),
{
    let text = p.display();
    let chars = chars_of(text.as_str());
    let mut h: u64 = 0;
    let mut i: usize = 0;
    proof {
        assert(chars@.take(0) =~= Seq::<char>::empty());
    }
    while i < chars.len()
        invariant
            i <= chars.len(),
            chars@ == display_path(p@),
            h == text_hash(chars@.take(i as int)),
            h < hash_modulus(),
        decreases chars.len() - i,
    {
        proof {
            assert(chars@.take(i + 1).drop_last() =~= chars@.take(i as int));
            assert(chars@.take(i + 1).last() == chars@[i as int]);
        }
        let c = chars[i] as u32;
        h = (h * 31 + c as u64) % 4294967291;
        i = i + 1;
    }
    proof {
        assert(chars@.take(chars.len() as int) =~= chars@);
    }
    h
}

/// The positions in a bucket: each held once, each in range, each of a path
/// filed under the bucket's key.
pub open spec fn bucket_ok(v: Seq<usize>, k: u64, paths: Seq<FsPath>) -> bool {
    &&& v.no_duplicates()
    &&& forall|j: int|
        0 <= j < v.len() ==> (#[trigger] v[j]) < paths.len() && bucket_of(paths[v[j] as int]@) == k
}

/// `slots` files the positions `0..i` of `paths` under their buckets, and
/// nothing else.
pub open spec fn slots_prefix_ok(slots: Map<u64, Vec<usize>>, paths: Seq<FsPath>, i: int) -> bool {
    &&& forall|k: u64| #[trigger] slots.contains_key(k) ==> bucket_ok(slots[k]@, k, paths) && forall|
        j: int,
    | 0 <= j < slots[k]@.len() ==> #[trigger] slots[k]@[j] < i
    &&& forall|j: int|
        0 <= j < i ==> slots.contains_key(bucket_of(#[trigger] paths[j]@)) && slots[bucket_of(
            paths[j]@,
        )]@.contains(j as usize)
}

/// `slots` files every position of `paths` under its bucket, and nothing
/// else.
pub open spec fn slots_ok(slots: Map<u64, Vec<usize>>, paths: Seq<FsPath>) -> bool {
    slots_prefix_ok(slots, paths, paths.len() as int)
}

/// Filing position `i` under its bucket `k` extends a filing of `0..i` to
/// one of `0..i + 1`.
proof fn lemma_file_next(
    before: Map<u64, Vec<usize>>,
    after: Map<u64, Vec<usize>>,
    paths: Seq<FsPath>,
    i: int,
    k: u64,
    old_v: Seq<usize>,
    v: Vec<usize>,
)
    requires
        0 <= i < paths.len(),
        paths.len() <= usize::MAX,
        k == bucket_of(paths[i]@),
        slots_prefix_ok(before, paths, i),
        old_v == (if before.contains_key(k) {
            before[k]@
        } else {
            Seq::<usize>::empty()
        }),
        v@ == old_v.push(i as usize),
        after == before.remove(k).insert(k, v),
    ensures
        slots_prefix_ok(after, paths, i + 1),
{
    let nv = old_v.push(i as usize);
    if before.contains_key(k) {
        assert forall|j: int| 0 <= j < old_v.len() implies old_v[j] < i by {
            assert(before[k]@[j] == old_v[j]);
            assert(before[k]@[j] < i);
        }
    }
    assert(!old_v.contains(i as usize)) by {
        if old_v.contains(i as usize) {
            let j = choose|j: int| 0 <= j < old_v.len() && old_v[j] == i as usize;
            assert(old_v[j] < i);
        }
    }
    assert forall|kk: u64| #[trigger] after.contains_key(kk) implies bucket_ok(after[kk]@, kk, paths)
        && forall|j: int| 0 <= j < after[kk]@.len() ==> #[trigger] after[kk]@[j] < i + 1 by {
        if kk == k {
            assert(after[kk]@ == nv);
            assert forall|a: int, b: int|
                0 <= a < nv.len() && 0 <= b < nv.len() && a != b implies nv[a] != nv[b] by {
                if a < old_v.len() && b < old_v.len() {
                    assert(before[k]@.no_duplicates());
                } else if a < old_v.len() {
                    assert(old_v.contains(old_v[a]));
                } else if b < old_v.len() {
                    assert(old_v.contains(old_v[b]));
                }
            }
            assert forall|j: int| 0 <= j < nv.len() implies (#[trigger] nv[j]) < paths.len()
                && bucket_of(paths[nv[j] as int]@) == k && nv[j] < i + 1 by {
                if j < old_v.len() {
                    assert(before[k]@[j] == nv[j]);
                    assert(old_v[j] < i);
                } else {
                    assert(nv[j] == i as usize);
                }
            }
        } else {
            assert(before.contains_key(kk));
            assert(after[kk] == before[kk]);
        }
    }
    assert forall|j: int| 0 <= j < i + 1 implies after.contains_key(bucket_of(#[trigger] paths[j]@))
        && after[bucket_of(paths[j]@)]@.contains(j as usize) by {
        if j == i {
            assert(nv[old_v.len() as int] == i as usize);
        } else {
            let kj = bucket_of(paths[j]@);
            assert(before.contains_key(kj) && before[kj]@.contains(j as usize));
            if kj == k {
                let a = choose|a: int| 0 <= a < old_v.len() && old_v[a] == j as usize;
                assert(nv[a] == j as usize);
            } else {
                assert(after[kj] == before[kj]);
            }
        }
    }
}

/// A filing of all of `paths` files all but the last of `paths.push(p)`.
proof fn lemma_slots_extend(slots: Map<u64, Vec<usize>>, paths: Seq<FsPath>, p: FsPath)
    requires
        slots_ok(slots, paths),
    ensures
        slots_prefix_ok(slots, paths.push(p), paths.len() as int),
{
    let q = paths.push(p);
    assert forall|k: u64| #[trigger] slots.contains_key(k) implies bucket_ok(slots[k]@, k, q)
        && forall|j: int| 0 <= j < slots[k]@.len() ==> #[trigger] slots[k]@[j] < paths.len() by {
        assert forall|j: int| 0 <= j < slots[k]@.len() implies (#[trigger] slots[k]@[j]) < q.len()
            && bucket_of(q[slots[k]@[j] as int]@) == k by {
            assert(q[slots[k]@[j] as int] == paths[slots[k]@[j] as int]);
        }
    }
    assert forall|j: int| 0 <= j < paths.len() implies slots.contains_key(bucket_of(#[trigger] q[j]@))
        && slots[bucket_of(q[j]@)]@.contains(j as usize) by {
        assert(q[j] == paths[j]);
    }
}

/// Taking the `i`-th of a run of distinct paths out takes exactly that
/// path out of its set, and leaves the rest distinct.
proof fn lemma_remove_from_unique(before: Seq<PathModel>, i: int, p: PathModel)
    requires
        before.no_duplicates(),
        0 <= i < before.len(),
        before[i] == p,
    ensures
        before.remove(i).to_set() == before.to_set().remove(p),
        before.remove(i).no_duplicates(),
{
    let after = before.remove(i);
    assert forall|x: PathModel| #[trigger] after.contains(x) <==> before.to_set().remove(
        p,
    ).contains(x) by {
        if after.contains(x) {
            let j = choose|j: int| 0 <= j < after.len() && after[j] == x;
            if j < i {
                assert(before[j] == x);
            } else {
                assert(before[j + 1] == x);
            }
        }
        if before.to_set().remove(p).contains(x) {
            let j = choose|j: int| 0 <= j < before.len() && before[j] == x;
            assert(j != i);
            if j < i {
                assert(after[j] == x);
            } else {
                assert(after[j - 1] == x);
            }
        }
    }
    assert(after.to_set() =~= before.to_set().remove(p));
    assert forall|a: int, b: int| 0 <= a < after.len() && 0 <= b < after.len() && a != b implies after[a]
        != after[b] by {
        let a2 = if a < i {
            a
        } else {
            a + 1
        };
        let b2 = if b < i {
            b
        } else {
            b + 1
        };
        assert(after[a] == before[a2]);
        assert(after[b] == before[b2]);
    }
}

/// A set of paths; each path is held once. Paths are filed in buckets by
/// the hash of their text, so a lookup only compares the paths of one
/// bucket.
pub struct PathSet {
    paths: Vec<FsPath>,
    slots: HashMap<u64, Vec<usize>>,
}

impl View for PathSet {
    type V = Set<PathModel>;

    closed spec fn view(&self) -> Set<PathModel> {
        path_models(self.paths@).to_set()
    }
}

/// Files every position of `paths` under its bucket.
fn file_all(paths: &Vec<FsPath>) -> (slots: HashMap<u64, Vec<usize>>)
    ensures
        slots_ok(slots@, paths@),
{
    let mut slots: HashMap<u64, Vec<usize>> = HashMap::new();
    let mut i: usize = 0;
    while i < paths.len()
        invariant
            i <= paths.len(),
            slots_prefix_ok(slots@, paths@, i as int),
        decreases paths.len() - i,
    {
        let k = bucket_key(&paths[i]);
        let ghost before = slots@;
        let mut v = match slots.remove(&k) {
            Some(v) => v,
            None => Vec::new(),
        };
        let ghost old_v = v@;
        proof {
            assert(slots@ == before.remove(k));
            if !before.contains_key(k) {
                assert(old_v =~= Seq::<usize>::empty());
            }
        }
        v.push(i);
        let ghost pushed = v;
        slots.insert(k, v);
        proof {
            lemma_file_next(before, slots@, paths@, i as int, k, old_v, pushed);
        }
        i = i + 1;
    }
    slots
}

impl PathSet {
    #[verifier::type_invariant]
    closed spec fn well_formed(self) -> bool {
        &&& path_models(self.paths@).no_duplicates()
        &&& slots_ok(self.slots@, self.paths@)
    }

    /// An empty set.
    pub fn new() -> (s: PathSet)
        ensures
            s@ == Set::<PathModel>::empty(),
    {
        let s = PathSet { paths: Vec::new(), slots: HashMap::new() };
        proof {
            assert(path_models(s.paths@).to_set() =~= Set::<PathModel>::empty());
        }
        s
    }

    /// Where `p` is held, if it is.
    fn position(&self, p: &FsPath) -> (r: Option<usize>)
        ensures
            r matches Some(i) ==> i < self.paths@.len() && self.paths@[i as int]@ == p@,
            r is None ==> !self@.contains(p@),
    {
        proof {
            use_type_invariant(self);
        }
        let k = bucket_key(p);
        let ghost held = path_models(self.paths@);
        match self.slots.get(&k) {
            Some(v) => {
                let mut j: usize = 0;
                while j < v.len()
                    invariant
                        j <= v.len(),
                        self.slots@.contains_key(k),
                        v@ == self.slots@[k]@,
                        bucket_ok(v@, k, self.paths@),
                        forall|a: int| 0 <= a < j ==> self.paths@[v@[a] as int]@ != p@,
                    decreases v.len() - j,
                {
                    let i = v[j];
                    proof {
                        assert(v@[j as int] == i);
                    }
                    if self.paths[i].same_as(p) {
                        return Some(i);
                    }
                    j = j + 1;
                }
                proof {
                    if held.to_set().contains(p@) {
                        let i = choose|i: int| 0 <= i < held.len() && held[i] == p@;
                        assert(self.paths@[i]@ == p@);
                        assert(self.slots@[bucket_of(self.paths@[i]@)]@.contains(i as usize));
                        assert(i < self.paths.len());
                        let a = choose|a: int| 0 <= a < v@.len() && v@[a] == i as usize;
                        assert(v@[a] as int == i);
                        assert(self.paths@[v@[a] as int]@ == p@);
                    }
                }
                None
            },
            None => {
                proof {
                    if held.to_set().contains(p@) {
                        let i = choose|i: int| 0 <= i < held.len() && held[i] == p@;
                        assert(self.paths@[i]@ == p@);
                        assert(self.slots@.contains_key(bucket_of(self.paths@[i]@)));
                    }
                }
                None
            },
        }
    }

    /// Whether `p` is in the set.
    pub fn contains(&self, p: &FsPath) -> (r: bool)
        ensures
            r == self@.contains(p@),
    {
        match self.position(p) {
            Some(i) => {
                proof {
                    assert(path_models(self.paths@)[i as int] == p@);
                }
                true
            },
            None => false,
        }
    }

    /// Adds `p`; returns whether it was not in the set before.
    pub fn insert(&mut self, p: FsPath) -> (added: bool)
        ensures
            final(self)@ == old(self)@.insert(p@),
            added == !old(self)@.contains(p@),
    {
        match self.position(&p) {
            Some(i) => {
                proof {
                    assert(path_models(self.paths@)[i as int] == p@);
                    assert(self@.insert(p@) =~= self@);
                }
                false
            },
            None => {
                let mut taken = PathSet::new();
                std::mem::swap(self, &mut taken);
                proof {
                    use_type_invariant(&taken);
                }
                let PathSet { mut paths, mut slots } = taken;
                let ghost before = path_models(paths@);
                let ghost old_paths = paths@;
                let ghost old_slots = slots@;
                let n = paths.len();
                let k = bucket_key(&p);
                let mut v = match slots.remove(&k) {
                    Some(v) => v,
                    None => Vec::new(),
                };
                let ghost old_v = v@;
                proof {
                    if !old_slots.contains_key(k) {
                        assert(old_v =~= Seq::<usize>::empty());
                    }
                }
                v.push(n);
                let ghost pushed = v;
                slots.insert(k, v);
                paths.push(p);
                proof {
                    assert(paths@ == old_paths.push(p));
                    assert(paths@.len() == paths.len());
                    lemma_slots_extend(old_slots, old_paths, p);
                    lemma_file_next(old_slots, slots@, paths@, n as int, k, old_v, pushed);
                    assert(path_models(paths@) =~= before.push(p@));
                    assert(before.push(p@).to_set() =~= before.to_set().insert(p@)) by {
                        before.lemma_push_to_set_commute(p@);
                    }
                    assert(path_models(paths@).no_duplicates()) by {
                        assert forall|a: int, b: int|
                            0 <= a < path_models(paths@).len() && 0 <= b < path_models(
                                paths@,
                            ).len() && a != b implies path_models(paths@)[a] != path_models(
                            paths@,
                        )[b] by {
                            if a == before.len() as int {
                                assert(before.contains(before[b]));
                            } else if b == before.len() as int {
                                assert(before.contains(before[a]));
                            }
                        }
                    }
                }
                *self = PathSet { paths, slots };
                true
            },
        }
    }

    /// Takes `p` out; returns whether it was in the set.
    pub fn remove(&mut self, p: &FsPath) -> (removed: bool)
        ensures
            final(self)@ == old(self)@.remove(p@),
            removed == old(self)@.contains(p@),
    {
        match self.position(p) {
            Some(i) => {
                let mut taken = PathSet::new();
                std::mem::swap(self, &mut taken);
                proof {
                    use_type_invariant(&taken);
                }
                let PathSet { mut paths, slots } = taken;
                let ghost before = path_models(paths@);
                paths.remove(i);
                let slots = file_all(&paths);
                proof {
                    assert(path_models(paths@) =~= before.remove(i as int));
                    lemma_remove_from_unique(before, i as int, p@);
                    assert(before.contains(p@)) by {
                        assert(before[i as int] == p@);
                    }
                }
                *self = PathSet { paths, slots };
                true
            },
            None => {
                proof {
                    assert(self@.remove(p@) =~= self@);
                }
                false
            },
        }
    }

    /// How many paths the set holds.
    pub fn len(&self) -> (n: usize)
        ensures
            n == self@.len(),
    {
        proof {
            use_type_invariant(self);
            path_models(self.paths@).unique_seq_to_set();
        }
        self.paths.len()
    }

    /// Whether the set holds no path.
    pub fn is_empty(&self) -> (r: bool)
        ensures
            r == (self@ == Set::<PathModel>::empty()),
    {
        proof {
            if self.paths@.len() > 0 {
                assert(self@.contains(self.paths@[0]@)) by {
                    assert(path_models(self.paths@)[0] == self.paths@[0]@);
                }
            } else {
                assert(self@ =~= Set::<PathModel>::empty());
            }
        }
        self.paths.len() == 0
    }

    /// Every path of the set, each once, in the order they were added.
    pub fn paths(&self) -> (r: &Vec<FsPath>)
        ensures
            path_models(r@).to_set() == self@,
            path_models(r@).no_duplicates(),
    {
        proof {
            use_type_invariant(self);
        }
        &self.paths
    }
}

impl Clone for PathSet {
    fn clone(&self) -> (r: Self)
        ensures
            r@ == self@,
    {
        proof {
            use_type_invariant(self);
        }
        let ghost ms = path_models(self.paths@);
        let mut paths: Vec<FsPath> = Vec::new();
        let mut i: usize = 0;
        while i < self.paths.len()
            invariant
                i <= self.paths.len(),
                ms == path_models(self.paths@),
                ms.no_duplicates(),
                path_models(paths@) == ms.take(i as int),
            decreases self.paths.len() - i,
        {
            let ghost before = paths@;
            paths.push(self.paths[i].clone());
            proof {
                assert(path_models(paths@) =~= path_models(before).push(ms[i as int]));
                assert(ms.take(i + 1) =~= ms.take(i as int).push(ms[i as int]));
            }
            i = i + 1;
        }
        proof {
            assert(ms.take(self.paths.len() as int) =~= ms);
        }
        let slots = file_all(&paths);
        PathSet { paths, slots }
    }
}

} // verus!
