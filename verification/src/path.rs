use vstd::prelude::*;
use vstd::string::*;

verus! {

/// Abstract value of a path: whether it starts at the filesystem root, and
/// its components in order.
pub struct PathModel {
    pub absolute: bool,
    pub parts: Seq<Seq<char>>,
}

/// A filesystem path held as its normalized components (no empty
/// components, `.` only as the leading component of a relative path),
/// together with the text it was written as.
#[derive(Debug)]
pub struct FsPath {
    pub absolute: bool,
    pub parts: Vec<String>,
    /// The text the path was read from; for a path computed from others,
    /// its components joined by `/`. Paths compare by components alone.
    pub text: String,
}

pub open spec fn part_views(parts: Seq<String>) -> Seq<Seq<char>> {
    parts.map_values(|s: String| s@)
}

impl View for FsPath {
    type V = PathModel;

    open spec fn view(&self) -> PathModel {
        PathModel { absolute: self.absolute, parts: part_views(self.parts@) }
    }
}

/// The text of `s` cut at every `/`, empty pieces included.
pub open spec fn split_on_slash(s: Seq<char>) -> Seq<Seq<char>>
    decreases s.len(),
{
    if s.len() == 0 {
        seq![Seq::<char>::empty()]
    } else {
        let r = split_on_slash(s.drop_last());
        if s.last() == '/' {
            r.push(Seq::<char>::empty())
        } else {
            r.update(r.len() - 1, r.last().push(s.last()))
        }
    }
}

pub open spec fn dot() -> Seq<char> {
    seq!['.']
}

pub open spec fn dot_dot() -> Seq<char> {
    seq!['.', '.']
}

/// The pieces that survive as components: neither empty nor `.`.
pub open spec fn kept_parts(segs: Seq<Seq<char>>) -> Seq<Seq<char>>
    decreases segs.len(),
{
    if segs.len() == 0 {
        Seq::empty()
    } else {
        let r = kept_parts(segs.drop_last());
        let g = segs.last();
        if g.len() == 0 || g == dot() {
            r
        } else {
            r.push(g)
        }
    }
}

/// Components of a path text cut into `segs`: a relative path that begins
/// with `.` keeps it as its first component; every other empty or `.`
/// piece is dropped.
pub open spec fn normalize_segments(segs: Seq<Seq<char>>, absolute: bool) -> Seq<Seq<char>> {
    if segs.len() > 0 && !absolute && segs[0] == dot() {
        seq![dot()] + kept_parts(segs.drop_first())
    } else {
        kept_parts(segs)
    }
}

/// The path that the text `s` denotes on a Unix filesystem.
pub open spec fn parse_path(s: Seq<char>) -> PathModel {
    let absolute = s.len() > 0 && s[0] == '/';
    PathModel { absolute, parts: normalize_segments(split_on_slash(s), absolute) }
}

proof fn lemma_split_nonempty(s: Seq<char>)
    ensures
        split_on_slash(s).len() >= 1,
    decreases s.len(),
{
    if s.len() > 0 {
        lemma_split_nonempty(s.drop_last());
    }
}

proof fn lemma_normalize_push(segs: Seq<Seq<char>>, g: Seq<char>, absolute: bool)
    ensures
        normalize_segments(segs.push(g), absolute) == (if segs.len() == 0 && !absolute && g
            == dot() {
            seq![dot()]
        } else if g.len() == 0 || g == dot() {
            normalize_segments(segs, absolute)
        } else {
            normalize_segments(segs, absolute).push(g)
        }),
{
    assert(segs.push(g).drop_last() =~= segs);
    if segs.len() == 0 {
        assert(segs.push(g).drop_first() =~= Seq::<Seq<char>>::empty());
        assert(kept_parts(Seq::<Seq<char>>::empty()) =~= Seq::<Seq<char>>::empty());
        if !absolute && g == dot() {
            assert(seq![dot()] + Seq::<Seq<char>>::empty() =~= seq![dot()]);
        }
    } else {
        assert(segs.push(g)[0] == segs[0]);
        if !absolute && segs[0] == dot() {
            let t = segs.drop_first();
            assert(segs.push(g).drop_first() =~= t.push(g));
            assert(t.push(g).drop_last() =~= t);
            if g.len() == 0 || g == dot() {
            } else {
                assert(seq![dot()] + kept_parts(t).push(g) =~= (seq![dot()] + kept_parts(
                    t,
                )).push(g));
            }
        }
    }
}

impl FsPath {
    /// Reads a path from its text, as `Path::new(s)` would split it into
    /// components.
    pub fn parse(s: &str) -> (p: FsPath)
        ensures
            p@ == parse_path(s@),
            p.text@ == s@,
    {
        let n = s.unicode_len();
        let absolute = n > 0 && s.get_char(0) == '/';
        let mut parts: Vec<String> = Vec::new();
        let mut start: usize = 0;
        let mut any_done = false;
        let ghost mut done: Seq<Seq<char>> = Seq::empty();
        let mut i: usize = 0;
        proof {
            assert(s@.take(0) =~= Seq::<char>::empty());
            assert(s@.subrange(0, 0) =~= Seq::<char>::empty());
            assert(Seq::<Seq<char>>::empty().push(Seq::<char>::empty()) =~= seq![
                Seq::<char>::empty(),
            ]);
            assert(kept_parts(Seq::<Seq<char>>::empty()) =~= Seq::<Seq<char>>::empty());
            assert(part_views(parts@) =~= Seq::<Seq<char>>::empty());
        }
        while i < n
            invariant
                n == s@.len(),
                absolute == (s@.len() > 0 && s@[0] == '/'),
                start <= i <= n,
                any_done == (done.len() > 0),
                split_on_slash(s@.take(i as int)) == done.push(s@.subrange(start as int, i as int)),
                part_views(parts@) == normalize_segments(done, absolute),
            decreases n - i,
        {
            let c = s.get_char(i);
            proof {
                assert(s@.take(i + 1).drop_last() =~= s@.take(i as int));
                assert(s@.take(i + 1).last() == c);
            }
            if c == '/' {
                let piece = s.substring_char(start, i);
                let ghost g = piece@;
                proof {
                    lemma_normalize_push(done, g, absolute);
                }
                let plen = piece.unicode_len();
                let is_dot = plen == 1 && piece.get_char(0) == '.';
                proof {
                    if is_dot {
                        assert(g =~= dot());
                    }
                    if plen == 1 && g == dot() {
                        assert(g[0] == '.');
                    }
                }
                if !any_done && !absolute && is_dot {
                    parts.push(String::from_str(piece));
                    proof {
                        assert(part_views(parts@) =~= seq![dot()]);
                    }
                } else if plen > 0 && !is_dot {
                    let ghost old_parts = parts@;
                    parts.push(String::from_str(piece));
                    proof {
                        assert(part_views(parts@) =~= part_views(old_parts).push(g));
                    }
                }
                proof {
                    done = done.push(g);
                    assert(s@.subrange((i + 1) as int, (i + 1) as int) =~= Seq::<char>::empty());
                }
                any_done = true;
                start = i + 1;
            } else {
                proof {
                    lemma_split_nonempty(s@.take(i as int));
                    assert(s@.subrange(start as int, i + 1) =~= s@.subrange(
                        start as int,
                        i as int,
                    ).push(c));
                    assert(done.push(s@.subrange(start as int, i as int)).update(
                        done.len() as int,
                        s@.subrange(start as int, i as int).push(c),
                    ) =~= done.push(s@.subrange(start as int, i + 1)));
                }
            }
            i = i + 1;
        }
        let piece = s.substring_char(start, n);
        let ghost g = piece@;
        proof {
            lemma_normalize_push(done, g, absolute);
            assert(s@.take(n as int) =~= s@);
        }
        let plen = piece.unicode_len();
        let is_dot = plen == 1 && piece.get_char(0) == '.';
        proof {
            if is_dot {
                assert(g =~= dot());
            }
            if plen == 1 && g == dot() {
                assert(g[0] == '.');
            }
        }
        if !any_done && !absolute && is_dot {
            parts.push(String::from_str(piece));
            proof {
                assert(part_views(parts@) =~= seq![dot()]);
            }
        } else if plen > 0 && !is_dot {
            let ghost old_parts = parts@;
            parts.push(String::from_str(piece));
            proof {
                assert(part_views(parts@) =~= part_views(old_parts).push(g));
            }
        }
        FsPath { absolute, parts, text: String::from_str(s) }
    }
}


/// `a` is one of the paths that `Path::ancestors` yields for `p` (`p`
/// itself included): both rooted or both not, and the components of `a`
/// lead those of `p`.
pub open spec fn is_ancestor(a: PathModel, p: PathModel) -> bool {
    &&& p.absolute == a.absolute
    &&& a.parts.len() <= p.parts.len()
    &&& p.parts.take(a.parts.len() as int) == a.parts
}

/// The empty relative path, which has no components at all.
pub open spec fn is_empty_path(p: PathModel) -> bool {
    !p.absolute && p.parts.len() == 0
}

/// The components of `base` lead those of `p` (`Path::starts_with`):
/// `base` is an ancestor of `p`, or the empty path, which every path
/// starts with.
pub open spec fn path_starts_with(p: PathModel, base: PathModel) -> bool {
    is_ancestor(base, p) || is_empty_path(base)
}

/// `base` with the components `rest` appended, as `Path::join` does with a
/// relative remainder: a leading `.` of `rest` only survives at the start
/// of an empty relative `base`.
pub open spec fn join_parts(base: PathModel, rest: Seq<Seq<char>>) -> PathModel {
    if rest.len() > 0 && rest[0] == dot() && (base.absolute || base.parts.len() > 0) {
        PathModel { absolute: base.absolute, parts: base.parts + rest.drop_first() }
    } else {
        PathModel { absolute: base.absolute, parts: base.parts + rest }
    }
}

/// `p` moved from under `from` to under `to` (`to.join(p.strip_prefix(from))`),
/// or `None` when `p` is not at or under `from`. Stripping the empty path
/// off a rooted path leaves it rooted, and joining a rooted path gives it
/// back unchanged.
pub open spec fn rebase(p: PathModel, from: PathModel, to: PathModel) -> Option<PathModel> {
    if !path_starts_with(p, from) {
        None
    } else if p.absolute && !from.absolute {
        Some(p)
    } else {
        Some(join_parts(to, p.parts.skip(from.parts.len() as int)))
    }
}

/// The last component when it names a file or folder (`Path::file_name`).
pub open spec fn file_name(p: PathModel) -> Option<Seq<char>> {
    if p.parts.len() > 0 && p.parts.last() != dot() && p.parts.last() != dot_dot() {
        Some(p.parts.last())
    } else {
        None
    }
}

/// The components joined by `/`.
pub open spec fn join_with_slash(parts: Seq<Seq<char>>) -> Seq<char>
    decreases parts.len(),
{
    if parts.len() == 0 {
        Seq::empty()
    } else if parts.len() == 1 {
        parts[0]
    } else {
        join_with_slash(parts.drop_last()) + seq!['/'] + parts.last()
    }
}

/// The text of a path: a leading `/` for an absolute path, then the
/// components joined by `/`.
pub open spec fn display_path(p: PathModel) -> Seq<char> {
    if p.absolute {
        seq!['/'] + join_with_slash(p.parts)
    } else {
        join_with_slash(p.parts)
    }
}

/// The ancestor of `p` that keeps its first `k` components.
pub open spec fn ancestor_at(p: PathModel, k: int) -> PathModel {
    PathModel { absolute: p.absolute, parts: p.parts.take(k) }
}


/// Copies of the strings `v[from..to]`.
fn copy_strings(v: &Vec<String>, from: usize, to: usize) -> (r: Vec<String>)
    requires
        from <= to <= v.len(),
    ensures
        part_views(r@) == part_views(v@).subrange(from as int, to as int),
{
    let mut r: Vec<String> = Vec::new();
    let mut i = from;
    while i < to
        invariant
            from <= i <= to <= v.len(),
            part_views(r@) == part_views(v@).subrange(from as int, i as int),
        decreases to - i,
    {
        let ghost old_r = r@;
        r.push(v[i].clone());
        proof {
            assert(part_views(r@) =~= part_views(old_r).push(v@[i as int]@));
            assert(part_views(v@).subrange(from as int, i + 1) =~= part_views(v@).subrange(
                from as int,
                i as int,
            ).push(v@[i as int]@));
        }
        i = i + 1;
    }
    r
}

/// The components joined by `/`, after a leading `/` when `absolute`.
fn text_of_parts(absolute: bool, parts: &Vec<String>) -> (r: String)
    ensures
        r@ == display_path(PathModel { absolute, parts: part_views(parts@) }),
{
    let mut out = String::new();
    proof {
        reveal_strlit("/");
    }
    if absolute {
        out.append("/");
    }
    let ghost lead = out@;
    let mut i: usize = 0;
    while i < parts.len()
        invariant
            i <= parts.len(),
            lead == (if absolute { seq!['/'] } else { Seq::<char>::empty() }),
            out@ == lead + join_with_slash(part_views(parts@).take(i as int)),
        decreases parts.len() - i,
    {
        let ghost pv = part_views(parts@);
        proof {
            reveal_strlit("/");
            assert(pv.take(i + 1).drop_last() =~= pv.take(i as int));
        }
        if i > 0 {
            out.append("/");
        }
        out.append(parts[i].as_str());
        proof {
            if i == 0 {
                assert(pv.take(1) =~= seq![pv[0]]);
                assert(join_with_slash(pv.take(0)) =~= Seq::<char>::empty());
                assert(out@ =~= lead + join_with_slash(pv.take(1)));
            } else {
                assert(out@ =~= lead + join_with_slash(pv.take(i + 1)));
            }
        }
        i = i + 1;
    }
    proof {
        assert(part_views(parts@).take(parts@.len() as int) =~= part_views(
            parts@,
        ));
        assert(out@ =~= display_path(PathModel { absolute, parts: part_views(parts@) }));
    }
    out
}
/// The path with these components, written as its components joined by
/// `/`.
pub(crate) fn from_parts(absolute: bool, parts: Vec<String>) -> (p: FsPath)
    ensures
        p@ == (PathModel { absolute, parts: part_views(parts@) }),
        p.text@ == display_path(p@),
{
    let text = text_of_parts(absolute, &parts);
    FsPath { absolute, parts, text }
}

impl Clone for FsPath {
    fn clone(&self) -> (r: Self)
        ensures
            r@ == self@,
            r.text@ == self.text@,
    {
        let parts = copy_strings(&self.parts, 0, self.parts.len());
        proof {
            assert(part_views(self.parts@).subrange(0, self.parts@.len() as int) =~= part_views(
                self.parts@,
            ));
        }
        FsPath { absolute: self.absolute, parts, text: self.text.clone() }
    }
}

impl FsPath {
    /// Whether both name the same path (`Path == Path`).
    pub fn same_as(&self, other: &FsPath) -> (r: bool)
        ensures
            r == (self@ == other@),
    {
        if self.absolute != other.absolute || self.parts.len() != other.parts.len() {
            proof {
                if self@ == other@ {
                    assert(part_views(self.parts@).len() == part_views(other.parts@).len());
                }
            }
            return false;
        }
        let mut i: usize = 0;
        while i < self.parts.len()
            invariant
                self.parts.len() == other.parts.len(),
                i <= self.parts.len(),
                forall|j: int| 0 <= j < i ==> self.parts@[j]@ == other.parts@[j]@,
            decreases self.parts.len() - i,
        {
            if self.parts[i] != other.parts[i] {
                proof {
                    assert(part_views(self.parts@)[i as int] != part_views(other.parts@)[i as int]);
                }
                return false;
            }
            i = i + 1;
        }
        proof {
            assert(part_views(self.parts@) =~= part_views(other.parts@));
        }
        true
    }

    /// Whether `base` is this path or one of its ancestors
    /// (`Path::starts_with`).
    pub fn starts_with(&self, base: &FsPath) -> (r: bool)
        ensures
            r == path_starts_with(self@, base@),
    {
        if !base.absolute && base.parts.len() == 0 {
            return true;
        }
        if self.absolute != base.absolute || base.parts.len() > self.parts.len() {
            return false;
        }
        let mut i: usize = 0;
        while i < base.parts.len()
            invariant
                base.parts.len() <= self.parts.len(),
                i <= base.parts.len(),
                forall|j: int| 0 <= j < i ==> self.parts@[j]@ == base.parts@[j]@,
            decreases base.parts.len() - i,
        {
            if self.parts[i] != base.parts[i] {
                proof {
                    assert(part_views(self.parts@).take(base.parts@.len() as int)[i as int]
                        != part_views(base.parts@)[i as int]);
                }
                return false;
            }
            i = i + 1;
        }
        proof {
            assert(part_views(self.parts@).take(base.parts@.len() as int) =~= part_views(
                base.parts@,
            ));
        }
        true
    }

    /// The ancestor that keeps the first `k` components.
    pub fn ancestor(&self, k: usize) -> (r: FsPath)
        requires
            k <= self@.parts.len(),
        ensures
            r@ == ancestor_at(self@, k as int),
    {
        let parts = copy_strings(&self.parts, 0, k);
        proof {
            assert(part_views(self.parts@).subrange(0, k as int) =~= part_views(
                self.parts@,
            ).take(k as int));
        }
        from_parts(self.absolute, parts)
    }

    /// This path moved from under `from` to under `to`, or `None` when it
    /// is not at or under `from` (`strip_prefix` followed by `join`).
    pub fn rebased(&self, from: &FsPath, to: &FsPath) -> (r: Option<FsPath>)
        ensures
            r matches Some(q) ==> rebase(self@, from@, to@) == Some(q@),
            r is None ==> rebase(self@, from@, to@) is None,
    {
        if !self.starts_with(from) {
            return None;
        }
        if self.absolute && !from.absolute {
            return Some(self.clone());
        }
        let k = from.parts.len();
        let n = self.parts.len();
        let mut start = k;
        if k < n && !(!to.absolute && to.parts.len() == 0) {
            let first = &self.parts[k];
            if first.as_str().unicode_len() == 1 && first.as_str().get_char(0) == '.' {
                proof {
                    assert(part_views(self.parts@)[k as int] =~= dot());
                }
                start = k + 1;
            }
        }
        let mut parts = copy_strings(&to.parts, 0, to.parts.len());
        let tail = copy_strings(&self.parts, start, n);
        let ghost rest = part_views(self.parts@).skip(k as int);
        proof {
            assert(part_views(to.parts@).subrange(0, to.parts@.len() as int) =~= part_views(
                to.parts@,
            ));
            if k < n {
                assert(rest[0] == part_views(self.parts@)[k as int]);
                if rest[0] == dot() && (to.absolute || to.parts@.len() > 0) {
                    let sv = self.parts@[k as int]@;
                    assert(sv.len() == 1 && sv[0] == '.');
                }
            }
        }
        let ghost before = parts@;
        let mut tail = tail;
        parts.append(&mut tail);
        proof {
            assert(part_views(parts@) =~= part_views(before) + part_views(self.parts@).subrange(
                start as int,
                n as int,
            ));
            if start == k + 1 {
                assert(rest.drop_first() =~= part_views(self.parts@).subrange(
                    start as int,
                    n as int,
                ));
            } else {
                assert(rest =~= part_views(self.parts@).subrange(start as int, n as int));
            }
        }
        Some(from_parts(to.absolute, parts))
    }

    /// The last component when it names a file or folder.
    pub fn file_name(&self) -> (r: Option<String>)
        ensures
            r matches Some(name) ==> file_name(self@) == Some(name@),
            r is None ==> file_name(self@) is None,
    {
        let n = self.parts.len();
        if n == 0 {
            return None;
        }
        let last = &self.parts[n - 1];
        let len = last.as_str().unicode_len();
        let is_dot = len == 1 && last.as_str().get_char(0) == '.';
        let is_dot_dot = len == 2 && last.as_str().get_char(0) == '.' && last.as_str().get_char(1)
            == '.';
        proof {
            let lv = part_views(self.parts@).last();
            assert(lv == last@);
            if is_dot {
                assert(lv =~= dot());
            }
            if is_dot_dot {
                assert(lv =~= dot_dot());
            }
            if lv == dot() {
                assert(lv[0] == '.');
            }
            if lv == dot_dot() {
                assert(lv[0] == '.' && lv[1] == '.');
            }
        }
        if is_dot || is_dot_dot {
            None
        } else {
            Some(last.clone())
        }
    }

    /// The text of the path: `/` for the root, then the components joined
    /// by `/`.
    pub fn display(&self) -> (r: String)
        ensures
            r@ == display_path(self@),
    {
        text_of_parts(self.absolute, &self.parts)
    }

}


/// The path without its last component (`Path::parent`), or `None` for a
/// path with no components (the root, or the empty path).
pub open spec fn parent_of(p: PathModel) -> Option<PathModel> {
    if p.parts.len() > 0 {
        Some(ancestor_at(p, p.parts.len() - 1))
    } else {
        None
    }
}

/// `base.join(rel)`: `rel` itself when it is absolute, else `base` with the
/// components of `rel` appended.
pub open spec fn join_path(base: PathModel, rel: PathModel) -> PathModel {
    if rel.absolute {
        rel
    } else {
        join_parts(base, rel.parts)
    }
}

impl FsPath {
    /// The path without its last component, if it has one.
    pub fn parent(&self) -> (r: Option<FsPath>)
        ensures
            r matches Some(q) ==> parent_of(self@) == Some(q@),
            r is None ==> parent_of(self@) is None,
    {
        if self.parts.len() == 0 {
            None
        } else {
            Some(self.ancestor(self.parts.len() - 1))
        }
    }

    /// This path with `rel` appended (`Path::join`).
    pub fn join(&self, rel: &FsPath) -> (r: FsPath)
        ensures
            r@ == join_path(self@, rel@),
    {
        if rel.absolute {
            return rel.clone();
        }
        let empty = from_parts(false, Vec::new());
        proof {
            assert(part_views(empty.parts@) =~= Seq::<Seq<char>>::empty());
            assert(path_starts_with(rel@, empty@)) by {
                assert(rel@.parts.take(0) =~= Seq::<Seq<char>>::empty());
            }
            assert(rel@.parts.skip(0) =~= rel@.parts);
        }
        match rel.rebased(&empty, self) {
            Some(q) => q,
            None => {
                proof {
                    assert(false);
                }
                rel.clone()
            },
        }
    }
}


impl PartialEq for FsPath {
    fn eq(&self, other: &FsPath) -> (r: bool) {
        self.same_as(other)
    }
}

impl vstd::std_specs::cmp::PartialEqSpecImpl for FsPath {
    open spec fn obeys_eq_spec() -> bool {
        true
    }

    open spec fn eq_spec(&self, other: &FsPath) -> bool {
        self@ == other@
    }
}

/// A path as every `Path` holds its components: none empty, and `.` only
/// as the first component of a relative path. Parsing leaves every path so
/// (`lemma_parsed_paths_normalized`).
pub open spec fn normalized(p: PathModel) -> bool {
    forall|i: int|
        0 <= i < p.parts.len() ==> (#[trigger] p.parts[i]).len() > 0 && (p.parts[i] == dot() ==> i
            == 0 && !p.absolute)
}

proof fn lemma_kept_parts_clean(segs: Seq<Seq<char>>)
    ensures
        forall|i: int|
            0 <= i < kept_parts(segs).len() ==> (#[trigger] kept_parts(segs)[i]).len() > 0
                && kept_parts(segs)[i] != dot(),
    decreases segs.len(),
{
    if segs.len() > 0 {
        lemma_kept_parts_clean(segs.drop_last());
        let r = kept_parts(segs.drop_last());
        let g = segs.last();
        if !(g.len() == 0 || g == dot()) {
            assert forall|i: int| 0 <= i < r.push(g).len() implies (#[trigger] r.push(g)[i]).len()
                > 0 && r.push(g)[i] != dot() by {
                if i < r.len() {
                    assert(r.push(g)[i] == r[i]);
                }
            }
        }
    }
}

/// Every path read from a text is normalized.
pub proof fn lemma_parsed_paths_normalized(s: Seq<char>)
    ensures
        normalized(parse_path(s)),
{
    let p = parse_path(s);
    let segs = split_on_slash(s);
    if segs.len() > 0 && !p.absolute && segs[0] == dot() {
        let k = kept_parts(segs.drop_first());
        lemma_kept_parts_clean(segs.drop_first());
        assert forall|i: int| 0 <= i < p.parts.len() implies (#[trigger] p.parts[i]).len() > 0 && (
        p.parts[i] == dot() ==> i == 0 && !p.absolute) by {
            if i > 0 {
                assert(p.parts[i] == k[i - 1]);
            }
        }
    } else {
        lemma_kept_parts_clean(segs);
    }
}

/// Moving a path from under `a` to under `b` and back gives it back (`a`
/// is not the empty path, and the path is as parsing leaves it).
pub proof fn lemma_rebase_round_trip(p: PathModel, a: PathModel, b: PathModel)
    requires
        normalized(p),
        is_ancestor(a, p),
        !is_empty_path(a),
    ensures
        rebase(p, a, b) matches Some(q) && is_ancestor(b, q) && rebase(q, b, a) == Some(p),
{
    let rest = p.parts.skip(a.parts.len() as int);
    if rest.len() > 0 {
        assert(rest[0] == p.parts[a.parts.len() as int]);
        assert(rest[0] != dot()) by {
            if rest[0] == dot() {
                assert(a.parts.len() == 0 && !p.absolute);
            }
        }
    }
    let q = join_parts(b, rest);
    assert(q.parts =~= b.parts + rest);
    assert(q.parts.take(b.parts.len() as int) =~= b.parts);
    assert(q.parts.skip(b.parts.len() as int) =~= rest);
    let back = join_parts(a, rest);
    assert(back.parts =~= a.parts + rest);
    assert(p.parts =~= p.parts.take(a.parts.len() as int) + rest);
    assert(back == p);
}

} // verus!
