use vstd::prelude::*;
use vstd::string::*;
use crate::path::{FsPath, PathModel, parse_path};
use crate::text::{is_white_space, white_space, chars_of, push_char};

verus! {

/// The pieces of `s` between the `sep` characters, empty pieces included.
pub open spec fn split_on(s: Seq<char>, sep: char) -> Seq<Seq<char>>
    decreases s.len(),
{
    if s.len() == 0 {
        seq![Seq::<char>::empty()]
    } else {
        let r = split_on(s.drop_last(), sep);
        if s.last() == sep {
            r.push(Seq::<char>::empty())
        } else {
            r.update(r.len() - 1, r.last().push(s.last()))
        }
    }
}

/// The maximal runs of characters of `s` that are not white space
/// (`str::split_whitespace`).
pub open spec fn fields(s: Seq<char>) -> Seq<Seq<char>>
    decreases s.len(),
{
    if s.len() == 0 {
        Seq::empty()
    } else {
        let r = fields(s.drop_last());
        let c = s.last();
        if is_white_space(c) {
            r
        } else if s.len() >= 2 && !is_white_space(s[s.len() - 2]) {
            r.update(r.len() - 1, r.last().push(c))
        } else {
            r.push(seq![c])
        }
    }
}

/// `s` with every `\040` (how the mount table writes a space) turned into
/// a space, scanning left to right (`str::replace`).
pub open spec fn unescape_spaces(s: Seq<char>) -> Seq<char>
    decreases s.len(),
{
    if s.len() == 0 {
        s
    } else if s.len() >= 4 && s.take(4) == seq!['\\', '0', '4', '0'] {
        seq![' '] + unescape_spaces(s.skip(4))
    } else {
        seq![s[0]] + unescape_spaces(s.skip(1))
    }
}

/// The filesystem types of real (non-virtual) mounted volumes.
pub open spec fn is_real_filesystem(t: Seq<char>) -> bool {
    ||| t == "ext2"@
    ||| t == "ext3"@
    ||| t == "ext4"@
    ||| t == "btrfs"@
    ||| t == "xfs"@
    ||| t == "zfs"@
    ||| t == "ntfs"@
    ||| t == "ntfs3"@
    ||| t == "vfat"@
    ||| t == "exfat"@
    ||| t == "f2fs"@
    ||| t == "reiserfs"@
    ||| t == "jfs"@
    ||| t == "hfsplus"@
}

pub open spec fn root_path() -> PathModel {
    PathModel { absolute: true, parts: Seq::empty() }
}

/// The quick-pick list before the mount table is read: home, then the
/// filesystem root.
pub open spec fn initial_roots(home: PathModel) -> Seq<(Seq<char>, PathModel)> {
    seq![("Home"@, home), ("Filesystem (/)"@, root_path())]
}

/// `roots` after one line of the mount table: a line whose third field is
/// a real filesystem type adds its mount point (the second field, spaces
/// unescaped), labelled with its text, unless that path is listed already.
pub open spec fn add_mount_line(roots: Seq<(Seq<char>, PathModel)>, line: Seq<char>) -> Seq<
    (Seq<char>, PathModel),
> {
    let f = fields(line);
    if f.len() < 3 || !is_real_filesystem(f[2]) {
        roots
    } else {
        let text = unescape_spaces(f[1]);
        let p = parse_path(text);
        if exists|i: int| 0 <= i < roots.len() && #[trigger] roots[i].1 == p {
            roots
        } else {
            roots.push((text, p))
        }
    }
}

/// Law: a mount-table line whose type is that of a real volume (ext2,
/// ext3, ext4, btrfs, xfs, zfs, ntfs, ntfs3, vfat, exfat, f2fs, reiserfs,
/// jfs or hfsplus) adds its mount point, labelled with its text, when that
/// path is not listed yet; a line of any other type adds nothing.
pub proof fn lemma_real_volumes_are_added(roots: Seq<(Seq<char>, PathModel)>, line: Seq<char>)
    requires
        fields(line).len() >= 3,
    ensures
        ({
            let t = fields(line)[2];
            let text = unescape_spaces(fields(line)[1]);
            let p = parse_path(text);
            &&& (t == "ext2"@ || t == "ext3"@ || t == "ext4"@ || t == "btrfs"@ || t == "xfs"@ || t
                == "zfs"@ || t == "ntfs"@ || t == "ntfs3"@ || t == "vfat"@ || t == "exfat"@ || t
                == "f2fs"@ || t == "reiserfs"@ || t == "jfs"@ || t == "hfsplus"@) && (forall|i: int|
                0 <= i < roots.len() ==> #[trigger] roots[i].1 != p) ==> add_mount_line(roots, line)
                == roots.push((text, p))
            &&& !(t == "ext2"@ || t == "ext3"@ || t == "ext4"@ || t == "btrfs"@ || t == "xfs"@
                || t == "zfs"@ || t == "ntfs"@ || t == "ntfs3"@ || t == "vfat"@ || t == "exfat"@
                || t == "f2fs"@ || t == "reiserfs"@ || t == "jfs"@ || t == "hfsplus"@)
                ==> add_mount_line(roots, line) == roots
        }),
{
}

/// The quick-pick list after the lines `lines` of the mount table.
pub open spec fn roots_after(home: PathModel, lines: Seq<Seq<char>>) -> Seq<(Seq<char>, PathModel)>
    decreases lines.len(),
{
    if lines.len() == 0 {
        initial_roots(home)
    } else {
        add_mount_line(roots_after(home, lines.drop_last()), lines.last())
    }
}

/// Quick-access scan roots from the text of the mount table.
pub open spec fn mount_roots(home: PathModel, mounts: Seq<char>) -> Seq<(Seq<char>, PathModel)> {
    roots_after(home, split_on(mounts, '\n'))
}

/// Each root's path keeps the text it is written as: home its own, the
/// filesystem root `/`, and each mount point its unescaped text, which is
/// also its label.
pub open spec fn root_texts(s: Seq<(String, FsPath)>, home_text: Seq<char>) -> bool {
    &&& s.len() >= 2
    &&& s[0].1.text@ == home_text
    &&& s[1].1.text@ == seq!['/']
    &&& forall|i: int| 2 <= i < s.len() ==> #[trigger] s[i].1.text@ == s[i].0@
}

pub open spec fn roots_model(s: Seq<(String, FsPath)>) -> Seq<(Seq<char>, PathModel)> {
    Seq::new(s.len(), |i: int| (s[i].0@, s[i].1@))
}

/// The runs of `line` that are not white space.
fn line_fields(line: &Vec<char>) -> (r: Vec<Vec<char>>)
    ensures
        r@.len() == fields(line@).len(),
        forall|i: int| 0 <= i < r@.len() ==> #[trigger] r@[i]@ == fields(line@)[i],
{
    let mut r: Vec<Vec<char>> = Vec::new();
    let mut i: usize = 0;
    proof {
        assert(line@.take(0) =~= Seq::<char>::empty());
    }
    while i < line.len()
        invariant
            i <= line.len(),
            r@.len() == fields(line@.take(i as int)).len(),
            forall|j: int| 0 <= j < r@.len() ==> #[trigger] r@[j]@ == fields(line@.take(i as int))[j],
        decreases line.len() - i,
    {
        let c = line[i];
        let ghost t = line@.take(i + 1);
        proof {
            assert(t.drop_last() =~= line@.take(i as int));
            assert(t.last() == c);
            if i >= 1 {
                assert(t[t.len() - 2] == line@[i - 1]);
            }
        }
        if !white_space(c) {
            if i >= 1 && !white_space(line[i - 1]) {
                proof {
                    lemma_fields_nonempty(line@.take(i as int));
                }
                let last = r.len() - 1;
                let mut cur = r.pop().unwrap();
                cur.push(c);
                r.push(cur);
                proof {
                    assert forall|j: int| 0 <= j < r@.len() implies #[trigger] r@[j]@ == fields(t)[j] by {
                        if j == last {
                        }
                    }
                }
            } else {
                r.push(vec![c]);
                proof {
                    assert(r@[r@.len() - 1]@ =~= seq![c]);
                    assert forall|j: int| 0 <= j < r@.len() implies #[trigger] r@[j]@ == fields(t)[j] by {
                    }
                }
            }
        }
        i = i + 1;
    }
    proof {
        assert(line@.take(line.len() as int) =~= line@);
    }
    r
}

proof fn lemma_fields_nonempty(s: Seq<char>)
    requires
        s.len() >= 1,
        !is_white_space(s.last()),
    ensures
        fields(s).len() >= 1,
    decreases s.len(),
{
    if s.len() >= 2 && !is_white_space(s[s.len() - 2]) {
        assert(s.drop_last().last() == s[s.len() - 2]);
        lemma_fields_nonempty(s.drop_last());
    }
}

/// Whether `a` and `b` hold the same characters.
fn same_chars(a: &Vec<char>, b: &str) -> (r: bool)
    ensures
        r == (a@ == b@),
{
    let bc = chars_of(b);
    if a.len() != bc.len() {
        return false;
    }
    let mut i: usize = 0;
    while i < a.len()
        invariant
            a.len() == bc.len(),
            bc@ == b@,
            i <= a.len(),
            forall|j: int| 0 <= j < i ==> a@[j] == bc@[j],
        decreases a.len() - i,
    {
        if a[i] != bc[i] {
            proof {
                assert(a@[i as int] != bc@[i as int]);
            }
            return false;
        }
        i = i + 1;
    }
    proof {
        assert(a@ =~= bc@);
    }
    true
}

/// Whether `t` is the type of a real (non-virtual) filesystem.
fn real_filesystem(t: &Vec<char>) -> (r: bool)
    ensures
        r == is_real_filesystem(t@),
{
    same_chars(t, "ext2") || same_chars(t, "ext3") || same_chars(t, "ext4") || same_chars(t, "btrfs")
        || same_chars(t, "xfs") || same_chars(t, "zfs") || same_chars(t, "ntfs") || same_chars(
        t,
        "ntfs3",
    ) || same_chars(t, "vfat") || same_chars(t, "exfat") || same_chars(t, "f2fs") || same_chars(
        t,
        "reiserfs",
    ) || same_chars(t, "jfs") || same_chars(t, "hfsplus")
}

proof fn lemma_unescape_step(s: Seq<char>, k: int)
    requires
        0 <= k < s.len(),
    ensures
        unescape_spaces(s.skip(k)) == (if s.len() - k >= 4 && s.subrange(k, k + 4) == seq![
            '\\',
            '0',
            '4',
            '0',
        ] {
            seq![' '] + unescape_spaces(s.skip(k + 4))
        } else {
            seq![s[k]] + unescape_spaces(s.skip(k + 1))
        }),
{
    let t = s.skip(k);
    assert(t.len() > 0);
    if s.len() - k >= 4 {
        assert(t.take(4) =~= s.subrange(k, k + 4));
        assert(t.skip(4) =~= s.skip(k + 4));
    }
    assert(t.skip(1) =~= s.skip(k + 1));
    assert(t[0] == s[k]);
}

/// `s` with every `\040` turned into a space.
fn unescape(s: &Vec<char>) -> (r: String)
    ensures
        r@ == unescape_spaces(s@),
{
    let mut out = String::new();
    let mut k: usize = 0;
    proof {
        assert(s@.skip(0) =~= s@);
    }
    while k < s.len()
        invariant
            k <= s.len(),
            out@ + unescape_spaces(s@.skip(k as int)) == unescape_spaces(s@),
        decreases s.len() - k,
    {
        proof {
            lemma_unescape_step(s@, k as int);
        }
        if s.len() - k >= 4 && s[k] == '\\' && s[k + 1] == '0' && s[k + 2] == '4' && s[k + 3] == '0' {
            proof {
                assert(s@.subrange(k as int, k + 4) =~= seq!['\\', '0', '4', '0']);
            }
            push_char(&mut out, ' ');
            proof {
                assert(out@ + unescape_spaces(s@.skip(k + 4)) =~= unescape_spaces(s@));
            }
            k = k + 4;
        } else {
            proof {
                if s.len() - k >= 4 && s@.subrange(k as int, k + 4) == seq!['\\', '0', '4', '0'] {
                    assert(s@.subrange(k as int, k + 4)[0] == s@[k as int]);
                    assert(s@.subrange(k as int, k + 4)[1] == s@[k + 1]);
                    assert(s@.subrange(k as int, k + 4)[2] == s@[k + 2]);
                    assert(s@.subrange(k as int, k + 4)[3] == s@[k + 3]);
                }
            }
            push_char(&mut out, s[k]);
            proof {
                assert(out@ + unescape_spaces(s@.skip(k + 1)) =~= unescape_spaces(s@));
            }
            k = k + 1;
        }
    }
    proof {
        assert(s@.skip(k as int) =~= Seq::<char>::empty());
        assert(out@ =~= unescape_spaces(s@));
    }
    out
}

/// `roots` after the mount-table line `line`.
fn add_mount(roots: &mut Vec<(String, FsPath)>, line: &Vec<char>, Ghost(home_text): Ghost<Seq<char>>)
    requires
        root_texts(old(roots)@, home_text),
    ensures
        roots_model(final(roots)@) == add_mount_line(roots_model(old(roots)@), line@),
        root_texts(final(roots)@, home_text),
{
    let ghost before = roots_model(roots@);
    let f = line_fields(line);
    if f.len() < 3 {
        return ;
    }
    proof {
        assert(f@[2]@ == fields(line@)[2]);
    }
    if !real_filesystem(&f[2]) {
        return ;
    }
    proof {
        assert(f@[1]@ == fields(line@)[1]);
        assert(f@[2]@ == fields(line@)[2]);
    }
    let text = unescape(&f[1]);
    let p = FsPath::parse(text.as_str());
    let mut i: usize = 0;
    while i < roots.len()
        invariant
            i <= roots.len(),
            before == roots_model(roots@),
            before == roots_model(old(roots)@),
            fields(line@).len() >= 3,
            is_real_filesystem(fields(line@)[2]),
            p@ == parse_path(unescape_spaces(fields(line@)[1])),
            text@ == unescape_spaces(fields(line@)[1]),
            forall|j: int| 0 <= j < i ==> #[trigger] before[j].1 != p@,
            roots@ == old(roots)@,
            root_texts(old(roots)@, home_text),
            p.text@ == text@,
        decreases roots.len() - i,
    {
        if roots[i].1.same_as(&p) {
            proof {
                assert(before[i as int].1 == p@);
            }
            return ;
        }
        i = i + 1;
    }
    let ghost old_roots = roots@;
    roots.push((text, p));
    proof {
        assert(roots_model(roots@) =~= before.push((roots@.last().0@, p@)));
        assert forall|i: int| 2 <= i < roots@.len() implies #[trigger] roots@[i].1.text@
            == roots@[i].0@ by {
            if i < old_roots.len() {
                assert(roots@[i] == old_roots[i]);
            }
        }
    }
}

/// Quick-access scan roots: the user's home directory, the filesystem
/// root, and every other real (non-virtual) mounted filesystem listed in
/// `mounts`, the text of the mount table.
pub fn roots_from_mounts(home: &FsPath, mounts: &str) -> (r: Vec<(String, FsPath)>)
    ensures
        roots_model(r@) == mount_roots(home@, mounts@),
        root_texts(r@, home.text@),
{
    proof {
        reveal_strlit("Home");
        reveal_strlit("Filesystem (/)");
    }
    let mut roots: Vec<(String, FsPath)> = Vec::new();
    roots.push((String::from_str("Home"), home.clone()));
    let slash = crate::path::from_parts(true, Vec::new());
    proof {
        assert(crate::path::part_views(slash.parts@) =~= Seq::<Seq<char>>::empty());
        assert(slash@ =~= root_path());
        assert(crate::path::join_with_slash(Seq::<Seq<char>>::empty()) =~= Seq::<char>::empty());
        assert(slash.text@ =~= seq!['/']);
    }
    roots.push((String::from_str("Filesystem (/)"), slash));
    let chars = chars_of(mounts);
    let ghost text = chars@;
    proof {
        assert(roots_model(roots@) =~= initial_roots(home@));
        assert(text.take(0) =~= Seq::<char>::empty());
    }
    let mut line: Vec<char> = Vec::new();
    let ghost mut done: Seq<Seq<char>> = Seq::empty();
    let mut i: usize = 0;
    while i < chars.len()
        invariant
            i <= chars.len(),
            text == chars@,
            split_on(text.take(i as int), '\n') == done.push(line@),
            roots_model(roots@) == roots_after(home@, done),
            root_texts(roots@, home.text@),
        decreases chars.len() - i,
    {
        let c = chars[i];
        proof {
            assert(text.take(i + 1).drop_last() =~= text.take(i as int));
            assert(text.take(i + 1).last() == c);
        }
        if c == '\n' {
            add_mount(&mut roots, &line, Ghost(home.text@));
            proof {
                assert(done.push(line@).drop_last() =~= done);
                done = done.push(line@);
            }
            line = Vec::new();
            proof {
                assert(line@ =~= Seq::<char>::empty());
            }
        } else {
            let ghost before = line@;
            line.push(c);
            proof {
                assert(done.push(before).update(done.len() as int, before.push(c)) =~= done.push(
                    line@,
                ));
            }
        }
        i = i + 1;
    }
    add_mount(&mut roots, &line, Ghost(home.text@));
    proof {
        assert(text.take(chars.len() as int) =~= text);
        let all = done.push(line@);
        assert(all.drop_last() =~= done);
    }
    roots
}


/// Law: the quick-pick list always starts with home and the filesystem
/// root, whatever the mount table says, and every volume it adds after
/// them is at a path listed nowhere before it.
pub proof fn lemma_roots_start_with_home(home: PathModel, mounts: Seq<char>)
    ensures
        mount_roots(home, mounts).len() >= 2,
        mount_roots(home, mounts)[0] == ("Home"@, home),
        mount_roots(home, mounts)[1] == ("Filesystem (/)"@, root_path()),
        forall|i: int, j: int|
            0 <= i < j < mount_roots(home, mounts).len() && 2 <= j ==> #[trigger] mount_roots(
                home,
                mounts,
            )[i].1 != #[trigger] mount_roots(home, mounts)[j].1,
{
    lemma_roots_after(home, split_on(mounts, '\n'));
}

proof fn lemma_roots_after(home: PathModel, lines: Seq<Seq<char>>)
    ensures
        roots_after(home, lines).len() >= 2,
        roots_after(home, lines)[0] == ("Home"@, home),
        roots_after(home, lines)[1] == ("Filesystem (/)"@, root_path()),
        forall|i: int, j: int|
            0 <= i < j < roots_after(home, lines).len() && 2 <= j ==> #[trigger] roots_after(
                home,
                lines,
            )[i].1 != #[trigger] roots_after(home, lines)[j].1,
    decreases lines.len(),
{
    if lines.len() > 0 {
        lemma_roots_after(home, lines.drop_last());
        let r = roots_after(home, lines.drop_last());
        let r2 = roots_after(home, lines);
        assert forall|i: int, j: int| 0 <= i < j < r2.len() && 2 <= j implies #[trigger] r2[i].1
            != #[trigger] r2[j].1 by {
            if r2.len() > r.len() && j == r.len() {
                assert(r2[i] == r[i]);
            } else {
                assert(r2[i] == r[i]);
                assert(r2[j] == r[j]);
            }
        }
    }
}

} // verus!
