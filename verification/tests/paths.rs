use std::path::{Component, Path};

use costree::path::FsPath;
use costree::pathset::PathSet;

const SAMPLES: &[&str] = &[
    "", "/", "//", "a", "a/", "/a", "/a/", "/a/b", "/a//b", "/a/./b", "./a", "./", ".", "..",
    "../a", "a/..", "/a/../b", "a/b/c", "/.costree", "/a/b.txt", "x/./", "/./", "././a", "a/.",
    "a b/c d", "/ü/ñ",
];

/// What `Path` makes of the text: rooted or not, and its components.
fn std_parts(s: &str) -> (bool, Vec<String>) {
    let path = Path::new(s);
    let mut parts = Vec::new();
    for c in path.components() {
        match c {
            Component::RootDir | Component::Prefix(_) => {}
            Component::CurDir => parts.push(".".to_string()),
            Component::ParentDir => parts.push("..".to_string()),
            Component::Normal(n) => parts.push(n.to_string_lossy().into_owned()),
        }
    }
    (path.has_root(), parts)
}

fn ours(p: &FsPath) -> (bool, Vec<String>) {
    (p.absolute, p.parts.clone())
}

#[test]
fn parse_agrees_with_std_path_components() {
    for s in SAMPLES {
        assert_eq!(ours(&FsPath::parse(s)), std_parts(s), "text {s:?}");
    }
}

#[test]
fn file_name_agrees_with_std_path() {
    for s in SAMPLES {
        let expected = Path::new(s).file_name().map(|n| n.to_string_lossy().into_owned());
        assert_eq!(FsPath::parse(s).file_name(), expected, "text {s:?}");
    }
}

#[test]
fn parent_agrees_with_std_path() {
    for s in SAMPLES {
        let expected = Path::new(s).parent().map(|q| std_parts(q.to_str().unwrap()));
        assert_eq!(FsPath::parse(s).parent().map(|q| ours(&q)), expected, "text {s:?}");
    }
}

#[test]
fn starts_with_agrees_with_std_path() {
    for a in SAMPLES {
        for b in SAMPLES {
            let expected = Path::new(a).starts_with(Path::new(b));
            assert_eq!(FsPath::parse(a).starts_with(&FsPath::parse(b)), expected, "{a:?} {b:?}");
        }
    }
}

#[test]
fn join_agrees_with_std_path() {
    for a in SAMPLES {
        for b in SAMPLES {
            let joined = Path::new(a).join(b);
            let expected = std_parts(joined.to_str().unwrap());
            assert_eq!(ours(&FsPath::parse(a).join(&FsPath::parse(b))), expected, "{a:?} {b:?}");
        }
    }
}

#[test]
fn rebased_agrees_with_strip_prefix_and_join() {
    for s in SAMPLES {
        for from in SAMPLES {
            for to in ["/n", "n", "", "/"] {
                let expected = Path::new(s)
                    .strip_prefix(from)
                    .ok()
                    .map(|rel| std_parts(Path::new(to).join(rel).to_str().unwrap()));
                let got = FsPath::parse(s)
                    .rebased(&FsPath::parse(from), &FsPath::parse(to))
                    .map(|q| ours(&q));
                assert_eq!(got, expected, "{s:?} from {from:?} to {to:?}");
            }
        }
    }
}

#[test]
fn equality_agrees_with_std_path() {
    for a in SAMPLES {
        for b in SAMPLES {
            let expected = Path::new(a) == Path::new(b);
            assert_eq!(FsPath::parse(a) == FsPath::parse(b), expected, "{a:?} {b:?}");
            assert_eq!(FsPath::parse(a).same_as(&FsPath::parse(b)), expected, "{a:?} {b:?}");
        }
    }
}

#[test]
fn display_joins_components() {
    assert_eq!(FsPath::parse("/").display(), "/");
    assert_eq!(FsPath::parse("/a//b/").display(), "/a/b");
    assert_eq!(FsPath::parse("./a/./b").display(), "./a/b");
    assert_eq!(FsPath::parse("a/../b").display(), "a/../b");
    assert_eq!(FsPath::parse("").display(), "");
}

#[test]
fn ancestor_keeps_leading_components() {
    let p = FsPath::parse("/a/b/c");
    assert_eq!(p.ancestor(0), FsPath::parse("/"));
    assert_eq!(p.ancestor(2), FsPath::parse("/a/b"));
    assert_eq!(p.ancestor(3), p);
}

#[test]
fn path_set_holds_each_path_once() {
    let mut set = PathSet::new();
    assert!(set.is_empty());
    assert!(set.insert(FsPath::parse("/a")));
    assert!(set.insert(FsPath::parse("/a/b")));
    assert!(!set.insert(FsPath::parse("/a//b/")));
    assert_eq!(set.len(), 2);
    assert!(set.contains(&FsPath::parse("/a/b")));
    assert!(!set.contains(&FsPath::parse("/a/c")));
    assert!(set.remove(&FsPath::parse("/a")));
    assert!(!set.remove(&FsPath::parse("/a")));
    assert_eq!(set.len(), 1);
    assert_eq!(set.paths(), &vec![FsPath::parse("/a/b")]);
}
