use tidyrs::order::Order;
use tidyrs::paths::{extension, stem, FilePath};

fn path(s: &str) -> FilePath {
    FilePath::new(s)
}

fn parts(s: &str) -> Vec<String> {
    path(s).parse().parts.into_iter().map(|p| String::from_utf8(p).unwrap()).collect()
}

#[test]
fn paths_are_split_as_std_splits_them() {
    for s in [
        "", "/", "//", "a", "/a", "a/", "/a//b/", "./a", "a/./b", "a/.", ".", "..", "../a", "/..",
        "/./a", "a/../b", "//a/b//", "./.", "/.", "a/b/..",
    ] {
        let expected: Vec<String> = std::path::Path::new(s)
            .components()
            .map(|c| c.as_os_str().to_str().unwrap().to_string())
            .collect();
        assert_eq!(parts(s), expected, "components of {s:?}");
        assert_eq!(path(s).depth(), expected.len());
    }
}

#[test]
fn parents_and_names_are_those_of_std() {
    for s in ["", "/", "a", "/a", "a/b", "/a//b/", "a/./b/.", "..", "/a/..", "a/../b", "./a"] {
        let p = std::path::Path::new(s);
        let parent = p.parent().map(|q| q.to_str().unwrap().as_bytes().to_vec());
        assert_eq!(path(s).parent().map(|q| q.bytes), parent, "parent of {s:?}");
        let name = p.file_name().map(|n| n.to_str().unwrap().as_bytes().to_vec());
        assert_eq!(path(s).file_name(), name, "name of {s:?}");
    }
}

#[test]
fn stems_and_extensions_are_those_of_std() {
    for s in ["a.txt", "a", ".hidden", "a.tar.gz", "a.", "..b", ".a.b"] {
        let p = std::path::Path::new(s);
        let name = s.as_bytes().to_vec();
        let st = p.file_stem().map(|n| n.to_str().unwrap().as_bytes().to_vec()).unwrap();
        assert_eq!(stem(&name), st, "stem of {s:?}");
        let ext = p.extension().map(|n| n.to_str().unwrap().as_bytes().to_vec());
        assert_eq!(extension(&name), ext, "extension of {s:?}");
    }
}

#[test]
fn joining_is_that_of_std() {
    for (a, b) in [("/a", "b"), ("/a/", "b"), ("", "b"), ("/a", "/b"), ("a", ""), ("/", "x")] {
        let expected = std::path::Path::new(a).join(b);
        let joined = path(a).join(b.as_bytes());
        assert_eq!(joined.bytes, expected.to_str().unwrap().as_bytes().to_vec());
    }
}

#[test]
fn prefixes_go_by_components() {
    assert!(path("/a/b").starts_with(&path("/a")));
    assert!(path("/a/b").starts_with(&path("/a/./b/")));
    assert!(!path("/ab").starts_with(&path("/a")));
    assert_eq!(path("/a/b//c/").strip_prefix(&path("/a")).unwrap().bytes, b"b//c".to_vec());
    assert_eq!(path("/a").strip_prefix(&path("/a")).unwrap().bytes, b"".to_vec());
    assert!(path("/a").strip_prefix(&path("/b")).is_none());
}

#[test]
fn paths_are_ordered_as_std_orders_them() {
    let all = ["", "/", "a", "a/b", "a-b", "/a", "..", ".", "./a", "a/./b", "b", "/a/b", "../a"];
    for a in all {
        for b in all {
            let expected = if std::path::Path::new(a) < std::path::Path::new(b) {
                Order::Less
            } else if std::path::Path::new(a) > std::path::Path::new(b) {
                Order::Greater
            } else {
                Order::Equal
            };
            assert_eq!(path(a).order(&path(b)), expected, "{a:?} against {b:?}");
            assert_eq!(path(a) == path(b), expected == Order::Equal);
        }
    }
}
