use sidebar_swatches::path::{Relation, TreePath};
use sidebar_swatches::path_map::{PathMap, PathSet};

fn path(text: &str) -> TreePath {
    let absolute = text.starts_with('/');
    let parts = text
        .split('/')
        .filter(|part| !part.is_empty())
        .map(|part| part.as_bytes().to_vec())
        .collect();
    TreePath::new(absolute, parts).unwrap()
}

#[test]
fn paths_start_with_their_ancestors() {
    assert!(path("/a/b").starts_with(&path("/a")));
    assert!(path("/a/b").starts_with(&path("/a/b")));
    assert!(path("/a/b").starts_with(&path("/")));
    assert!(!path("/ab").starts_with(&path("/a")));
    assert!(!path("/a").starts_with(&path("/a/b")));
    assert!(!path("/a/b").starts_with(&path("a")));
    assert!(!path("a/b").starts_with(&path("/a")));
    assert!(path("a/b").starts_with(&path("")));
}

#[test]
fn parents_drop_the_last_name() {
    assert_eq!(path("/a/b").parent(), Some(path("/a")));
    assert_eq!(path("/a").parent(), Some(path("/")));
    assert_eq!(path("/").parent(), None);
    assert_eq!(path("a").parent(), Some(path("")));
    assert_eq!(path("").parent(), None);
}

#[test]
fn paths_agree_with_those_of_the_standard_library() {
    let texts = [
        "", "/", "a", "a/b", "a/b.c", "/a", "/a/b", "/a.b/c", "/ab", "/a/B", "b", "a.b/c", "..", "a/..",
        "../a", "/..", "a/../b", "!", "a/!", "a/..b", "a/.b", "../..",
    ];
    for left in texts {
        for right in texts {
            let (l, r) = (std::path::Path::new(left), std::path::Path::new(right));
            let expected = match l.cmp(r) {
                std::cmp::Ordering::Less => Relation::Before,
                std::cmp::Ordering::Equal => Relation::Same,
                std::cmp::Ordering::Greater => Relation::After,
            };
            assert_eq!(path(left).compare(&path(right)), expected, "{} {}", left, right);
            assert_eq!(path(left).starts_with(&path(right)), l.starts_with(r), "{} {}", left, right);
            assert_eq!(path(left) == path(right), l == r, "{} {}", left, right);
        }
        let l = std::path::Path::new(left);
        let parent = l.parent().map(|parent| path(parent.to_str().unwrap()));
        assert_eq!(path(left).parent(), parent, "{}", left);
        let name = l.file_name().map(|name| name.to_str().unwrap().as_bytes().to_vec());
        assert_eq!(path(left).file_name().cloned(), name, "{}", left);
        assert_eq!(path(left).text(), left.as_bytes().to_vec());
        assert_eq!(path(left).is_absolute(), l.is_absolute());
    }
}

#[test]
fn extensions_agree_with_those_of_the_standard_library() {
    for name in ["a.rs", ".rs", "a.b.rs", "a.", "rs", "..rs", "a..b", ".a.b", "x.", "x", "..", "a/..", "...", "../a.b"] {
        let expected = std::path::Path::new(name)
            .extension()
            .map(|extension| extension.to_str().unwrap().as_bytes().to_vec());
        assert_eq!(path(name).extension(), expected, "{}", name);
    }
    assert_eq!(path("/").extension(), None);
}

#[test]
fn names_that_cannot_stand_in_a_path_are_refused() {
    for name in ["", ".", "a/b", "/"] {
        let parts = vec![b"a".to_vec(), name.as_bytes().to_vec()];
        assert_eq!(TreePath::new(true, parts), None, "{}", name);
    }
    for name in ["..", "...", ".a", "a"] {
        let parts = vec![name.as_bytes().to_vec()];
        assert!(TreePath::new(false, parts).is_some(), "{}", name);
    }
}

#[test]
fn the_way_back_comes_before_every_name() {
    assert_eq!(path("a/..").compare(&path("a/!")), Relation::Before);
    assert_eq!(path("a/!").compare(&path("a/..")), Relation::After);
    assert_eq!(path("a/..").compare(&path("a/..")), Relation::Same);
    assert_eq!(path("a/..").file_name(), None);
    assert_eq!(path("a/..").extension(), None);
}

#[test]
fn sets_hold_each_path_once() {
    let mut set = PathSet::new();
    for text in ["/b", "/a/c", "/a", "/b", "c", "/a/c"] {
        set.insert(path(text));
    }
    for text in ["/a", "/a/c", "/b", "c"] {
        assert!(set.contains(&path(text)));
    }
    assert!(!set.contains(&path("/c")));
    set.remove(&path("/c"));
    let copy = set.duplicate();
    set.remove(&path("/a"));
    assert!(!set.contains(&path("/a")));
    assert!(set.contains(&path("/a/c")));
    assert!(copy.contains(&path("/a")));
    set.insert(path("/a"));
    assert_eq!(format!("{:?}", set), format!("{:?}", copy));
}

#[test]
fn maps_hold_the_last_value_of_each_path() {
    let mut map: PathMap<u32> = PathMap::new();
    map.insert(path("/b"), 1);
    map.insert(path("/a"), 2);
    map.insert(path("/b"), 3);
    assert_eq!(map.get(&path("/a")), Some(&2));
    assert_eq!(map.get(&path("/b")), Some(&3));
    assert_eq!(map.get(&path("/c")), None);
    map.clear();
    assert_eq!(map.get(&path("/a")), None);
}
