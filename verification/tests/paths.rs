use asset_pipeline::paths::{normal_components_of, path_key_of};
use asset_pipeline::paths::{extension, file_name, file_stem, join, with_extension};
use asset_pipeline::platforms::common::sprites_dir;

fn s(x: &str) -> String {
    x.to_string()
}

#[test]
fn join_puts_one_separator_between() {
    assert_eq!(join("out", "android"), "out/android");
    assert_eq!(join("out/", "android"), "out/android");
    assert_eq!(join("", "android"), "android");
    assert_eq!(join("out", "/abs"), "/abs");
    assert_eq!(join("out", ""), "out/");
}

#[test]
fn join_matches_std() {
    for (base, comp) in [("a", "b"), ("a/", "b"), ("", "b"), ("a", "/b"), ("/", "x"), ("a//", "b")] {
        let expected = std::path::Path::new(base).join(comp);
        assert_eq!(join(base, comp), expected.to_str().unwrap());
    }
}

#[test]
fn sprites_dir_is_under_resources() {
    assert_eq!(sprites_dir("res"), "res/sprites");
    assert_eq!(sprites_dir("res/"), "res/sprites");
}

#[test]
fn file_name_cases() {
    assert_eq!(file_name("a/b.c"), Some(s("b.c")));
    assert_eq!(file_name("a/b/"), Some(s("b")));
    assert_eq!(file_name("a/b/."), Some(s("b")));
    assert_eq!(file_name("a/b/./"), Some(s("b")));
    assert_eq!(file_name("./x"), Some(s("x")));
    assert_eq!(file_name("x"), Some(s("x")));
    assert_eq!(file_name(".."), None);
    assert_eq!(file_name("a/.."), None);
    assert_eq!(file_name("/"), None);
    assert_eq!(file_name(""), None);
    assert_eq!(file_name("."), None);
    assert_eq!(file_name("/."), None);
}

#[test]
fn file_name_matches_std() {
    for p in ["a/b.c", "a/b/", "a/b/.", "./x", "x", "..", "a/..", "/", "", ".", "/.", "a//b", ".hidden", "a/.b.c"] {
        let expected = std::path::Path::new(p).file_name().map(|n| n.to_str().unwrap().to_string());
        assert_eq!(file_name(p), expected, "{p:?}");
    }
}

#[test]
fn stem_and_extension_cases() {
    assert_eq!(file_stem("dir/a.tar.gz"), Some(s("a.tar")));
    assert_eq!(extension("dir/a.tar.gz"), Some(s("gz")));
    assert_eq!(file_stem(".hidden"), Some(s(".hidden")));
    assert_eq!(extension(".hidden"), None);
    assert_eq!(file_stem("foo."), Some(s("foo")));
    assert_eq!(extension("foo."), Some(s("")));
    assert_eq!(file_stem("foo"), Some(s("foo")));
    assert_eq!(extension("foo"), None);
    assert_eq!(file_stem("/"), None);
    assert_eq!(extension(".."), None);
}

#[test]
fn stem_and_extension_match_std() {
    for p in ["dir/a.tar.gz", ".hidden", "foo.", "foo", "/", "..", "a/b.c/", "x/.y.z", "a.b/c"] {
        let path = std::path::Path::new(p);
        let stem = path.file_stem().map(|n| n.to_str().unwrap().to_string());
        let ext = path.extension().map(|n| n.to_str().unwrap().to_string());
        assert_eq!(file_stem(p), stem, "{p:?}");
        assert_eq!(extension(p), ext, "{p:?}");
    }
}

#[test]
fn with_extension_cases() {
    assert_eq!(with_extension("out/sprites/ui", "json"), "out/sprites/ui.json");
    assert_eq!(with_extension("out/sprites/ui.v2", "json"), "out/sprites/ui.json");
    assert_eq!(with_extension("out/sprites/.hidden", "png"), "out/sprites/.hidden.png");
    assert_eq!(with_extension("out/dir/", "png"), "out/dir.png");
    assert_eq!(with_extension("a.txt", ""), "a");
    assert_eq!(with_extension("", "json"), "");
    assert_eq!(with_extension("a/..", "json"), "a/..");
}

#[test]
fn with_extension_matches_std() {
    for p in ["out/sprites/ui", "out/sprites/ui.v2", "out/sprites/.hidden", "out/dir/", "", "a/..", "x/y/.", "a.b.c"] {
        for ext in ["json", "png", ""] {
            let expected = std::path::Path::new(p).with_extension(ext);
            assert_eq!(with_extension(p, ext), expected.to_str().unwrap(), "{p:?} {ext:?}");
        }
    }
}

#[test]
fn path_keys_follow_std_equality() {
    let paths = [
        "x", "x/", "a/./b", "a/b", "./a", "a", "/a", "//a", "/a/", "", ".", "./", "a//b", "a/b/.", "a/..",
        "a/../", "/", "/.", "..", "../a",
    ];
    for p in paths {
        for q in paths {
            let same = std::path::Path::new(p) == std::path::Path::new(q);
            assert_eq!(path_key_of(p) == path_key_of(q), same, "{p:?} {q:?}");
        }
        let expected: Vec<String> = std::path::Path::new(p)
            .components()
            .filter(|c| !matches!(c, std::path::Component::RootDir))
            .map(|c| c.as_os_str().to_str().unwrap().to_string())
            .collect();
        assert_eq!(normal_components_of(p), expected, "{p:?}");
    }
    assert_eq!(path_key_of("a/./b//"), "a/b");
    assert_eq!(path_key_of("//x/./y"), "/x/y");
    assert_eq!(path_key_of("./a/."), "./a");
}
