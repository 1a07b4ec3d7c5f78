use tide_clean_path::clean;
use tide_clean_path::has_ext;
use tide_clean_path::CleanPath;
use tide_clean_path::Outcome;

fn expect_redirect(given: &str, want: &str) {
    match CleanPath.canonicalize(given) {
        Outcome::Redirect(target) => {
            assert_eq!(target, want, "for {}", given);
        }
        Outcome::Unchanged => panic!("expected a redirect for {}", given),
    }
}

fn expect_unchanged(given: &str) {
    match CleanPath.canonicalize(given) {
        Outcome::Unchanged => {}
        Outcome::Redirect(target) => {
            panic!("expected {} to pass through, got redirect to {}", given, target)
        }
    }
}

#[test]
fn test_clean() {
    let cases = vec![
        ("//", "/"),
        ("///", "/"),
        ("//a//b//", "/a/b/"),
        ("//a//b//.", "/a/b/"),
        ("//a//b//./", "/a/b/"),
        ("//m.js", "/m.js"),
        ("/a//b", "/a/b/"),
        ("/a//b/", "/a/b/"),
        ("/a//b//", "/a/b/"),
        ("/a//m.js", "/a/m.js"),
        ("/m.", "/m./"),
    ];
    for (given, want) in cases.iter() {
        expect_redirect(given, want);
    }
}

#[test]
fn test_pristine() {
    let cases = vec!["/", "/a/", "/a/b/", "/m.js", "/m./"];
    for given in cases.iter() {
        expect_unchanged(given);
    }
}

#[test]
fn test_dot_segments() {
    expect_redirect("/.", "/");
    expect_redirect("/..", "/");
    expect_redirect("/./", "/");
    expect_redirect("/../", "/");
    expect_redirect("/../foo", "/foo/");
    expect_redirect("/a/./b/", "/a/b/");
    expect_redirect("/a/b/../c.js", "/a/c.js");
    expect_redirect("/a/../../b/", "/b/");
    expect_redirect("/..//..", "/");
}

#[test]
fn test_no_extension_gets_trailing_slash() {
    expect_redirect("/a", "/a/");
    expect_redirect("/a/b", "/a/b/");
    // a trailing slash on the input always survives, extension or not
    expect_unchanged("/m.js/");
}

#[test]
fn test_has_ext() {
    assert!(has_ext("/m.js"));
    assert!(has_ext("/a/b.tar.gz"));
    assert!(!has_ext("/m."));
    assert!(!has_ext("/m.js/"));
    assert!(!has_ext("/a.b/c"));
    assert!(!has_ext("/"));
    assert!(!has_ext("/abc"));
}

#[test]
fn test_clean_exact() {
    assert_eq!(clean("/"), "/");
    assert_eq!(clean("//"), "/");
    assert_eq!(clean("/.."), "/");
    assert_eq!(clean("/../a"), "/a");
    assert_eq!(clean("//a//b//"), "/a/b");
    assert_eq!(clean("/a/./b"), "/a/b");
    assert_eq!(clean("/a/b/.."), "/a");
    assert_eq!(clean("/a/../../b"), "/b");
    assert_eq!(clean("/m."), "/m.");
}

#[test]
fn test_clean_matches_path_clean() {
    let inputs = vec![
        "/",
        "//",
        "///",
        "/.",
        "/..",
        "/./",
        "/../",
        "/../foo",
        "/..//..",
        "//a//b//",
        "//a//b//.",
        "//a//b//./",
        "//m.js",
        "/a//b",
        "/a/./b",
        "/a/b/..",
        "/a/../../b",
        "/a//m.js",
        "/m.",
        "/m./",
        "/a/b/c/../../d",
        "/hidden/.././x.y/",
    ];
    for given in inputs.iter() {
        assert_eq!(clean(given), path_clean::clean(given), "for {}", given);
    }
}

#[test]
fn test_idempotent() {
    let inputs = vec![
        "/",
        "//",
        "///",
        "/.",
        "/..",
        "/../foo",
        "//a//b//.",
        "//m.js",
        "/a//b",
        "/m.",
        "/m./",
        "/a/b/../c.js",
    ];
    for given in inputs.iter() {
        if let Outcome::Redirect(target) = CleanPath.canonicalize(given) {
            expect_unchanged(&target);
        }
    }
}

#[test]
fn test_canonical_shape() {
    let inputs = vec!["/", "//", "/..", "/../foo", "//a//b//", "/m.", "/x/../y//z.gz"];
    for given in inputs.iter() {
        let target = match CleanPath.canonicalize(given) {
            Outcome::Redirect(target) => target,
            Outcome::Unchanged => given.to_string(),
        };
        assert!(target.starts_with('/'), "for {}", given);
        assert!(!target.contains("//"), "for {}", given);
        assert!(!target.contains("/./"), "for {}", given);
        assert!(!target.contains("/../"), "for {}", given);
        assert!(!target.ends_with("/.."), "for {}", given);
        assert!(!target.ends_with("/."), "for {}", given);
    }
}
