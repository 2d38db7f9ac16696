use xfiles::normalize;

#[test]
fn equivalent_spellings() {
    let a = normalize("/a/b/", "", "");
    assert_eq!(a, "/a/b");
    assert_eq!(normalize("/a/b", "", ""), a);
    assert_eq!(normalize("/a/./b", "", ""), a);
    assert_eq!(normalize("/a/c/../b", "", ""), a);
}

#[test]
fn root_floor() {
    assert_eq!(normalize("/..", "", ""), "/");
    assert_eq!(normalize("/../..", "", ""), "/");
}

#[test]
fn relative_resolution() {
    assert_eq!(normalize("x/y", "", "/home/u"), "/home/u/x/y");
}

#[test]
fn home_expansion() {
    assert_eq!(normalize("~/docs", "/home/u", ""), "/home/u/docs");
    assert_eq!(normalize("~", "/home/u", ""), "/home/u");
    assert_eq!(normalize("~other/x", "/home/other", ""), "/home/other/x");
}

#[test]
fn idempotent_on_samples() {
    let samples = ["", "/", "a/../..", "~/x/./y//z/..", "/a//b/./c/../d/", "x/y"];
    for p in samples.iter() {
        let once = normalize(p, "/home/u", "/cwd");
        let twice = normalize(&once, "/other", "/elsewhere");
        assert_eq!(twice, once);
    }
}

#[test]
fn degenerate_inputs_resolve_to_root() {
    assert_eq!(normalize("", "", ""), "/");
    assert_eq!(normalize("/", "", ""), "/");
    assert_eq!(normalize("//", "", ""), "/");
    assert_eq!(normalize(".", "", "/"), "/");
}

#[test]
fn double_dot_consumes_nearest_ancestor_only() {
    assert_eq!(normalize("a/../..", "", "/"), "/");
    assert_eq!(normalize("/a/b/../c", "", ""), "/a/c");
    assert_eq!(normalize("/a/b/../../c", "", ""), "/c");
}

#[test]
fn repeated_separators_collapse() {
    assert_eq!(normalize("///a////b//", "", ""), "/a/b");
}
