use n2::canon::{canon_path, canon_path_fast};

fn assert_canon_path_eq(left: &str, right: &str) {
    assert_eq!(canon_path(left.as_bytes()), right.as_bytes().to_vec(), "canon of {:?}", left);
    let mut v = left.as_bytes().to_vec();
    canon_path_fast(&mut v);
    assert_eq!(v, right.as_bytes().to_vec(), "canon in place of {:?}", left);
}

#[test]
fn noop() {
    assert_canon_path_eq("foo", "foo");

    assert_canon_path_eq("foo/bar", "foo/bar");
}

#[test]
fn dot() {
    assert_canon_path_eq("./foo", "foo");
    assert_canon_path_eq("foo/.", "foo/");
    assert_canon_path_eq("foo/./bar", "foo/bar");
    assert_canon_path_eq("./", ".");
    assert_canon_path_eq("./.", ".");
    assert_canon_path_eq("././", ".");
    assert_canon_path_eq("././.", ".");
    assert_canon_path_eq(".", ".");
}

#[test]
fn not_dot() {
    assert_canon_path_eq("t/.hidden", "t/.hidden");
    assert_canon_path_eq("t/.._lib.c.o", "t/.._lib.c.o");
}

#[test]
fn slash() {
    assert_canon_path_eq("/foo", "/foo");
    assert_canon_path_eq("foo//bar", "foo/bar");
}

#[test]
fn parent() {
    assert_canon_path_eq("foo/../bar", "bar");

    assert_canon_path_eq("/foo/../bar", "/bar");
    assert_canon_path_eq("../foo", "../foo");
    assert_canon_path_eq("../foo/../bar", "../bar");
    assert_canon_path_eq("../../bar", "../../bar");
    assert_canon_path_eq("./../foo", "../foo");
    assert_canon_path_eq("foo/..", ".");
    assert_canon_path_eq("foo/../", ".");
    assert_canon_path_eq("foo/../../", "../");
    assert_canon_path_eq("foo/../../bar", "../bar");
}

#[test]
fn canon_backslash_separators() {
    assert_canon_path_eq("foo\\..\\bar", "bar");
    assert_canon_path_eq("foo\\.\\bar", "foo\\bar");
}

#[test]
fn canon_is_idempotent_on_examples() {
    for p in ["foo/../bar", "./a/./b/", "../../x", "a//b//c", "/x/../y", "foo/..", "."] {
        let once = canon_path(p.as_bytes());
        let twice = canon_path(&once);
        assert_eq!(once, twice, "canon twice of {:?}", p);
    }
}
