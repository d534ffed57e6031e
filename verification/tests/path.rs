use static_serve::breadcrumbs::breadcrumbs;
use static_serve::path::{path_to_string, sanitize_path, split_segments};

fn sanitized(path: &str) -> String {
    path_to_string(&sanitize_path(path))
}

fn crumb(href: &str, label: &str) -> (String, String) {
    (href.to_string(), label.to_string())
}

#[test]
fn split_keeps_empty_pieces() {
    assert_eq!(split_segments("a//b"), vec!["a", "", "b"]);
    assert_eq!(split_segments(""), vec![""]);
    assert_eq!(split_segments("/"), vec!["", ""]);
    assert_eq!(split_segments("/x/"), vec!["", "x", ""]);
}

#[test]
fn sanitize_keeps_normal_components_in_order() {
    let path = sanitize_path("/a/b/c.txt");
    assert_eq!(path.components(), &vec!["a", "b", "c.txt"]);
    assert_eq!(path_to_string(&path), "./a/b/c.txt");
}

#[test]
fn sanitize_drops_parent_references() {
    assert_eq!(sanitized("/../../etc/passwd"), "./etc/passwd");
    assert_eq!(sanitized("../.."), ".");
    assert_eq!(sanitized("/a/../b"), "./a/b");
    assert_eq!(sanitized("a/.."), "./a");
}

#[test]
fn sanitize_drops_root_current_and_empty_segments() {
    assert_eq!(sanitized("/"), ".");
    assert_eq!(sanitized(""), ".");
    assert_eq!(sanitized("///a///b///"), "./a/b");
    assert_eq!(sanitized("./a/./b/."), "./a/b");
    assert_eq!(sanitized("//etc"), "./etc");
}

#[test]
fn sanitize_keeps_names_that_only_look_special() {
    assert_eq!(sanitized("/.../x"), "./.../x");
    assert_eq!(sanitized("/..a/.b/c."), "./..a/.b/c.");
    assert_eq!(sanitized("/.hidden"), "./.hidden");
}

#[test]
fn sanitize_keeps_a_drive_style_prefix_below_the_root() {
    assert_eq!(sanitized("C:/Windows/../secret"), "./C:/Windows/secret");
    assert_eq!(sanitized("/C:/x"), "./C:/x");
}

#[test]
fn sanitize_handles_names_beyond_ascii() {
    let path = sanitize_path("/caf\u{e9}/\u{65e5}\u{672c}/../x");
    assert_eq!(path.components(), &vec!["caf\u{e9}", "\u{65e5}\u{672c}", "x"]);
    assert_eq!(path_to_string(&path), "./caf\u{e9}/\u{65e5}\u{672c}/x");
}

#[test]
fn sanitize_is_idempotent() {
    for raw in ["/", "", "/a/../b/./c//d", "../../x", "./y/", "C:/z", "/a b/c"] {
        let once = sanitize_path(raw);
        let twice = sanitize_path(&path_to_string(&once));
        assert_eq!(once.components(), twice.components());
        assert_eq!(path_to_string(&once), path_to_string(&twice));
    }
}

#[test]
fn sanitized_path_never_names_the_parent() {
    for raw in ["/../..", "..", "/a/../../..", "/./../x/..", "..\u{2f}..", "/..//.."] {
        let path = sanitize_path(raw);
        for segment in path.components() {
            assert!(!segment.is_empty());
            assert_ne!(segment, ".");
            assert_ne!(segment, "..");
            assert!(!segment.contains('/'));
        }
        assert!(path_to_string(&path).starts_with('.'));
    }
}

#[test]
fn split_first_of_a_path() {
    let (first, rest) = sanitize_path("/a/b/c").split_first().unwrap();
    assert_eq!(first, "a");
    assert_eq!(path_to_string(&rest), "./b/c");
    assert!(sanitize_path("/").split_first().is_none());
    let (only, root) = sanitize_path("x").split_first().unwrap();
    assert_eq!(only, "x");
    assert_eq!(path_to_string(&root), ".");
}

#[test]
fn breadcrumbs_of_the_root() {
    assert_eq!(breadcrumbs("/"), vec![crumb("/", "root")]);
    assert_eq!(breadcrumbs(""), vec![crumb("/", "root")]);
    assert_eq!(breadcrumbs("."), vec![crumb("/", "root")]);
}

#[test]
fn breadcrumbs_accumulate_prefixes() {
    assert_eq!(
        breadcrumbs("./a/b/c"),
        vec![crumb("/", "root"), crumb("a", "a"), crumb("a/b", "b"), crumb("a/b/c", "c")]
    );
}

#[test]
fn breadcrumbs_sanitize_first() {
    assert_eq!(
        breadcrumbs("/x/../y//z/."),
        vec![crumb("/", "root"), crumb("x", "x"), crumb("x/y", "y"), crumb("x/y/z", "z")]
    );
}

#[test]
fn breadcrumbs_count_one_more_than_components() {
    for raw in ["/", "/a", "/a/b", "/a/../b/c/./d", "..", "a//b"] {
        let components = sanitize_path(raw).components().len();
        let trail = breadcrumbs(raw);
        assert_eq!(trail.len(), 1 + components);
        assert_eq!(trail[0], crumb("/", "root"));
    }
}
