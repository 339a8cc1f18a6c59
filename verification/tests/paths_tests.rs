use vidplay::paths::{file_name, join_path, sort_names, sorted_entry_paths};

fn strings(v: &[&str]) -> Vec<String> {
    v.iter().map(|s| s.to_string()).collect()
}

#[test]
fn file_name_is_the_last_normal_component() {
    assert_eq!(file_name("/videos/a.mp4"), Some("a.mp4".to_string()));
    assert_eq!(file_name("/videos/show/"), Some("show".to_string()));
    assert_eq!(file_name("rel//x.srt"), Some("x.srt".to_string()));
    assert_eq!(file_name("a/."), Some("a".to_string()));
    assert_eq!(file_name("a/./"), Some("a".to_string()));
    assert_eq!(file_name("/"), None);
    assert_eq!(file_name(""), None);
    assert_eq!(file_name("."), None);
    assert_eq!(file_name("./"), None);
    assert_eq!(file_name(".."), None);
    assert_eq!(file_name("a/.."), None);
    assert_eq!(file_name("..."), Some("...".to_string()));
}

#[test]
fn file_name_agrees_with_std_path() {
    for p in ["/a/b", "a/b/", "//", "a/./.", "x/../y", ".hidden", "a/..b", "/.."] {
        let expected = std::path::Path::new(p).file_name().map(|n| n.to_string_lossy().into_owned());
        assert_eq!(file_name(p), expected, "{p}");
    }
}

#[test]
fn join_follows_path_join() {
    assert_eq!(join_path("/tmp", "shot.png"), "/tmp/shot.png");
    assert_eq!(join_path("/tmp/", "shot.png"), "/tmp/shot.png");
    assert_eq!(join_path("", "shot.png"), "shot.png");
    assert_eq!(join_path("/tmp", "/abs/shot.png"), "/abs/shot.png");
    for (b, n) in [("a", "b"), ("a/", "b"), ("", "b"), ("/", "b"), ("a", "")] {
        let expected = std::path::Path::new(b).join(n).to_string_lossy().into_owned();
        assert_eq!(join_path(b, n), expected, "{b:?} {n:?}");
    }
}

#[test]
fn joined_name_is_the_file_name() {
    for dir in ["", "/", "/home/me", "videos/"] {
        for name in ["a.mp4", "..x", "é.mkv"] {
            assert_eq!(file_name(&join_path(dir, name)), Some(name.to_string()));
        }
    }
}

#[test]
fn names_are_sorted_in_string_order() {
    assert_eq!(sort_names(strings(&["b", "a", "C", "a"])), strings(&["C", "a", "a", "b"]));
    assert_eq!(sort_names(Vec::new()), Vec::<String>::new());
}

#[test]
fn sorting_a_sorted_listing_changes_nothing() {
    let once = sort_names(strings(&["ep2.mkv", "ep10.mkv", "ep1.mkv"]));
    assert_eq!(sort_names(once.clone()), once);
}

#[test]
fn entry_paths_are_sorted_by_name() {
    let r = sorted_entry_paths("/d", strings(&["b.mp4", "a.mp4", "C.mp4"]));
    assert_eq!(r, strings(&["/d/C.mp4", "/d/a.mp4", "/d/b.mp4"]));
}
