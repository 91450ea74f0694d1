use region_means::name::track_name;
use region_means::track::distinct_tracks;
use std::path::Path;

fn strings(items: &[&str]) -> Vec<String> {
    items.iter().map(|s| s.to_string()).collect()
}

#[test]
fn repeated_path_is_processed_once() {
    let order = distinct_tracks(&strings(&["A", "B", "A"]));
    assert_eq!(order, strings(&["A", "B"]));
}

#[test]
fn tracks_come_in_ascending_order() {
    let order = distinct_tracks(&strings(&["b.bw", "c.bw", "a.bw"]));
    assert_eq!(order, strings(&["a.bw", "b.bw", "c.bw"]));
}

#[test]
fn order_of_the_paths_given_plays_no_part() {
    let one = distinct_tracks(&strings(&["x/2.bw", "x/1.bw", "y/1.bw", "x/2.bw"]));
    let two = distinct_tracks(&strings(&["y/1.bw", "x/2.bw", "x/1.bw"]));
    assert_eq!(one, two);
    assert_eq!(one, strings(&["x/1.bw", "x/2.bw", "y/1.bw"]));
}

#[test]
fn prefix_comes_first() {
    let order = distinct_tracks(&strings(&["ab", "a", "abc", ""]));
    assert_eq!(order, strings(&["", "a", "ab", "abc"]));
}

#[test]
fn order_is_by_code_point() {
    let order = distinct_tracks(&strings(&["é", "z", "Z", "a", "日本", "~"]));
    assert_eq!(order, strings(&["Z", "a", "z", "~", "é", "日本"]));
}

#[test]
fn order_agrees_with_sort_and_dedup() {
    let paths = strings(&["t9", "t10", "t1", "t9", "T1", "t1", "t", "t10"]);
    let mut expected = paths.clone();
    expected.sort();
    expected.dedup();
    assert_eq!(distinct_tracks(&paths), expected);
}

#[test]
fn no_paths_give_no_tracks() {
    assert_eq!(distinct_tracks(&vec![]), Vec::<String>::new());
}

#[test]
fn all_equal_paths_give_one_track() {
    assert_eq!(distinct_tracks(&strings(&["a", "a", "a"])), strings(&["a"]));
}

#[test]
fn name_is_the_file_stem() {
    assert_eq!(track_name("signal.bw"), Some("signal".to_string()));
    assert_eq!(track_name("/data/tracks/h3k27ac.bigwig"), Some("h3k27ac".to_string()));
    assert_eq!(track_name("relative/dir/sample"), Some("sample".to_string()));
}

#[test]
fn only_the_last_extension_is_dropped() {
    assert_eq!(track_name("a/b.tar.gz"), Some("b.tar".to_string()));
    assert_eq!(track_name("sample.rep1.bw"), Some("sample.rep1".to_string()));
}

#[test]
fn leading_dot_is_no_extension() {
    assert_eq!(track_name(".hidden"), Some(".hidden".to_string()));
    assert_eq!(track_name("dir/.hidden.bw"), Some(".hidden".to_string()));
}

#[test]
fn trailing_dot_is_an_empty_extension() {
    assert_eq!(track_name("name."), Some("name".to_string()));
    assert_eq!(track_name("..."), Some("..".to_string()));
}

#[test]
fn separators_and_dot_segments_at_the_end_are_passed_over() {
    assert_eq!(track_name("tracks/a.bw/"), Some("a".to_string()));
    assert_eq!(track_name("tracks/a.bw/."), Some("a".to_string()));
    assert_eq!(track_name("tracks/a.bw//./"), Some("a".to_string()));
    assert_eq!(track_name("./a.bw"), Some("a".to_string()));
}

#[test]
fn path_without_file_name_has_no_track_name() {
    assert_eq!(track_name(""), None);
    assert_eq!(track_name("/"), None);
    assert_eq!(track_name("."), None);
    assert_eq!(track_name("./"), None);
    assert_eq!(track_name("/."), None);
    assert_eq!(track_name(".."), None);
    assert_eq!(track_name("a/.."), None);
    assert_eq!(track_name("a/../"), None);
}

#[test]
fn name_may_hold_any_character() {
    assert_eq!(track_name("données/été.bw"), Some("été".to_string()));
    assert_eq!(track_name("a b/c d.e f"), Some("c d".to_string()));
}

#[test]
fn name_agrees_with_the_stem_of_the_path() {
    let paths = [
        "", "/", ".", "..", "...", "./", "/.", "a", "a.", ".a", "a.b", "a.b.c", "/a/b.c", "a/b/",
        "a/b/.", "a//b", "a/./b", "a/.b", "a/..", "../a", "./.", "a/b.c/..", "x.y/z", "/.x/",
        "..a", "a..", "a..b", "/a/b/c.d.e/", "é.ü", "//", "/./", "a/.//", ".//a.b",
    ];
    for p in paths {
        let expected = Path::new(p).file_stem().map(|s| s.to_str().unwrap().to_string());
        assert_eq!(track_name(p), expected, "path {:?}", p);
    }
}
