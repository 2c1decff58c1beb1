use chapter_tracker::links::{
    adjacent_files_index, all_adjacent_suffixes, chapter_pad_widths, desired_links,
    link_file_name, reconcile_plan, widths_find,
};
use chapter_tracker::models::Episode;
use chapter_tracker::paths::{extension_of_path, join_path, strip_extension_path};
use chapter_tracker::numbers::{i64_to_dec, parse_i32, u64_to_dec};
use chapter_tracker::text::string_to_chars;

fn episode(id: i64, series: i64, name: &str, file: &str) -> Episode {
    Episode {
        id,
        series,
        number: id,
        name: String::from(name),
        file: String::from(file),
        volume: None,
        date_of_read: None,
    }
}

#[test]
fn link_name_scenario() {
    // Display name "Foo c7", id 42, file "/x/Foo c7.cbz", series pad width 3.
    let e = episode(42, 5, "Foo c7", "/x/Foo c7.cbz");
    let name = link_file_name(&e, Some(3));
    assert_eq!(name, "Foo c007 42.cbz");
}

#[test]
fn link_name_without_marker_is_unpadded() {
    let e = episode(3, 5, "Oneshot", "/x/Oneshot.cbz");
    let name = link_file_name(&e, Some(3));
    assert_eq!(name, "Oneshot 3.cbz");
}

#[test]
fn link_name_without_extension_has_none() {
    let e = episode(3, 5, "Foo c7", "/x/Foo c7");
    let name = link_file_name(&e, None);
    assert_eq!(name, "Foo c7 3");
}

#[test]
fn pad_width_is_the_series_maximum() {
    // Markers of digit-lengths 1, 3 and 2: every name pads to width 3.
    let eps = vec![
        episode(1, 5, "A c1", "/a/A c1.cbz"),
        episode(2, 5, "B c123", "/a/B c123.cbz"),
        episode(3, 5, "C c45", "/a/C c45.cbz"),
    ];
    let widths = chapter_pad_widths(&eps);
    assert_eq!(widths_find(&widths, 5).map(|i| widths[i].1), Some(3));
    let names: Vec<String> = vec![
        link_file_name(&eps[0], Some(3)),
        link_file_name(&eps[1], Some(3)),
        link_file_name(&eps[2], Some(3)),
    ];
    assert_eq!(names[0], "A c001 1.cbz");
    assert_eq!(names[1], "B c123 2.cbz");
    assert_eq!(names[2], "C c045 3.cbz");
}

#[test]
fn identical_names_get_distinct_links() {
    let e1 = episode(1, 5, "Foo c7", "/x/Foo c7.cbz");
    let e2 = episode(2, 5, "Foo c7", "/y/Foo c7.cbz");
    let n1 = link_file_name(&e1, Some(1));
    let n2 = link_file_name(&e2, Some(1));
    assert_ne!(n1, n2);
    assert_eq!(n1, "Foo c7 1.cbz");
    assert_eq!(n2, "Foo c7 2.cbz");
}

#[test]
fn desired_links_cover_adjacent_files() {
    let eps = vec![
        episode(42, 5, "Foo c7", "/x/Foo c7.cbz"),
        episode(9, 5, "Bar c123", "/y/Bar c123.cbz"),
    ];
    let widths = chapter_pad_widths(&eps);
    let adjacency: Vec<(i64, Vec<String>)> = vec![(5, vec![String::from("srt")])];
    let suffixes = all_adjacent_suffixes(&adjacency);
    let listed = vec![String::from("/x/Foo c7.srt"), String::from("/x/Foo c7.cbz")];
    let on_disk = adjacent_files_index(&listed, &suffixes);
    let links_dir = String::from("/links");
    let pairs = desired_links(&eps, &widths, &adjacency, &on_disk, &links_dir);
    assert_eq!(pairs.len(), 3);
    assert_eq!(pairs[0].0, "/links/Foo c007 42.srt");
    assert_eq!(pairs[0].1, "/x/Foo c7.srt");
    assert_eq!(pairs[1].0, "/links/Foo c007 42.cbz");
    assert_eq!(pairs[1].1, "/x/Foo c7.cbz");
    assert_eq!(pairs[2].0, "/links/Bar c123 9.cbz");
    assert_eq!(pairs[2].1, "/y/Bar c123.cbz");
}

#[test]
fn reconcile_removes_stale_and_creates_missing() {
    let desired = vec![
        (String::from("/links/a 1.cbz"), String::from("/x/a.cbz")),
        (String::from("/links/b 2.cbz"), String::from("/x/b.cbz")),
    ];
    let existing = vec![String::from("/links/stale"), String::from("/links/a 1.cbz")];
    let (removals, creations) = reconcile_plan(&existing, &desired);
    assert_eq!(removals, vec![String::from("/links/stale")]);
    assert_eq!(creations.len(), 1);
    assert_eq!(creations[0].0, "/links/b 2.cbz");
    assert_eq!(creations[0].1, "/x/b.cbz");
}

#[test]
fn reconcile_is_quiet_once_converged() {
    let desired = vec![
        (String::from("/links/a 1.cbz"), String::from("/x/a.cbz")),
        (String::from("/links/b 2.cbz"), String::from("/x/b.cbz")),
    ];
    let existing = vec![String::from("/links/a 1.cbz"), String::from("/links/b 2.cbz")];
    let (removals, creations) = reconcile_plan(&existing, &desired);
    assert_eq!(removals.len(), 0);
    assert_eq!(creations.len(), 0);
}

#[test]
fn later_desired_target_wins_for_one_link_path() {
    let desired = vec![
        (String::from("/links/a"), String::from("/x/old")),
        (String::from("/links/a"), String::from("/x/new")),
    ];
    let existing: Vec<String> = Vec::new();
    let (removals, creations) = reconcile_plan(&existing, &desired);
    assert_eq!(removals.len(), 0);
    assert_eq!(creations.len(), 1);
    assert_eq!(creations[0].0, "/links/a");
    assert_eq!(creations[0].1, "/x/new");
}

#[test]
fn path_helpers_follow_the_last_component() {
    assert_eq!(extension_of_path(&String::from("/a/b.tar.gz")), Some(String::from("gz")));
    assert_eq!(extension_of_path(&String::from("/a/.hidden")), None);
    assert_eq!(extension_of_path(&String::from("/a.d/name")), None);
    assert_eq!(extension_of_path(&String::from("name.")), Some(String::from("")));
    assert_eq!(strip_extension_path(&String::from("/a/b.tar.gz")), "/a/b.tar");
    assert_eq!(strip_extension_path(&String::from("/a/name")), "/a/name");
    assert_eq!(join_path(&String::from("dir"), &String::from("x")), "dir/x");
    assert_eq!(join_path(&String::from("dir/"), &String::from("x")), "dir/x");
    assert_eq!(join_path(&String::from(""), &String::from("x")), "x");
}

#[test]
fn decimal_helpers_render_and_parse() {
    assert_eq!(u64_to_dec(0), string_to_chars("0"));
    assert_eq!(u64_to_dec(9070), string_to_chars("9070"));
    assert_eq!(i64_to_dec(-42), string_to_chars("-42"));
    assert_eq!(parse_i32(&string_to_chars("123")), Some(123));
    assert_eq!(parse_i32(&string_to_chars("-7")), Some(-7));
    assert_eq!(parse_i32(&string_to_chars("+8")), Some(8));
    assert_eq!(parse_i32(&string_to_chars("")), None);
    assert_eq!(parse_i32(&string_to_chars("12a")), None);
    assert_eq!(parse_i32(&string_to_chars("2147483647")), Some(2147483647));
    assert_eq!(parse_i32(&string_to_chars("2147483648")), None);
    assert_eq!(parse_i32(&string_to_chars("-2147483648")), Some(-2147483648));
    assert_eq!(parse_i32(&string_to_chars("-2147483649")), None);
}
