use chapter_tracker::discovery::{
    discover_in_groups, process_file_match, DiscoveryError, FileData, ScanGroup,
    group_directories,
};
use chapter_tracker::models::Directory;
use chapter_tracker::pattern::CompiledPattern;

fn compile(p: &str) -> CompiledPattern {
    CompiledPattern::compile(&String::from(p)).expect("pattern should compile")
}

#[test]
fn chapter_group_digits_parse_as_chapter() {
    let pat = compile("c(?P<c>\\d+)");
    let r = process_file_match(&String::from("Foo c12.cbz"), &pat);
    match r {
        Ok(Some(fd)) => {
            assert_eq!(fd.chapter, 12);
            assert_eq!(fd.volume, None);
        },
        _ => panic!("expected a match"),
    }
}

#[test]
fn volume_and_chapter_groups_parse() {
    let pat = compile("v(?P<v>\\d+) c(?P<c>\\d+)");
    let r = process_file_match(&String::from("X v2 c3.cbz"), &pat);
    match r {
        Ok(Some(fd)) => {
            assert_eq!(fd.chapter, 3);
            assert_eq!(fd.volume, Some(2));
        },
        _ => panic!("expected a match"),
    }
}

#[test]
fn positional_digits_after_match_become_chapter() {
    let pat = compile("Foo");
    let r = process_file_match(&String::from("Foo - 07.cbz"), &pat);
    match r {
        Ok(Some(fd)) => {
            assert_eq!(fd.chapter, 7);
            assert_eq!(fd.volume, None);
        },
        _ => panic!("expected a match"),
    }
}

#[test]
fn no_digits_after_match_fails() {
    let pat = compile("Foo");
    let r = process_file_match(&String::from("Foo.cbz"), &pat);
    match r {
        Err(DiscoveryError::NoDigitsAfterMatch { path }) => {
            assert_eq!(path, "Foo.cbz");
        },
        _ => panic!("expected the no-digits error"),
    }
}

#[test]
fn no_match_is_not_an_error() {
    let pat = compile("zzz");
    let r = process_file_match(&String::from("Foo c1.cbz"), &pat);
    match r {
        Ok(None) => {},
        _ => panic!("expected no match"),
    }
}

#[test]
fn oversized_chapter_number_fails() {
    let pat = compile("c(?P<c>\\d+)");
    let r = process_file_match(&String::from("Foo c99999999999"), &pat);
    match r {
        Err(DiscoveryError::UnparseableNumber { text }) => {
            assert_eq!(text, "99999999999");
        },
        _ => panic!("expected the unparseable-number error"),
    }
}

#[test]
fn default_volume_fills_only_absent_volume() {
    let fd = FileData { volume: None, chapter: 4 };
    let fd = fd.with_default_volume(Some(9));
    assert_eq!(fd.volume, Some(9));
    let fd2 = FileData { volume: Some(1), chapter: 4 };
    let fd2 = fd2.with_default_volume(Some(9));
    assert_eq!(fd2.volume, Some(1));
}

fn watch_dir(id: i64, series: i64, pattern: &str, dir: &str, recursive: bool) -> Directory {
    Directory {
        id,
        series,
        pattern: String::from(pattern),
        dir: String::from(dir),
        volume: None,
        recursive,
    }
}

#[test]
fn discovery_scenario_finds_only_the_unknown_file() {
    // One watch directory, pattern (?P<c>\d+), non-recursive, no default
    // volume; the directory holds ch01.cbz and ch02.cbz and ch01 is already
    // known, so only ch02 with chapter 2 is discovered.
    let d = watch_dir(1, 7, "(?P<c>\\d+)", "/manga/Foo", false);
    let found = vec![
        String::from("/manga/Foo/ch01.cbz"),
        String::from("/manga/Foo/ch02.cbz"),
    ];
    let known = vec![String::from("/manga/Foo/ch01.cbz")];
    let new_files = chapter_tracker::discovery::new_paths(&found, &known);
    assert_eq!(new_files, vec![String::from("/manga/Foo/ch02.cbz")]);
    let groups = group_directories(vec![d]);
    assert_eq!(groups.len(), 1);
    let mut scan_groups: Vec<ScanGroup> = Vec::new();
    for g in groups {
        scan_groups.push(ScanGroup { directories: g.members, new_files: new_files.clone() });
    }
    let adjacency: Vec<(i64, Vec<String>)> = Vec::new();
    let out = discover_in_groups(&scan_groups, &adjacency).expect("discovery should succeed");
    assert_eq!(out.len(), 1);
    assert_eq!(out[0].path, "/manga/Foo/ch02.cbz");
    assert_eq!(out[0].series, 7);
    assert_eq!(out[0].directory, 1);
    assert_eq!(out[0].file_data.chapter, 2);
    assert_eq!(out[0].file_data.volume, None);
}

#[test]
fn malformed_pattern_fails_the_group() {
    let d = watch_dir(1, 7, "(", "/manga/Foo", false);
    let groups = vec![ScanGroup {
        directories: vec![d],
        new_files: vec![String::from("/manga/Foo/ch01.cbz")],
    }];
    let adjacency: Vec<(i64, Vec<String>)> = Vec::new();
    match discover_in_groups(&groups, &adjacency) {
        Err(DiscoveryError::MalformedPattern { pattern }) => {
            assert_eq!(pattern, "(");
        },
        _ => panic!("expected the malformed-pattern error"),
    }
}

#[test]
fn group_with_no_new_files_skips_pattern_compilation() {
    let d = watch_dir(1, 7, "(", "/manga/Foo", false);
    let groups = vec![ScanGroup { directories: vec![d], new_files: Vec::new() }];
    let adjacency: Vec<(i64, Vec<String>)> = Vec::new();
    let out = discover_in_groups(&groups, &adjacency).expect("an idle group must not fail");
    assert_eq!(out.len(), 0);
}

#[test]
fn adjacent_extension_is_never_discovered() {
    // Both files match the pattern, but srt is adjacent for series 7.
    let d = watch_dir(1, 7, "(?P<c>\\d+)", "/a", false);
    let groups = vec![ScanGroup {
        directories: vec![d],
        new_files: vec![String::from("/a/ch01.srt"), String::from("/a/ch01.cbz")],
    }];
    let adjacency: Vec<(i64, Vec<String>)> = vec![(7, vec![String::from("srt")])];
    let out = discover_in_groups(&groups, &adjacency).expect("discovery should succeed");
    assert_eq!(out.len(), 1);
    assert_eq!(out[0].path, "/a/ch01.cbz");
}

#[test]
fn first_matching_directory_wins() {
    // Two rows watch the same directory; the first one whose pattern matches
    // claims the file.
    let d1 = watch_dir(1, 5, "nothing-here", "/a", false);
    let d2 = watch_dir(2, 6, "ch(?P<c>\\d+)", "/a", false);
    let d3 = watch_dir(3, 8, "(?P<c>\\d+)", "/a", false);
    let groups = group_directories(vec![d1, d2, d3]);
    assert_eq!(groups.len(), 1);
    let mut scan_groups: Vec<ScanGroup> = Vec::new();
    for g in groups {
        scan_groups.push(ScanGroup {
            directories: g.members,
            new_files: vec![String::from("/a/ch09.cbz")],
        });
    }
    let adjacency: Vec<(i64, Vec<String>)> = Vec::new();
    let out = discover_in_groups(&scan_groups, &adjacency).expect("discovery should succeed");
    assert_eq!(out.len(), 1);
    assert_eq!(out[0].series, 6);
    assert_eq!(out[0].directory, 2);
    assert_eq!(out[0].file_data.chapter, 9);
}
