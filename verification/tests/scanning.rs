use chapter_tracker::adjacency::{media_type_adjacency, series_adjacency};
use chapter_tracker::discovery::{dangling_episode_ids, new_paths, ScanWorklist};
use chapter_tracker::models::{Episode, MediaType, Series};

fn episode(id: i64, series: i64, name: &str, file: &str) -> Episode {
    Episode {
        id,
        series,
        number: id,
        name: String::from(name),
        file: String::from(file),
        volume: None,
        date_of_read: None,
    }
}

#[test]
fn new_paths_is_the_set_difference() {
    let found = vec![String::from("/a/1"), String::from("/a/2"), String::from("/a/3")];
    let known = vec![String::from("/a/2")];
    let r = new_paths(&found, &known);
    assert_eq!(r, vec![String::from("/a/1"), String::from("/a/3")]);
}

#[test]
fn rescanning_after_recording_finds_nothing() {
    let found = vec![String::from("/a/1"), String::from("/a/2")];
    let known = vec![String::from("/a/2")];
    let first = new_paths(&found, &known);
    assert_eq!(first, vec![String::from("/a/1")]);
    let mut known2 = known.clone();
    known2.extend(first);
    let second = new_paths(&found, &known2);
    assert_eq!(second.len(), 0);
}

#[test]
fn recursive_walk_queues_directories_and_records_files() {
    let mut w = ScanWorklist::new(String::from("/root"), true);
    assert_eq!(w.next_directory(), Some(String::from("/root")));
    w.record_entry(String::from("/root/sub"), true);
    w.record_entry(String::from("/root/a.cbz"), false);
    assert_eq!(w.next_directory(), Some(String::from("/root/sub")));
    w.record_entry(String::from("/root/sub/b.cbz"), false);
    assert_eq!(w.next_directory(), None);
    let files = w.into_files();
    assert_eq!(files, vec![String::from("/root/a.cbz"), String::from("/root/sub/b.cbz")]);
}

#[test]
fn flat_walk_records_directories_as_candidates() {
    let mut w = ScanWorklist::new(String::from("/root"), false);
    assert_eq!(w.next_directory(), Some(String::from("/root")));
    w.record_entry(String::from("/root/sub"), true);
    w.record_entry(String::from("/root/a.cbz"), false);
    assert_eq!(w.next_directory(), None);
    let files = w.into_files();
    assert_eq!(files, vec![String::from("/root/sub"), String::from("/root/a.cbz")]);
}

fn media_type(id: i64, adjacent: &str) -> MediaType {
    MediaType {
        id,
        name: String::from("manga"),
        base_dir: String::from("/m"),
        file_types: String::from("cbz"),
        adjacent_file_types: String::from(adjacent),
        program: String::from("viewer"),
        maintain_symlinks: true,
    }
}

fn series(id: i64, media: i64) -> Series {
    Series {
        id,
        media_type: media,
        name: String::from("s"),
        download_command_dir: None,
        download_command: None,
    }
}

#[test]
fn adjacency_sets_come_from_whitespace_separated_config() {
    let mts = vec![media_type(1, "srt  jpg"), media_type(2, "")];
    let m = media_type_adjacency(&mts);
    assert_eq!(m.len(), 2);
    assert_eq!(m[0].0, 1);
    assert_eq!(m[0].1, vec![String::from("srt"), String::from("jpg")]);
    assert_eq!(m[1].0, 2);
    assert_eq!(m[1].1.len(), 0);

    let ss = vec![series(10, 1), series(11, 2), series(12, 99)];
    let s = series_adjacency(&ss, &m);
    // Series 12 names an unknown media type and gets no entry.
    assert_eq!(s.len(), 2);
    assert_eq!(s[0].0, 10);
    assert_eq!(s[0].1, vec![String::from("srt"), String::from("jpg")]);
    assert_eq!(s[1].0, 11);
    assert_eq!(s[1].1.len(), 0);
}

#[test]
fn dangling_scan_reports_episodes_whose_file_is_gone() {
    let eps = vec![
        episode(1, 5, "A c1", "/a/x.cbz"),
        episode(2, 5, "A c2", "/a/y.cbz"),
    ];
    let found = vec![String::from("/a/x.cbz")];
    let r = dangling_episode_ids(&eps, &found);
    assert_eq!(r, vec![2]);
}

#[test]
fn dangling_scan_keeps_the_last_episode_per_file() {
    let eps = vec![
        episode(1, 5, "A c1", "/a/x.cbz"),
        episode(2, 5, "A c1 again", "/a/x.cbz"),
    ];
    let found: Vec<String> = Vec::new();
    let r = dangling_episode_ids(&eps, &found);
    assert_eq!(r, vec![2]);
}
