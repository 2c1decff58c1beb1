//! The persisted rows the core reads: media types, series, watch
//! directories, and episodes. The datastore itself lives outside this crate;
//! callers hand these rows in as plain values.

use vstd::prelude::*;

verus! {

/// A kind of media: its configuration, including the whitespace-separated
/// list of "adjacent" file extensions (companion files such as subtitles or
/// covers) and whether a links directory is maintained for it.
pub struct MediaType {
    pub id: i64,
    pub name: String,
    pub base_dir: String,
    pub file_types: String,
    pub adjacent_file_types: String,
    pub program: String,
    pub maintain_symlinks: bool,
}

/// One tracked series, owned by a media type.
pub struct Series {
    pub id: i64,
    pub media_type: i64,
    pub name: String,
    pub download_command_dir: Option<String>,
    pub download_command: Option<String>,
}

/// Read/unread tallies for one series.
pub struct SeriesReadStats {
    pub num_episodes: i32,
    pub num_unread: i32,
}

/// A watched directory for one series: where to look for new files, the
/// pattern that extracts chapter (and optionally volume) numbers from a
/// filename, a default volume for files whose pattern gives none, and
/// whether the walk descends into subdirectories.
pub struct Directory {
    pub id: i64,
    pub series: i64,
    pub pattern: String,
    pub dir: String,
    pub volume: Option<i32>,
    pub recursive: bool,
}

/// One persisted episode. `date_of_read` is the read timestamp in seconds
/// since the epoch; `None` means unread.
pub struct Episode {
    pub id: i64,
    pub series: i64,
    pub number: i64,
    pub name: String,
    pub file: String,
    pub volume: Option<i64>,
    pub date_of_read: Option<i64>,
}

impl Episode {
    /// An episode is unread while it has no read timestamp.
    pub open spec fn is_unread(&self) -> bool {
        self.date_of_read is None
    }
}

} // verus!
