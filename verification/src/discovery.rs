//! Turning a filename into chapter data: matching a file against a watch
//! directory's pattern and reading the chapter and volume numbers out of the
//! match, as well as scanning for new paths and classifying whole batches.

use vstd::prelude::*;
use crate::adjacency::{assoc_view, assoc_get, contains_token};
use crate::models::{Directory, Episode};
use crate::numbers::{is_digit_char, parse_i32_spec, parse_i32, is_digit};
use crate::paths::{extension_of, extension_of_path};
use crate::pattern::{CompiledPattern, RawCaptures, regex_captures, regex_is_valid};
use crate::text::{string_to_chars, chars_to_string, subvec, view_opt};

verus! {

/// Chapter data read from one filename: the chapter number and, when the
/// pattern or the watch directory supplies one, the volume number.
pub struct FileData {
    pub volume: Option<i32>,
    pub chapter: i32,
}

/// A newly discovered episode file, ready to be persisted by the caller.
pub struct FoundFile {
    pub series: i64,
    pub directory: i64,
    pub path: String,
    pub file_data: FileData,
}

/// Why a discovery pass failed.
#[derive(Debug)]
pub enum DiscoveryError {
    /// A watch directory's configured pattern does not compile.
    MalformedPattern { pattern: String },
    /// A captured chapter or volume number is not a decimal integer.
    UnparseableNumber { text: String },
    /// A pattern without a chapter group matched, but no digits follow the
    /// match.
    NoDigitsAfterMatch { path: String },
}

impl FileData {
    /// The same data with an absent volume replaced by the default.
    pub open spec fn with_default_spec(self, default_volume: Option<i32>) -> FileData {
        FileData {
            volume: if self.volume is None {
                default_volume
            } else {
                self.volume
            },
            chapter: self.chapter,
        }
    }

    /// Fill an absent volume number from the watch directory's default.
    pub fn with_default_volume(self, default_volume: Option<i32>) -> (r: FileData)
        ensures
            r == self.with_default_spec(default_volume),
    {
        FileData {
            volume: match self.volume {
                None => default_volume,
                v => v,
            },
            chapter: self.chapter,
        }
    }
}

/// Length of the leading run of decimal digits.
pub open spec fn leading_digit_run_len(s: Seq<char>) -> nat
    decreases s.len(),
{
    if s.len() == 0 || !is_digit_char(s[0]) {
        0
    } else {
        1 + leading_digit_run_len(s.skip(1))
    }
}

/// Index of the first decimal digit, or the length when there is none.
pub open spec fn first_digit_index(s: Seq<char>) -> nat
    decreases s.len(),
{
    if s.len() == 0 {
        0
    } else if is_digit_char(s[0]) {
        0
    } else {
        1 + first_digit_index(s.skip(1))
    }
}

/// The first maximal run of decimal digits, if any: what splitting on
/// non-digits and taking the first non-empty piece yields.
pub open spec fn first_digit_run(s: Seq<char>) -> Option<Seq<char>> {
    let i = first_digit_index(s) as int;
    if i >= s.len() {
        None
    } else {
        Some(s.subrange(i, i + leading_digit_run_len(s.skip(i))))
    }
}

pub proof fn lemma_first_digit_index_is(s: Seq<char>, k: int)
    requires
        0 <= k <= s.len(),
        forall|m: int| 0 <= m < k ==> !is_digit_char(#[trigger] s[m]),
        k == s.len() || is_digit_char(s[k]),
    ensures
        first_digit_index(s) == k,
    decreases s.len(),
{
    if k > 0 {
        lemma_first_digit_index_is(s.skip(1), k - 1);
    }
}

pub proof fn lemma_leading_digit_run_is(s: Seq<char>, k: int)
    requires
        0 <= k <= s.len(),
        forall|m: int| 0 <= m < k ==> is_digit_char(#[trigger] s[m]),
        k == s.len() || !is_digit_char(s[k]),
    ensures
        leading_digit_run_len(s) == k,
    decreases s.len(),
{
    if k > 0 {
        lemma_leading_digit_run_is(s.skip(1), k - 1);
    }
}

/// The first maximal digit run of `s`, as `first_digit_run` describes it.
pub fn find_first_digit_run(s: &Vec<char>) -> (r: Option<Vec<char>>)
    ensures
        match r {
            Some(run) => first_digit_run(s@) == Some(run@),
            None => first_digit_run(s@) is None,
        },
{
    let n = s.len();
    let mut i: usize = 0;
    while i < n && !is_digit(s[i])
        invariant
            0 <= i <= n,
            n == s@.len(),
            forall|m: int| 0 <= m < i ==> !is_digit_char(#[trigger] s@[m]),
        decreases n - i,
    {
        i = i + 1;
    }
    proof {
        lemma_first_digit_index_is(s@, i as int);
    }
    if i == n {
        return None;
    }
    let start: usize = i;
    let mut j: usize = i;
    while j < n && is_digit(s[j])
        invariant
            start <= j <= n,
            n == s@.len(),
            forall|m: int| start <= m < j ==> is_digit_char(#[trigger] s@[m]),
        decreases n - j,
    {
        j = j + 1;
    }
    let run = subvec(s, start, j);
    proof {
        let rest = s@.skip(start as int);
        assert forall|m: int| 0 <= m < j - start implies is_digit_char(#[trigger] rest[m]) by {
            assert(rest[m] == s@[m + start]);
        }
        if j < n {
            assert(rest[j - start] == s@[j as int]);
        }
        lemma_leading_digit_run_is(rest, j - start);
        assert(run@ =~= s@.subrange(start as int, start + leading_digit_run_len(rest)));
    }
    Some(run)
}

/// The decision that follows from one match outcome.
pub enum MatchDecision {
    /// The pattern did not match; the file is skipped.
    NoMatch,
    /// The numbers read from the match.
    Found { volume: Option<i32>, chapter: i32 },
    /// The `v` capture is not a decimal integer.
    VolumeNotNumeric { text: Seq<char> },
    /// The `c` capture (or the digit run after the match) is not a decimal
    /// integer that fits.
    ChapterNotNumeric { text: Seq<char> },
    /// No chapter group and no digits after the match.
    NoDigitsAfter,
}

/// How chapter data is read from a match outcome: the `v` capture, when
/// present, must parse; the chapter comes from the `c` capture or, absent
/// one, from the first digit run after the match.
pub open spec fn decide_match(
    g: Option<(Seq<char>, Option<Seq<char>>, Option<Seq<char>>)>,
) -> MatchDecision {
    match g {
        None => MatchDecision::NoMatch,
        Some((after, c_opt, v_opt)) => {
            let volume = match v_opt {
                Some(vt) => parse_i32_spec(vt),
                None => None,
            };
            if v_opt is Some && volume is None {
                MatchDecision::VolumeNotNumeric { text: v_opt.unwrap() }
            } else {
                match c_opt {
                    Some(ct) => match parse_i32_spec(ct) {
                        Some(ch) => MatchDecision::Found { volume, chapter: ch },
                        None => MatchDecision::ChapterNotNumeric { text: ct },
                    },
                    None => match first_digit_run(after) {
                        None => MatchDecision::NoDigitsAfter,
                        Some(run) => match parse_i32_spec(run) {
                            Some(ch) => MatchDecision::Found { volume, chapter: ch },
                            None => MatchDecision::ChapterNotNumeric { text: run },
                        },
                    },
                }
            }
        },
    }
}

/// Whether the error value reports the given failed decision about `path`.
pub open spec fn reports_failure(e: DiscoveryError, d: MatchDecision, path: Seq<char>) -> bool {
    match d {
        MatchDecision::VolumeNotNumeric { text } => e matches DiscoveryError::UnparseableNumber {
            text: t,
        } && t@ == text,
        MatchDecision::ChapterNotNumeric { text } => e matches DiscoveryError::UnparseableNumber {
            text: t,
        } && t@ == text,
        MatchDecision::NoDigitsAfter => e matches DiscoveryError::NoDigitsAfterMatch {
            path: p,
        } && p@ == path,
        _ => false,
    }
}

/// Match one filename against one compiled pattern and read the chapter
/// data out of the match, exactly as `decide_match` prescribes.
pub fn process_file_match(filename: &String, pattern: &CompiledPattern) -> (r: Result<
    Option<FileData>,
    DiscoveryError,
>)
    ensures
        ({
            let d = decide_match(regex_captures(pattern.pattern_view(), filename@));
            match d {
                MatchDecision::NoMatch => r matches Ok(None),
                MatchDecision::Found { volume, chapter } => r matches Ok(Some(fd)) && fd.volume
                    == volume && fd.chapter == chapter,
                _ => r matches Err(e) && reports_failure(e, d, filename@),
            }
        }),
{
    let caps = match pattern.captures(filename) {
        None => {
            return Ok(None);
        },
        Some(c) => c,
    };
    match read_chapter_data(caps, filename) {
        Ok(fd) => Ok(Some(fd)),
        Err(e) => Err(e),
    }
}

/// The view a match outcome presents to the decision logic.
pub open spec fn raw_caps_view(rc: RawCaptures) -> (
    Seq<char>,
    Option<Seq<char>>,
    Option<Seq<char>>,
) {
    (rc.after@, view_opt(rc.c), view_opt(rc.v))
}

/// Read the chapter data out of one successful match, exactly as
/// `decide_match` prescribes for it.
pub fn read_chapter_data(caps: RawCaptures, filename: &String) -> (r: Result<
    FileData,
    DiscoveryError,
>)
    ensures
        ({
            let d = decide_match(Some(raw_caps_view(caps)));
            match d {
                MatchDecision::Found { volume, chapter } => r matches Ok(fd) && fd.volume == volume
                    && fd.chapter == chapter,
                _ => r matches Err(e) && reports_failure(e, d, filename@),
            }
        }),
{
    let volume: Option<i32> = match caps.v {
        Some(vt) => {
            let vchars = string_to_chars(vt.as_str());
            match parse_i32(&vchars) {
                Some(n) => Some(n),
                None => {
                    return Err(DiscoveryError::UnparseableNumber { text: vt });
                },
            }
        },
        None => None,
    };
    let chapter: i32 = match caps.c {
        Some(ct) => {
            let cchars = string_to_chars(ct.as_str());
            match parse_i32(&cchars) {
                Some(n) => n,
                None => {
                    return Err(DiscoveryError::UnparseableNumber { text: ct });
                },
            }
        },
        None => {
            let achars = string_to_chars(caps.after.as_str());
            match find_first_digit_run(&achars) {
                None => {
                    return Err(DiscoveryError::NoDigitsAfterMatch { path: filename.clone() });
                },
                Some(run) => {
                    match parse_i32(&run) {
                        Some(n) => n,
                        None => {
                            let text = chars_to_string(&run);
                            return Err(DiscoveryError::UnparseableNumber { text });
                        },
                    }
                },
            }
        },
    };
    Ok(FileData { volume, chapter })
}

/// Whether some string in `ss` has exactly the characters `x`.
pub open spec fn seq_contains_str(ss: Seq<String>, x: Seq<char>) -> bool {
    exists|i: int| 0 <= i < ss.len() && ss[i]@ == x
}

/// Whether `v` holds a string equal to `x`.
pub fn contains_path(v: &Vec<String>, x: &String) -> (r: bool)
    ensures
        r == seq_contains_str(v@, x@),
{
    let mut i: usize = 0;
    while i < v.len()
        invariant
            0 <= i <= v@.len(),
            forall|j: int| 0 <= j < i ==> v@[j]@ != x@,
        decreases v@.len() - i,
    {
        if v[i].eq(x) {
            return true;
        }
        i = i + 1;
    }
    false
}

/// The paths among `found` that are not already known, in the order they
/// were found.
pub open spec fn new_paths_spec(found: Seq<String>, known: Seq<String>) -> Seq<String>
    decreases found.len(),
{
    if found.len() == 0 {
        Seq::empty()
    } else {
        let rest = new_paths_spec(found.drop_last(), known);
        if seq_contains_str(known, found.last()@) {
            rest
        } else {
            rest.push(found.last())
        }
    }
}

/// Every path returned was in `found`, and every path of `found` is either
/// known or returned.
pub proof fn lemma_new_paths_complete(found: Seq<String>, known: Seq<String>)
    ensures
        forall|i: int|
            0 <= i < found.len() ==> seq_contains_str(known, #[trigger] found[i]@)
                || seq_contains_str(new_paths_spec(found, known), found[i]@),
        forall|i: int|
            0 <= i < new_paths_spec(found, known).len() ==> seq_contains_str(
                found,
                #[trigger] new_paths_spec(found, known)[i]@,
            ) && !seq_contains_str(known, new_paths_spec(found, known)[i]@),
    decreases found.len(),
{
    if found.len() > 0 {
        lemma_new_paths_complete(found.drop_last(), known);
        let rest = new_paths_spec(found.drop_last(), known);
        assert forall|i: int| 0 <= i < found.len() implies seq_contains_str(
            known,
            #[trigger] found[i]@,
        ) || seq_contains_str(new_paths_spec(found, known), found[i]@) by {
            if i < found.len() - 1 {
                assert(found.drop_last()[i] == found[i]);
                if seq_contains_str(rest, found[i]@) {
                    let w = choose|k: int| 0 <= k < rest.len() && rest[k]@ == found[i]@;
                    if seq_contains_str(known, found.last()@) {
                        assert(new_paths_spec(found, known)[w]@ == found[i]@);
                    } else {
                        assert(new_paths_spec(found, known)[w]@ == found[i]@);
                    }
                }
            } else {
                if !seq_contains_str(known, found[i]@) {
                    let last_idx = new_paths_spec(found, known).len() - 1;
                    assert(new_paths_spec(found, known)[last_idx]@ == found[i]@);
                }
            }
        }
        assert forall|i: int| 0 <= i < new_paths_spec(found, known).len() implies seq_contains_str(
            found,
            #[trigger] new_paths_spec(found, known)[i]@,
        ) && !seq_contains_str(known, new_paths_spec(found, known)[i]@) by {
            if i < rest.len() {
                assert(new_paths_spec(found, known)[i] == rest[i]);
                let w = choose|k: int| 0 <= k < found.drop_last().len() && found.drop_last()[k]@
                    == rest[i]@;
                assert(found[w]@ == rest[i]@);
            } else {
                assert(new_paths_spec(found, known)[i] == found.last());
                assert(found[found.len() - 1]@ == found.last()@);
            }
        }
    }
}

/// Scanning the same listing again, once every previously returned path is
/// known as well, finds nothing new.
pub proof fn lemma_rescan_finds_nothing(found: Seq<String>, known: Seq<String>)
    ensures
        new_paths_spec(found, known + new_paths_spec(found, known)) =~= Seq::<String>::empty(),
{
    let first = new_paths_spec(found, known);
    lemma_new_paths_complete(found, known);
    assert forall|i: int| 0 <= i < found.len() implies seq_contains_str(
        known + first,
        #[trigger] found[i]@,
    ) by {
        if seq_contains_str(known, found[i]@) {
            let w = choose|k: int| 0 <= k < known.len() && known[k]@ == found[i]@;
            assert((known + first)[w]@ == found[i]@);
        } else {
            let w = choose|k: int| 0 <= k < first.len() && first[k]@ == found[i]@;
            assert((known + first)[known.len() + w]@ == found[i]@);
        }
    }
    lemma_all_known_scan_empty(found, known + first);
}

/// When every found path is already known, nothing is new.
pub proof fn lemma_all_known_scan_empty(found: Seq<String>, known: Seq<String>)
    requires
        forall|i: int| 0 <= i < found.len() ==> seq_contains_str(known, #[trigger] found[i]@),
    ensures
        new_paths_spec(found, known) =~= Seq::<String>::empty(),
    decreases found.len(),
{
    if found.len() > 0 {
        assert(forall|i: int|
            0 <= i < found.drop_last().len() ==> seq_contains_str(
                known,
                #[trigger] found.drop_last()[i]@,
            ));
        lemma_all_known_scan_empty(found.drop_last(), known);
        assert(seq_contains_str(known, found[found.len() - 1]@));
    }
}

/// The found paths that are not in `known`: the set difference a directory
/// scan returns.
pub fn new_paths(found: &Vec<String>, known: &Vec<String>) -> (r: Vec<String>)
    ensures
        r@ == new_paths_spec(found@, known@),
{
    let mut r: Vec<String> = Vec::new();
    let mut i: usize = 0;
    while i < found.len()
        invariant
            0 <= i <= found@.len(),
            r@ == new_paths_spec(found@.take(i as int), known@),
        decreases found@.len() - i,
    {
        proof {
            assert(found@.take(i + 1).drop_last() =~= found@.take(i as int));
            assert(found@.take(i + 1).last() == found@[i as int]);
        }
        if !contains_path(known, &found[i]) {
            let p = found[i].clone();
            assert(p@ == found@[i as int]@);
            r.push(p);
            proof {
                assert(r@ =~= new_paths_spec(found@.take(i + 1), known@));
            }
        }
        i = i + 1;
    }
    proof {
        assert(found@.take(found@.len() as int) =~= found@);
    }
    r
}

/// The worklist of one directory walk: directories still to list and files
/// seen so far. The caller lists each pending directory and records what it
/// finds; no recursion is used, so arbitrarily deep trees cannot exhaust the
/// stack.
pub struct ScanWorklist {
    pending: Vec<String>,
    files: Vec<String>,
    recursive: bool,
}

impl ScanWorklist {
    /// Directories still waiting to be listed.
    pub closed spec fn pending_view(&self) -> Seq<String> {
        self.pending@
    }

    /// Files recorded so far, in the order they were recorded.
    pub closed spec fn files_view(&self) -> Seq<String> {
        self.files@
    }

    /// Whether the walk descends into subdirectories.
    pub closed spec fn is_recursive(&self) -> bool {
        self.recursive
    }

    /// A walk rooted at `root`.
    pub fn new(root: String, recursive: bool) -> (r: ScanWorklist)
        ensures
            r.pending_view() == seq![root],
            r.files_view() == Seq::<String>::empty(),
            r.is_recursive() == recursive,
    {
        let mut pending: Vec<String> = Vec::new();
        pending.push(root);
        proof {
            assert(pending@ =~= seq![root]);
        }
        ScanWorklist { pending, files: Vec::new(), recursive }
    }

    /// Take one directory that still needs listing, if any is left.
    pub fn next_directory(&mut self) -> (r: Option<String>)
        ensures
            old(self).pending_view().len() == 0 ==> r is None && final(self).pending_view()
                == old(self).pending_view(),
            old(self).pending_view().len() > 0 ==> r == Some(old(self).pending_view().last())
                && final(self).pending_view() == old(self).pending_view().drop_last(),
            final(self).files_view() == old(self).files_view(),
            final(self).is_recursive() == old(self).is_recursive(),
    {
        self.pending.pop()
    }

    /// Record one directory entry: in a recursive walk a directory is queued
    /// for listing, anything else is a candidate file. In a flat walk every
    /// direct child is a candidate file.
    pub fn record_entry(&mut self, path: String, is_dir: bool)
        ensures
            final(self).is_recursive() == old(self).is_recursive(),
            (old(self).is_recursive() && is_dir) ==> final(self).pending_view() == old(
                self,
            ).pending_view().push(path) && final(self).files_view() == old(self).files_view(),
            !(old(self).is_recursive() && is_dir) ==> final(self).files_view() == old(
                self,
            ).files_view().push(path) && final(self).pending_view() == old(self).pending_view(),
    {
        if self.recursive && is_dir {
            self.pending.push(path);
        } else {
            self.files.push(path);
        }
    }

    /// The files seen, once no directory is left to list.
    pub fn into_files(self) -> (r: Vec<String>)
        ensures
            r@ == self.files_view(),
    {
        self.files
    }
}


/// The pattern texts of a row of compiled patterns.
pub open spec fn pattern_views(ps: Seq<CompiledPattern>) -> Seq<Seq<char>> {
    ps.map_values(|p: CompiledPattern| p.pattern_view())
}

/// The pattern texts configured on a row of watch directories.
pub open spec fn patterns_of(dirs: Seq<Directory>) -> Seq<Seq<char>> {
    dirs.map_values(|d: Directory| d.pattern@)
}

/// Index of the first pattern that matches `path`, or -1 when none does.
pub open spec fn first_match_idx(pats: Seq<Seq<char>>, path: Seq<char>) -> int
    decreases pats.len(),
{
    if pats.len() == 0 {
        -1
    } else if regex_captures(pats[0], path) is Some {
        0
    } else {
        let rest = first_match_idx(pats.skip(1), path);
        if rest < 0 {
            -1
        } else {
            1 + rest
        }
    }
}

pub proof fn lemma_first_match_idx_is(pats: Seq<Seq<char>>, path: Seq<char>, k: int)
    requires
        0 <= k <= pats.len(),
        forall|m: int| 0 <= m < k ==> regex_captures(#[trigger] pats[m], path) is None,
        k == pats.len() || regex_captures(pats[k], path) is Some,
    ensures
        first_match_idx(pats, path) == if k == pats.len() {
            -1int
        } else {
            k
        },
    decreases pats.len(),
{
    if pats.len() > 0 && k > 0 {
        assert forall|m: int| 0 <= m < k - 1 implies regex_captures(
            #[trigger] pats.skip(1)[m],
            path,
        ) is None by {
            assert(pats.skip(1)[m] == pats[m + 1]);
        }
        lemma_first_match_idx_is(pats.skip(1), path, k - 1);
    }
}

/// Index of the first pattern that does not compile, or -1 when all do.
pub open spec fn first_invalid_idx(pats: Seq<Seq<char>>) -> int
    decreases pats.len(),
{
    if pats.len() == 0 {
        -1
    } else if !regex_is_valid(pats[0]) {
        0
    } else {
        let rest = first_invalid_idx(pats.skip(1));
        if rest < 0 {
            -1
        } else {
            1 + rest
        }
    }
}

pub proof fn lemma_first_invalid_idx_is(pats: Seq<Seq<char>>, k: int)
    requires
        0 <= k <= pats.len(),
        forall|m: int| 0 <= m < k ==> regex_is_valid(#[trigger] pats[m]),
        k == pats.len() || !regex_is_valid(pats[k]),
    ensures
        first_invalid_idx(pats) == if k == pats.len() {
            -1int
        } else {
            k
        },
    decreases pats.len(),
{
    if pats.len() > 0 && k > 0 {
        assert forall|m: int| 0 <= m < k - 1 implies regex_is_valid(
            #[trigger] pats.skip(1)[m],
        ) by {
            assert(pats.skip(1)[m] == pats[m + 1]);
        }
        lemma_first_invalid_idx_is(pats.skip(1), k - 1);
    }
}

/// Compile every directory's pattern, in row order; the first pattern that
/// does not compile fails the whole group.
pub fn compile_directory_patterns(dirs: &Vec<Directory>) -> (r: Result<
    Vec<CompiledPattern>,
    DiscoveryError,
>)
    ensures
        r matches Ok(ps) ==> first_invalid_idx(patterns_of(dirs@)) == -1 && ps@.len()
            == dirs@.len() && forall|i: int|
            0 <= i < dirs@.len() ==> #[trigger] ps@[i].pattern_view() == dirs@[i].pattern@,
        r matches Err(e) ==> ({
            let fi = first_invalid_idx(patterns_of(dirs@));
            fi >= 0 && (e matches DiscoveryError::MalformedPattern { pattern } && pattern@
                == dirs@[fi].pattern@)
        }),
{
    let mut ps: Vec<CompiledPattern> = Vec::new();
    let mut i: usize = 0;
    while i < dirs.len()
        invariant
            0 <= i <= dirs@.len(),
            ps@.len() == i,
            forall|m: int| 0 <= m < i ==> #[trigger] ps@[m].pattern_view() == dirs@[m].pattern@,
            forall|m: int| 0 <= m < i ==> regex_is_valid(#[trigger] patterns_of(dirs@)[m]),
        decreases dirs@.len() - i,
    {
        match CompiledPattern::compile(&dirs[i].pattern) {
            Ok(p) => {
                ps.push(p);
            },
            Err(_) => {
                proof {
                    lemma_first_invalid_idx_is(patterns_of(dirs@), i as int);
                }
                let pattern = dirs[i].pattern.clone();
                return Err(DiscoveryError::MalformedPattern { pattern });
            },
        }
        i = i + 1;
    }
    proof {
        lemma_first_invalid_idx_is(patterns_of(dirs@), dirs@.len() as int);
    }
    Ok(ps)
}

/// Whether `path` is an adjacent (companion) file for `series`: its
/// extension is in the series' adjacency set.
pub open spec fn is_adjacent_ext(
    adj: Map<int, Seq<Seq<char>>>,
    series: int,
    path: Seq<char>,
) -> bool {
    adj.contains_key(series) && match extension_of(path) {
        Some(e) => adj[series].contains(e),
        None => false,
    }
}

/// Decide adjacency for one file against the per-series sets.
pub fn is_adjacent(adjacency: &Vec<(i64, Vec<String>)>, series: i64, path: &String) -> (r: bool)
    ensures
        r == is_adjacent_ext(assoc_view(adjacency@), series as int, path@),
{
    match assoc_get(adjacency, series) {
        None => false,
        Some(idx) => match extension_of_path(path) {
            Some(e) => contains_token(&adjacency[idx].1, &e),
            None => false,
        },
    }
}

/// What classification does with one candidate path: skip it, take it as a
/// found episode, or fail the pass.
pub enum ClassifyDecision {
    /// No pattern matched, or the file is adjacent to an episode.
    Skip,
    /// A found episode: the owning series and directory and the numbers.
    Take { series: i64, directory: i64, volume: Option<i32>, chapter: i32 },
    /// Reading the numbers out of the match failed.
    Fail { failure: MatchDecision },
}

/// How one candidate path is classified: the first watch directory (in row
/// order) whose pattern matches claims the file; a file whose extension is
/// adjacent for that directory's series is silently skipped; otherwise the
/// chapter data is read from the match, with the directory's default volume
/// filling an absent one.
pub open spec fn classify_decision(
    dirs: Seq<Directory>,
    adj: Map<int, Seq<Seq<char>>>,
    path: Seq<char>,
) -> ClassifyDecision {
    let i = first_match_idx(patterns_of(dirs), path);
    if i < 0 {
        ClassifyDecision::Skip
    } else {
        let d = dirs[i];
        if is_adjacent_ext(adj, d.series as int, path) {
            ClassifyDecision::Skip
        } else {
            match decide_match(regex_captures(d.pattern@, path)) {
                MatchDecision::NoMatch => ClassifyDecision::Skip,
                MatchDecision::Found { volume, chapter } => ClassifyDecision::Take {
                    series: d.series,
                    directory: d.id,
                    volume: if volume is None {
                        d.volume
                    } else {
                        volume
                    },
                    chapter,
                },
                f => ClassifyDecision::Fail { failure: f },
            }
        }
    }
}

/// The fields of a found episode, for stating contracts.
pub struct FoundView {
    pub series: i64,
    pub directory: i64,
    pub path: Seq<char>,
    pub volume: Option<i32>,
    pub chapter: i32,
}

pub open spec fn found_view(f: FoundFile) -> FoundView {
    FoundView {
        series: f.series,
        directory: f.directory,
        path: f.path@,
        volume: f.file_data.volume,
        chapter: f.file_data.chapter,
    }
}

pub open spec fn found_views(s: Seq<FoundFile>) -> Seq<FoundView> {
    s.map_values(|f: FoundFile| found_view(f))
}

/// Classify a batch of candidate paths, in order; the first failure aborts
/// the batch.
pub open spec fn classify_batch(
    dirs: Seq<Directory>,
    adj: Map<int, Seq<Seq<char>>>,
    files: Seq<String>,
) -> Result<Seq<FoundView>, (Seq<char>, MatchDecision)>
    decreases files.len(),
{
    if files.len() == 0 {
        Ok(Seq::empty())
    } else {
        match classify_batch(dirs, adj, files.drop_last()) {
            Err(e) => Err(e),
            Ok(s) => match classify_decision(dirs, adj, files.last()@) {
                ClassifyDecision::Skip => Ok(s),
                ClassifyDecision::Take { series, directory, volume, chapter } => Ok(
                    s.push(
                        FoundView { series, directory, path: files.last()@, volume, chapter },
                    ),
                ),
                ClassifyDecision::Fail { failure } => Err((files.last()@, failure)),
            },
        }
    }
}

/// Once a prefix of the batch fails, the whole batch reports that failure.
pub proof fn lemma_batch_err_sticks(
    dirs: Seq<Directory>,
    adj: Map<int, Seq<Seq<char>>>,
    files: Seq<String>,
    i: int,
)
    requires
        0 <= i <= files.len(),
        classify_batch(dirs, adj, files.take(i)) is Err,
    ensures
        classify_batch(dirs, adj, files) == classify_batch(dirs, adj, files.take(i)),
    decreases files.len() - i,
{
    if i < files.len() {
        assert(files.take(i + 1).drop_last() =~= files.take(i));
        lemma_batch_err_sticks(dirs, adj, files, i + 1);
    } else {
        assert(files.take(i) =~= files);
    }
}

/// The first pattern (in row order) that matches `file`, with what it
/// captured.
pub fn first_matching(pats: &Vec<CompiledPattern>, file: &String) -> (r: Option<
    (usize, RawCaptures),
>)
    ensures
        match r {
            Some(p) => p.0 < pats@.len() && first_match_idx(pattern_views(pats@), file@) == p.0
                && regex_captures(pats@[p.0 as int].pattern_view(), file@) == Some(
                raw_caps_view(p.1),
            ),
            None => first_match_idx(pattern_views(pats@), file@) == -1,
        },
{
    let mut j: usize = 0;
    while j < pats.len()
        invariant
            0 <= j <= pats@.len(),
            forall|m: int|
                0 <= m < j ==> regex_captures(
                    #[trigger] pattern_views(pats@)[m],
                    file@,
                ) is None,
        decreases pats@.len() - j,
    {
        match pats[j].captures(file) {
            Some(rc) => {
                proof {
                    lemma_first_match_idx_is(pattern_views(pats@), file@, j as int);
                }
                return Some((j, rc));
            },
            None => {},
        }
        j = j + 1;
    }
    proof {
        lemma_first_match_idx_is(pattern_views(pats@), file@, pats@.len() as int);
    }
    None
}

/// Classify every candidate path of one scan group against the group's
/// watch directories, as `classify_batch` prescribes.
pub fn classify_files(
    dirs: &Vec<Directory>,
    pats: &Vec<CompiledPattern>,
    adjacency: &Vec<(i64, Vec<String>)>,
    files: &Vec<String>,
) -> (r: Result<Vec<FoundFile>, DiscoveryError>)
    requires
        pats@.len() == dirs@.len(),
        forall|i: int|
            0 <= i < dirs@.len() ==> #[trigger] pats@[i].pattern_view() == dirs@[i].pattern@,
    ensures
        ({
            let res = classify_batch(dirs@, assoc_view(adjacency@), files@);
            match r {
                Ok(v) => res matches Ok(s) && found_views(v@) == s,
                Err(e) => res matches Err(pf) && reports_failure(e, pf.1, pf.0),
            }
        }),
{
    let ghost adj = assoc_view(adjacency@);
    let mut out: Vec<FoundFile> = Vec::new();
    let mut k: usize = 0;
    proof {
        assert(pattern_views(pats@) =~= patterns_of(dirs@));
        assert(found_views(out@) =~= Seq::<FoundView>::empty());
        assert(files@.take(0) =~= Seq::<String>::empty());
    }
    while k < files.len()
        invariant
            0 <= k <= files@.len(),
            adj == assoc_view(adjacency@),
            pats@.len() == dirs@.len(),
            forall|i: int|
                0 <= i < dirs@.len() ==> #[trigger] pats@[i].pattern_view() == dirs@[i].pattern@,
            pattern_views(pats@) == patterns_of(dirs@),
            classify_batch(dirs@, adj, files@.take(k as int)) == Ok::<
                Seq<FoundView>,
                (Seq<char>, MatchDecision),
            >(found_views(out@)),
        decreases files@.len() - k,
    {
        proof {
            assert(files@.take(k + 1).drop_last() =~= files@.take(k as int));
            assert(files@.take(k + 1).last() == files@[k as int]);
        }
        let file = &files[k];
        match first_matching(pats, file) {
            None => {
                assert(classify_decision(dirs@, adj, file@) is Skip);
            },
            Some((j, rc)) => {
                let series = dirs[j].series;
                let dir_id = dirs[j].id;
                let default_volume = dirs[j].volume;
                if is_adjacent(adjacency, series, file) {
                    assert(classify_decision(dirs@, adj, file@) is Skip);
                } else {
                    match read_chapter_data(rc, file) {
                        Ok(fd) => {
                            let fd = fd.with_default_volume(default_volume);
                            let ghost out0 = out@;
                            out.push(
                                FoundFile {
                                    series,
                                    directory: dir_id,
                                    path: file.clone(),
                                    file_data: fd,
                                },
                            );
                            proof {
                                assert(found_views(out@) =~= found_views(out0).push(
                                    found_view(out@.last()),
                                ));
                            }
                        },
                        Err(e) => {
                            proof {
                                lemma_batch_err_sticks(dirs@, adj, files@, k + 1);
                            }
                            return Err(e);
                        },
                    }
                }
            },
        }
        k = k + 1;
    }
    proof {
        assert(files@.take(files@.len() as int) =~= files@);
    }
    Ok(out)
}


/// One scan group: the watch directories sharing a (path, recursion) pair
/// and the new files one filesystem scan found for them.
pub struct ScanGroup {
    pub directories: Vec<Directory>,
    pub new_files: Vec<String>,
}

/// Why a discovery pass failed, for stating contracts.
pub enum DiscFailure {
    /// Some directory of a group with new files has a pattern that does not
    /// compile.
    Malformed { pattern: Seq<char> },
    /// Reading the numbers out of a match failed for a file.
    File { path: Seq<char>, failure: MatchDecision },
}

/// What one scan group contributes: nothing when its scan found no new
/// files; otherwise every pattern of the group must compile (the first bad
/// one fails the group) and the batch is classified.
pub open spec fn group_result(g: ScanGroup, adj: Map<int, Seq<Seq<char>>>) -> Result<
    Seq<FoundView>,
    DiscFailure,
> {
    if g.new_files@.len() == 0 {
        Ok(Seq::empty())
    } else {
        let fi = first_invalid_idx(patterns_of(g.directories@));
        if fi >= 0 {
            Err(DiscFailure::Malformed { pattern: g.directories@[fi].pattern@ })
        } else {
            match classify_batch(g.directories@, adj, g.new_files@) {
                Ok(s) => Ok(s),
                Err((p, f)) => Err(DiscFailure::File { path: p, failure: f }),
            }
        }
    }
}

/// What a whole discovery pass returns: the concatenation of every group's
/// contribution, or the first group's failure.
pub open spec fn discover_result(groups: Seq<ScanGroup>, adj: Map<int, Seq<Seq<char>>>) -> Result<
    Seq<FoundView>,
    DiscFailure,
>
    decreases groups.len(),
{
    if groups.len() == 0 {
        Ok(Seq::empty())
    } else {
        match discover_result(groups.drop_last(), adj) {
            Err(e) => Err(e),
            Ok(s) => match group_result(groups.last(), adj) {
                Ok(t) => Ok(s + t),
                Err(e) => Err(e),
            },
        }
    }
}

pub proof fn lemma_discover_err_sticks(groups: Seq<ScanGroup>, adj: Map<int, Seq<Seq<char>>>, i: int)
    requires
        0 <= i <= groups.len(),
        discover_result(groups.take(i), adj) is Err,
    ensures
        discover_result(groups, adj) == discover_result(groups.take(i), adj),
    decreases groups.len() - i,
{
    if i < groups.len() {
        assert(groups.take(i + 1).drop_last() =~= groups.take(i));
        lemma_discover_err_sticks(groups, adj, i + 1);
    } else {
        assert(groups.take(i) =~= groups);
    }
}

/// Whether the error value reports the given discovery failure.
pub open spec fn reports_disc_failure(e: DiscoveryError, f: DiscFailure) -> bool {
    match f {
        DiscFailure::Malformed { pattern } => e matches DiscoveryError::MalformedPattern {
            pattern: p,
        } && p@ == pattern,
        DiscFailure::File { path, failure } => reports_failure(e, failure, path),
    }
}

/// Run one discovery pass over the scanned groups: classify every group's
/// new files and accumulate the found episodes, exactly as `discover_result`
/// prescribes.
pub fn discover_in_groups(groups: &Vec<ScanGroup>, adjacency: &Vec<(i64, Vec<String>)>) -> (r:
    Result<Vec<FoundFile>, DiscoveryError>)
    ensures
        ({
            let res = discover_result(groups@, assoc_view(adjacency@));
            match r {
                Ok(v) => res matches Ok(s) && found_views(v@) == s,
                Err(e) => res matches Err(f) && reports_disc_failure(e, f),
            }
        }),
{
    let ghost adj = assoc_view(adjacency@);
    let mut out: Vec<FoundFile> = Vec::new();
    let mut i: usize = 0;
    proof {
        assert(found_views(out@) =~= Seq::<FoundView>::empty());
        assert(groups@.take(0) =~= Seq::<ScanGroup>::empty());
    }
    while i < groups.len()
        invariant
            0 <= i <= groups@.len(),
            adj == assoc_view(adjacency@),
            discover_result(groups@.take(i as int), adj) == Ok::<Seq<FoundView>, DiscFailure>(
                found_views(out@),
            ),
        decreases groups@.len() - i,
    {
        proof {
            assert(groups@.take(i + 1).drop_last() =~= groups@.take(i as int));
            assert(groups@.take(i + 1).last() == groups@[i as int]);
        }
        let group = &groups[i];
        if group.new_files.len() > 0 {
            match compile_directory_patterns(&group.directories) {
                Err(e) => {
                    proof {
                        lemma_discover_err_sticks(groups@, adj, i + 1);
                    }
                    return Err(e);
                },
                Ok(pats) => {
                    match classify_files(&group.directories, &pats, adjacency, &group.new_files) {
                        Err(e) => {
                            proof {
                                lemma_discover_err_sticks(groups@, adj, i + 1);
                            }
                            return Err(e);
                        },
                        Ok(mut v) => {
                            let ghost out0 = out@;
                            let ghost v0 = v@;
                            out.append(&mut v);
                            proof {
                                assert(found_views(out@) =~= found_views(out0) + found_views(v0));
                            }
                        },
                    }
                },
            }
        }
        i = i + 1;
    }
    proof {
        assert(groups@.take(groups@.len() as int) =~= groups@);
    }
    Ok(out)
}


/// The watch directories grouped under one (path, recursion) key: rows with
/// the same directory path and the same recursion flag share one filesystem
/// scan.
pub struct DirectoryGroup {
    pub dir: String,
    pub recursive: bool,
    pub members: Vec<Directory>,
}

/// The rows carrying the given (path, recursion) key, in row order.
pub open spec fn dirs_with_key(rows: Seq<Directory>, dir: Seq<char>, rec: bool) -> Seq<Directory> {
    rows.filter(|d: Directory| d.dir@ == dir && d.recursive == rec)
}

pub proof fn lemma_dirs_with_key_empty(rows: Seq<Directory>, dir: Seq<char>, rec: bool)
    requires
        forall|i: int|
            0 <= i < rows.len() ==> !((#[trigger] rows[i]).dir@ == dir && rows[i].recursive
                == rec),
    ensures
        dirs_with_key(rows, dir, rec) =~= Seq::<Directory>::empty(),
    decreases rows.len(),
{
    reveal(Seq::filter);
    if rows.len() > 0 {
        assert(forall|i: int|
            0 <= i < rows.drop_last().len() ==> !((#[trigger] rows.drop_last()[i]).dir@ == dir
                && rows.drop_last()[i].recursive == rec));
        lemma_dirs_with_key_empty(rows.drop_last(), dir, rec);
        assert(!(rows.last().dir@ == dir && rows.last().recursive == rec));
    }
}

/// Appending a row extends exactly the matching key's group.
pub proof fn lemma_dirs_with_key_push(rows: Seq<Directory>, d: Directory, dir: Seq<char>, rec: bool)
    ensures
        dirs_with_key(rows.push(d), dir, rec) == if d.dir@ == dir && d.recursive == rec {
            dirs_with_key(rows, dir, rec).push(d)
        } else {
            dirs_with_key(rows, dir, rec)
        },
{
    reveal(Seq::filter);
    assert(rows.push(d).drop_last() =~= rows);
    assert(rows.push(d).last() == d);
}

/// The group carrying the given key, if one exists.
fn find_group(r: &Vec<DirectoryGroup>, dir: &String, rec: bool) -> (o: Option<usize>)
    ensures
        match o {
            Some(gi) => gi < r@.len() && r@[gi as int].dir@ == dir@ && r@[gi as int].recursive
                == rec,
            None => forall|gi: int|
                0 <= gi < r@.len() ==> !((#[trigger] r@[gi]).dir@ == dir@ && r@[gi].recursive
                    == rec),
        },
{
    let mut gi: usize = 0;
    while gi < r.len()
        invariant
            0 <= gi <= r@.len(),
            forall|m: int|
                0 <= m < gi ==> !((#[trigger] r@[m]).dir@ == dir@ && r@[m].recursive == rec),
        decreases r@.len() - gi,
    {
        if r[gi].dir.eq(dir) && r[gi].recursive == rec {
            return Some(gi);
        }
        gi = gi + 1;
    }
    None
}

/// Whether some group in `r` carries the given (path, recursion) key.
pub open spec fn has_group_for(r: Seq<DirectoryGroup>, dir: Seq<char>, rec: bool) -> bool {
    exists|gi: int| 0 <= gi < r.len() && (#[trigger] r[gi]).dir@ == dir && r[gi].recursive == rec
}

/// A witness index for `has_group_for`.
pub proof fn lemma_group_for_witness(r: Seq<DirectoryGroup>, dir: Seq<char>, rec: bool) -> (gi:
    int)
    requires
        has_group_for(r, dir, rec),
    ensures
        0 <= gi < r.len() && r[gi].dir@ == dir && r[gi].recursive == rec,
{
    choose|gi: int| 0 <= gi < r.len() && (#[trigger] r[gi]).dir@ == dir && r[gi].recursive == rec
}

/// Group the watch directory rows by their (path, recursion) pair: each
/// returned group holds exactly the rows with its key, in row order, keys
/// are not repeated, and every row's key has a group.
pub fn group_directories(rows: Vec<Directory>) -> (r: Vec<DirectoryGroup>)
    ensures
        forall|gi: int|
            0 <= gi < r@.len() ==> (#[trigger] r@[gi]).members@ == dirs_with_key(
                rows@,
                r@[gi].dir@,
                r@[gi].recursive,
            ),
        forall|gi: int, gj: int|
            0 <= gi < gj < r@.len() ==> !((#[trigger] r@[gi]).dir@ == (#[trigger] r@[gj]).dir@
                && r@[gi].recursive == r@[gj].recursive),
        forall|ri: int|
            0 <= ri < rows@.len() ==> has_group_for(
                r@,
                (#[trigger] rows@[ri]).dir@,
                rows@[ri].recursive,
            ),
{
    let ghost all = rows@;
    let mut rest = rows;
    let mut r: Vec<DirectoryGroup> = Vec::new();
    let ghost mut p: int = 0;
    proof {
        assert(all.skip(0) =~= all);
    }
    while rest.len() > 0
        invariant
            0 <= p <= all.len(),
            rest@ == all.skip(p),
            forall|gi: int|
                0 <= gi < r@.len() ==> (#[trigger] r@[gi]).members@ == dirs_with_key(
                    all.take(p),
                    r@[gi].dir@,
                    r@[gi].recursive,
                ),
            forall|gi: int, gj: int|
                0 <= gi < gj < r@.len() ==> !((#[trigger] r@[gi]).dir@ == (#[trigger] r@[gj]).dir@
                    && r@[gi].recursive == r@[gj].recursive),
            forall|ri: int|
                0 <= ri < p ==> has_group_for(r@, (#[trigger] all[ri]).dir@, all[ri].recursive),
        decreases rest@.len(),
    {
        let d = rest.remove(0);
        proof {
            assert(d == all[p]);
            assert(all.skip(p).remove(0) =~= all.skip(p + 1));
            assert(all.take(p + 1).drop_last() =~= all.take(p));
            assert(all.take(p + 1).last() == all[p]);
            assert(all.take(p + 1) =~= all.take(p).push(all[p]));
        }
        let ghost key_dir = d.dir@;
        let ghost key_rec = d.recursive;
        match find_group(&r, &d.dir, d.recursive) {
            Some(gi) => {
                let ghost r0 = r@;
                let mut g = r.remove(gi);
                g.members.push(d);
                let ghost g1 = g;
                r.insert(gi, g);
                proof {
                    assert(r@ =~= r0.update(gi as int, g1));
                    assert(g1.dir@ == r0[gi as int].dir@ && g1.recursive == r0[
                        gi as int].recursive);
                    assert(forall|gj: int|
                        0 <= gj < r@.len() ==> (#[trigger] r@[gj]).dir@ == r0[gj].dir@
                            && r@[gj].recursive == r0[gj].recursive);
                    assert forall|gj: int| 0 <= gj < r@.len() implies (
                    #[trigger] r@[gj]).members@ == dirs_with_key(
                        all.take(p + 1),
                        r@[gj].dir@,
                        r@[gj].recursive,
                    ) by {
                        lemma_dirs_with_key_push(all.take(p), d, r@[gj].dir@, r@[gj].recursive);
                        if gj == gi {
                            assert(r@[gj].members@ == r0[gj].members@.push(d));
                        } else {
                            assert(r@[gj] == r0[gj]);
                            assert(!(d.dir@ == r0[gj].dir@ && d.recursive == r0[gj].recursive));
                        }
                    }
                    assert forall|ri: int| 0 <= ri < p + 1 implies has_group_for(
                        r@,
                        (#[trigger] all[ri]).dir@,
                        all[ri].recursive,
                    ) by {
                        if ri < p {
                            let w = lemma_group_for_witness(r0, all[ri].dir@, all[ri].recursive);
                            assert(r@[w].dir@ == all[ri].dir@ && r@[w].recursive
                                == all[ri].recursive);
                        } else {
                            assert(r@[gi as int].dir@ == all[ri].dir@ && r@[gi as int].recursive
                                == all[ri].recursive);
                        }
                    }
                }
            },
            None => {
                let ghost r0 = r@;
                let dir_name = d.dir.clone();
                let recursive = d.recursive;
                let mut members: Vec<Directory> = Vec::new();
                members.push(d);
                r.push(DirectoryGroup { dir: dir_name, recursive, members });
                proof {
                    assert(r@.drop_last() =~= r0);
                    assert forall|ri: int| 0 <= ri < p implies !((#[trigger] all[ri]).dir@
                        == key_dir && all[ri].recursive == key_rec) by {
                        if all[ri].dir@ == key_dir && all[ri].recursive == key_rec {
                            let w = lemma_group_for_witness(r0, all[ri].dir@, all[ri].recursive);
                            assert(!(r0[w].dir@ == key_dir && r0[w].recursive == key_rec));
                        }
                    }
                    assert(forall|i: int|
                        0 <= i < all.take(p).len() ==> !((#[trigger] all.take(p)[i]).dir@
                            == key_dir && all.take(p)[i].recursive == key_rec));
                    lemma_dirs_with_key_empty(all.take(p), key_dir, key_rec);
                    assert forall|gj: int| 0 <= gj < r@.len() implies (
                    #[trigger] r@[gj]).members@ == dirs_with_key(
                        all.take(p + 1),
                        r@[gj].dir@,
                        r@[gj].recursive,
                    ) by {
                        lemma_dirs_with_key_push(all.take(p), d, r@[gj].dir@, r@[gj].recursive);
                        if gj == r@.len() - 1 {
                            assert(r@[gj].members@ =~= Seq::<Directory>::empty().push(d));
                        } else {
                            assert(r@[gj] == r0[gj]);
                            assert(!(d.dir@ == r0[gj].dir@ && d.recursive == r0[gj].recursive));
                        }
                    }
                    assert forall|ri: int| 0 <= ri < p + 1 implies has_group_for(
                        r@,
                        (#[trigger] all[ri]).dir@,
                        all[ri].recursive,
                    ) by {
                        if ri < p {
                            let w = lemma_group_for_witness(r0, all[ri].dir@, all[ri].recursive);
                            assert(r@[w].dir@ == all[ri].dir@ && r@[w].recursive
                                == all[ri].recursive);
                        } else {
                            let w = r@.len() - 1;
                            assert(r@[w].dir@ == all[ri].dir@ && r@[w].recursive
                                == all[ri].recursive);
                        }
                    }
                }
            },
        }
        proof {
            p = p + 1;
        }
    }
    proof {
        assert(all.skip(p).len() == all.len() - p);
        assert(p == all.len());
        assert(all.take(p) =~= all);
        assert(all == rows@);
    }
    r
}


/// Adjacency exclusion: a file whose extension is in its series' adjacency
/// set is never in the classification output, whatever its pattern says.
pub proof fn lemma_adjacency_exclusion(
    dirs: Seq<Directory>,
    adj: Map<int, Seq<Seq<char>>>,
    files: Seq<String>,
)
    ensures
        classify_batch(dirs, adj, files) matches Ok(s) ==> forall|i: int|
            0 <= i < s.len() ==> !is_adjacent_ext(adj, (#[trigger] s[i]).series as int, s[i].path),
    decreases files.len(),
{
    if files.len() > 0 {
        lemma_adjacency_exclusion(dirs, adj, files.drop_last());
        match classify_batch(dirs, adj, files) {
            Err(_) => {},
            Ok(s) => {
                assert forall|i: int| 0 <= i < s.len() implies !is_adjacent_ext(
                    adj,
                    (#[trigger] s[i]).series as int,
                    s[i].path,
                ) by {
                    let prev = classify_batch(dirs, adj, files.drop_last());
                    match classify_decision(dirs, adj, files.last()@) {
                        ClassifyDecision::Take { series, directory, volume, chapter } => {
                            if i < s.len() - 1 {
                                assert(s[i] == prev->Ok_0[i]);
                            } else {
                                assert(s[i].series == series && s[i].path == files.last()@);
                            }
                        },
                        _ => {
                            assert(s[i] == prev->Ok_0[i]);
                        },
                    }
                }
            },
        }
    }
}

/// Whether no later episode claims the same file path.
pub open spec fn is_last_with_file(eps: Seq<Episode>, k: int) -> bool {
    forall|j: int| k < j < eps.len() ==> (#[trigger] eps[j]).file@ != eps[k].file@
}

/// The identifiers of the unread episodes whose file is gone: for each file
/// path (keeping only the last episode that names it), the episode's id when
/// the file was not found on disk.
pub open spec fn dangling_upto(eps: Seq<Episode>, found: Seq<String>, i: int) -> Seq<i64>
    decreases i,
{
    if i <= 0 {
        Seq::empty()
    } else {
        let rest = dangling_upto(eps, found, i - 1);
        if is_last_with_file(eps, i - 1) && !seq_contains_str(found, eps[i - 1].file@) {
            rest.push(eps[i - 1].id)
        } else {
            rest
        }
    }
}

pub open spec fn dangling_ids_spec(eps: Seq<Episode>, found: Seq<String>) -> Seq<i64> {
    dangling_upto(eps, found, eps.len() as int)
}

/// List the unread episodes whose file no longer exists: `found` holds every
/// file listed in the episodes' directories.
pub fn dangling_episode_ids(eps: &Vec<Episode>, found: &Vec<String>) -> (r: Vec<i64>)
    ensures
        r@ == dangling_ids_spec(eps@, found@),
{
    let mut r: Vec<i64> = Vec::new();
    let n = eps.len();
    let mut i: usize = 0;
    while i < n
        invariant
            0 <= i <= n,
            n == eps@.len(),
            r@ == dangling_upto(eps@, found@, i as int),
        decreases n - i,
    {
        let mut last = true;
        let mut j: usize = i + 1;
        while j < n
            invariant
                i < j <= n,
                n == eps@.len(),
                last == (forall|m: int| i < m < j ==> (#[trigger] eps@[m]).file@ != eps@[
                    i as int].file@),
            decreases n - j,
        {
            if eps[j].file.eq(&eps[i].file) {
                last = false;
            }
            j = j + 1;
        }
        if last && !contains_path(found, &eps[i].file) {
            r.push(eps[i].id);
        }
        i = i + 1;
    }
    r
}

} // verus!
