//! Per-series sets of "adjacent" file extensions, derived from the media
//! type rows: a file with such an extension is a companion of an episode
//! (subtitles, a cover), not an episode of its own.

use vstd::prelude::*;
use crate::models::{MediaType, Series};
use crate::text::{split_ws, split_whitespace_tokens, views_of};

verus! {

/// An association list keyed by an id, read as a map; a later entry with the
/// same key replaces an earlier one.
pub open spec fn assoc_view(m: Seq<(i64, Vec<String>)>) -> Map<int, Seq<Seq<char>>>
    decreases m.len(),
{
    if m.len() == 0 {
        Map::empty()
    } else {
        assoc_view(m.drop_last()).insert(m.last().0 as int, views_of(m.last().1@))
    }
}

/// Adjacent extensions per media type: each row's whitespace-separated
/// configuration string, split.
pub open spec fn media_adjacency_map(rows: Seq<MediaType>) -> Map<int, Seq<Seq<char>>>
    decreases rows.len(),
{
    if rows.len() == 0 {
        Map::empty()
    } else {
        media_adjacency_map(rows.drop_last()).insert(
            rows.last().id as int,
            split_ws(rows.last().adjacent_file_types@),
        )
    }
}

/// Adjacent extensions per series: each series inherits its media type's
/// set; a series whose media type is unknown gets none.
pub open spec fn series_adjacency_map(
    rows: Seq<Series>,
    media: Map<int, Seq<Seq<char>>>,
) -> Map<int, Seq<Seq<char>>>
    decreases rows.len(),
{
    if rows.len() == 0 {
        Map::empty()
    } else {
        let rest = series_adjacency_map(rows.drop_last(), media);
        if media.contains_key(rows.last().media_type as int) {
            rest.insert(rows.last().id as int, media[rows.last().media_type as int])
        } else {
            rest
        }
    }
}

/// The entry for `key`, if any: the index of the last pair carrying it.
pub fn assoc_get(m: &Vec<(i64, Vec<String>)>, key: i64) -> (r: Option<usize>)
    ensures
        match r {
            Some(i) => i < m@.len() && m@[i as int].0 == key && assoc_view(m@).contains_key(
                key as int,
            ) && assoc_view(m@)[key as int] == views_of(m@[i as int].1@),
            None => !assoc_view(m@).contains_key(key as int),
        },
{
    let mut i: usize = m.len();
    proof {
        assert(m@.take(m@.len() as int) =~= m@);
    }
    while i > 0
        invariant
            0 <= i <= m@.len(),
            assoc_view(m@).contains_key(key as int) == assoc_view(m@.take(i as int)).contains_key(
                key as int,
            ),
            assoc_view(m@).contains_key(key as int) ==> assoc_view(m@)[key as int] == assoc_view(
                m@.take(i as int),
            )[key as int],
        decreases i,
    {
        proof {
            assert(m@.take(i as int).drop_last() =~= m@.take(i - 1));
            assert(m@.take(i as int).last() == m@[i - 1]);
        }
        if m[i - 1].0 == key {
            return Some(i - 1);
        }
        i = i - 1;
    }
    proof {
        assert(m@.take(0) =~= Seq::<(i64, Vec<String>)>::empty());
    }
    None
}

/// A copy of a list of strings.
pub fn clone_strings(v: &Vec<String>) -> (r: Vec<String>)
    ensures
        views_of(r@) == views_of(v@),
{
    let mut r: Vec<String> = Vec::new();
    let mut i: usize = 0;
    while i < v.len()
        invariant
            0 <= i <= v@.len(),
            r@.len() == i,
            forall|j: int| 0 <= j < i ==> #[trigger] r@[j]@ == v@[j]@,
        decreases v@.len() - i,
    {
        let c = v[i].clone();
        assert(c@ == v@[i as int]@);
        r.push(c);
        i = i + 1;
    }
    proof {
        assert(views_of(r@) =~= views_of(v@));
    }
    r
}

/// Build the per-media-type adjacency sets from the media type rows.
pub fn media_type_adjacency(rows: &Vec<MediaType>) -> (r: Vec<(i64, Vec<String>)>)
    ensures
        assoc_view(r@) == media_adjacency_map(rows@),
{
    let mut r: Vec<(i64, Vec<String>)> = Vec::new();
    let mut i: usize = 0;
    while i < rows.len()
        invariant
            0 <= i <= rows@.len(),
            assoc_view(r@) == media_adjacency_map(rows@.take(i as int)),
        decreases rows@.len() - i,
    {
        let tokens = split_whitespace_tokens(&rows[i].adjacent_file_types);
        let id = rows[i].id;
        let ghost r0 = r@;
        r.push((id, tokens));
        proof {
            assert(r@.drop_last() =~= r0);
            assert(rows@.take(i + 1).drop_last() =~= rows@.take(i as int));
            assert(rows@.take(i + 1).last() == rows@[i as int]);
        }
        i = i + 1;
    }
    proof {
        assert(rows@.take(rows@.len() as int) =~= rows@);
    }
    r
}

/// Build the per-series adjacency sets from the series rows and the
/// per-media-type sets.
pub fn series_adjacency(serieses: &Vec<Series>, media: &Vec<(i64, Vec<String>)>) -> (r: Vec<
    (i64, Vec<String>),
>)
    ensures
        assoc_view(r@) == series_adjacency_map(serieses@, assoc_view(media@)),
{
    let mut r: Vec<(i64, Vec<String>)> = Vec::new();
    let mut i: usize = 0;
    while i < serieses.len()
        invariant
            0 <= i <= serieses@.len(),
            assoc_view(r@) == series_adjacency_map(serieses@.take(i as int), assoc_view(media@)),
        decreases serieses@.len() - i,
    {
        proof {
            assert(serieses@.take(i + 1).drop_last() =~= serieses@.take(i as int));
            assert(serieses@.take(i + 1).last() == serieses@[i as int]);
        }
        match assoc_get(media, serieses[i].media_type) {
            Some(idx) => {
                let exts = clone_strings(&media[idx].1);
                let id = serieses[i].id;
                let ghost r0 = r@;
                r.push((id, exts));
                proof {
                    assert(r@.drop_last() =~= r0);
                }
            },
            None => {},
        }
        i = i + 1;
    }
    proof {
        assert(serieses@.take(serieses@.len() as int) =~= serieses@);
    }
    r
}

/// Whether `v` holds a string whose characters are `x`.
pub fn contains_token(v: &Vec<String>, x: &String) -> (r: bool)
    ensures
        r == views_of(v@).contains(x@),
{
    let mut i: usize = 0;
    while i < v.len()
        invariant
            0 <= i <= v@.len(),
            forall|j: int| 0 <= j < i ==> views_of(v@)[j] != x@,
        decreases v@.len() - i,
    {
        if v[i].eq(x) {
            assert(views_of(v@)[i as int] == x@);
            return true;
        }
        i = i + 1;
    }
    false
}

} // verus!
