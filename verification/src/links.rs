//! The links directory: deterministic names for symlinks to unread episode
//! files, and the minimal create/delete plan that makes the directory match
//! the desired set of links.
//!
//! A link's name is the episode's display name with the digits of its
//! trailing chapter marker (`c` followed by digits, at the end) left-padded
//! with zeros to the series' widest marker, then a space and the episode's
//! identifier — which makes names unique — and finally the episode file's
//! extension, if it has one.

use vstd::prelude::*;
use crate::models::Episode;
use crate::numbers::{is_digit_char, is_digit, i64_dec_chars, i64_to_dec};
use crate::paths::{extension_of, extension_of_path, strip_extension, strip_extension_path, path_join};
use crate::text::{string_to_chars, chars_to_string};

verus! {

/// Length of the trailing run of decimal digits.
pub open spec fn trailing_digit_run_len(s: Seq<char>) -> nat
    decreases s.len(),
{
    if s.len() == 0 || !is_digit_char(s.last()) {
        0
    } else {
        1 + trailing_digit_run_len(s.drop_last())
    }
}

pub proof fn lemma_trailing_run_le(s: Seq<char>)
    ensures
        trailing_digit_run_len(s) <= s.len(),
    decreases s.len(),
{
    if s.len() > 0 && is_digit_char(s.last()) {
        lemma_trailing_run_le(s.drop_last());
    }
}

/// The trailing digit run is exactly the maximal all-digit suffix.
pub proof fn lemma_trailing_run_is(s: Seq<char>, k: int)
    requires
        0 <= k <= s.len(),
        forall|m: int| s.len() - k <= m < s.len() ==> is_digit_char(#[trigger] s[m]),
        k == s.len() || !is_digit_char(s[s.len() - k - 1]),
    ensures
        trailing_digit_run_len(s) == k,
    decreases s.len(),
{
    if k == 0 {
    } else {
        assert(is_digit_char(s.last()));
        assert(forall|m: int|
            s.drop_last().len() - (k - 1) <= m < s.drop_last().len() ==> is_digit_char(
                #[trigger] s.drop_last()[m],
            ));
        lemma_trailing_run_is(s.drop_last(), k - 1);
    }
}

/// The digit-length of the trailing chapter marker `c<digits>`, when the
/// name ends with one.
pub open spec fn chapter_marker_len(s: Seq<char>) -> Option<nat> {
    let k = trailing_digit_run_len(s);
    if k >= 1 && k < s.len() && s[s.len() - k - 1] == 'c' {
        Some(k)
    } else {
        None
    }
}

/// Find the trailing chapter marker of a name, as `chapter_marker_len`
/// describes it.
pub fn chapter_marker(name: &Vec<char>) -> (r: Option<usize>)
    ensures
        match r {
            Some(k) => chapter_marker_len(name@) == Some(k as nat),
            None => chapter_marker_len(name@) is None,
        },
{
    let n = name.len();
    let mut k: usize = 0;
    while k < n && is_digit(name[n - k - 1])
        invariant
            0 <= k <= n,
            n == name@.len(),
            forall|m: int| n - k <= m < n ==> is_digit_char(#[trigger] name@[m]),
        decreases n - k,
    {
        k = k + 1;
    }
    proof {
        lemma_trailing_run_is(name@, k as int);
    }
    if k >= 1 && k < n && name[n - k - 1] == 'c' {
        Some(k)
    } else {
        None
    }
}

/// Per-series maximum digit-length of the trailing chapter markers among the
/// given episodes; a series none of whose episodes has a marker is absent.
pub open spec fn pad_widths_map(eps: Seq<Episode>) -> Map<int, nat>
    decreases eps.len(),
{
    if eps.len() == 0 {
        Map::empty()
    } else {
        let rest = pad_widths_map(eps.drop_last());
        let e = eps.last();
        match chapter_marker_len(e.name@) {
            None => rest,
            Some(k) => if rest.contains_key(e.series as int) {
                rest.insert(
                    e.series as int,
                    if rest[e.series as int] >= k {
                        rest[e.series as int]
                    } else {
                        k
                    },
                )
            } else {
                rest.insert(e.series as int, k)
            },
        }
    }
}

/// The association list of pad widths, read as a map.
pub open spec fn widths_view(m: Seq<(i64, usize)>) -> Map<int, nat>
    decreases m.len(),
{
    if m.len() == 0 {
        Map::empty()
    } else {
        widths_view(m.drop_last()).insert(m.last().0 as int, m.last().1 as nat)
    }
}

/// The entry for `key` in a width list, if any: the index of the last pair
/// carrying it.
pub fn widths_find(m: &Vec<(i64, usize)>, key: i64) -> (r: Option<usize>)
    ensures
        match r {
            Some(i) => i < m@.len() && m@[i as int].0 == key && widths_view(m@).contains_key(
                key as int,
            ) && widths_view(m@)[key as int] == m@[i as int].1 as nat,
            None => !widths_view(m@).contains_key(key as int),
        },
{
    let mut i: usize = m.len();
    proof {
        assert(m@.take(m@.len() as int) =~= m@);
    }
    while i > 0
        invariant
            0 <= i <= m@.len(),
            widths_view(m@).contains_key(key as int) == widths_view(m@.take(i as int)).contains_key(
                key as int,
            ),
            widths_view(m@).contains_key(key as int) ==> widths_view(m@)[key as int] == widths_view(
                m@.take(i as int),
            )[key as int],
        decreases i,
    {
        proof {
            assert(m@.take(i as int).drop_last() =~= m@.take(i - 1));
            assert(m@.take(i as int).last() == m@[i - 1]);
        }
        if m[i - 1].0 == key {
            return Some(i - 1);
        }
        i = i - 1;
    }
    proof {
        assert(m@.take(0) =~= Seq::<(i64, usize)>::empty());
    }
    None
}

/// Compute each series' chapter-marker pad width from the unread episodes.
pub fn chapter_pad_widths(eps: &Vec<Episode>) -> (r: Vec<(i64, usize)>)
    ensures
        widths_view(r@) == pad_widths_map(eps@),
{
    let mut r: Vec<(i64, usize)> = Vec::new();
    let mut i: usize = 0;
    while i < eps.len()
        invariant
            0 <= i <= eps@.len(),
            widths_view(r@) == pad_widths_map(eps@.take(i as int)),
        decreases eps@.len() - i,
    {
        proof {
            assert(eps@.take(i + 1).drop_last() =~= eps@.take(i as int));
            assert(eps@.take(i + 1).last() == eps@[i as int]);
        }
        let name_chars = string_to_chars(eps[i].name.as_str());
        match chapter_marker(&name_chars) {
            None => {},
            Some(k) => {
                let series = eps[i].series;
                match widths_find(&r, series) {
                    Some(fj) => {
                        let ghost r0 = r@;
                        let pair = r.remove(fj);
                        let w = if pair.1 >= k {
                            pair.1
                        } else {
                            k
                        };
                        r.push((series, w));
                        proof {
                            assert(r@ =~= r0.remove(fj as int).push((series, w)));
                            lemma_widths_requeue(r0, fj as int, series, w);
                        }
                    },
                    None => {
                        let ghost r0 = r@;
                        r.push((series, k));
                        proof {
                            assert(r@.drop_last() =~= r0);
                        }
                    },
                }
            },
        }
        i = i + 1;
    }
    proof {
        assert(eps@.take(eps@.len() as int) =~= eps@);
    }
    r
}

/// Removing an entry and appending a fresh one for the same key leaves the
/// map as a plain insert.
pub proof fn lemma_widths_requeue(m: Seq<(i64, usize)>, fj: int, key: i64, w: usize)
    requires
        0 <= fj < m.len(),
        m[fj].0 == key,
    ensures
        widths_view(m.remove(fj).push((key, w))) == widths_view(m).insert(key as int, w as nat),
{
    lemma_widths_remove_other(m, fj, key);
    assert(m.remove(fj).push((key, w)).drop_last() =~= m.remove(fj));
    assert(widths_view(m.remove(fj).push((key, w))) == widths_view(m.remove(fj)).insert(
        key as int,
        w as nat,
    ));
    assert forall|k2: int|
        widths_view(m.remove(fj)).insert(key as int, w as nat).contains_key(k2) implies
        widths_view(m).insert(key as int, w as nat).contains_key(k2) && widths_view(
        m.remove(fj),
    ).insert(key as int, w as nat)[k2] == widths_view(m).insert(key as int, w as nat)[k2] by {
        if k2 != key as int {
            assert(widths_view(m.remove(fj)).contains_key(k2) == widths_view(m).contains_key(k2));
        }
    }
    assert forall|k2: int|
        widths_view(m).insert(key as int, w as nat).contains_key(k2) implies widths_view(
        m.remove(fj),
    ).insert(key as int, w as nat).contains_key(k2) by {
        if k2 != key as int {
            assert(widths_view(m.remove(fj)).contains_key(k2) == widths_view(m).contains_key(k2));
        }
    }
    assert(widths_view(m.remove(fj)).insert(key as int, w as nat) =~= widths_view(m).insert(
        key as int,
        w as nat,
    ));
}

/// Dropping one entry for a key changes the map at most at that key.
pub proof fn lemma_widths_remove_other(m: Seq<(i64, usize)>, fj: int, key: i64)
    requires
        0 <= fj < m.len(),
        m[fj].0 == key,
    ensures
        forall|k2: int|
            k2 != key as int ==> #[trigger] widths_view(m.remove(fj)).contains_key(k2)
                == widths_view(m).contains_key(k2),
        forall|k2: int|
            k2 != key as int && widths_view(m).contains_key(k2) ==> #[trigger] widths_view(
                m.remove(fj),
            )[k2] == widths_view(m)[k2],
    decreases m.len(),
{
    if fj == m.len() - 1 {
        assert(m.remove(fj) =~= m.drop_last());
    } else {
        lemma_widths_remove_other(m.drop_last(), fj, key);
        assert(m.remove(fj).drop_last() =~= m.drop_last().remove(fj));
        assert(m.remove(fj).last() == m.last());
        assert(widths_view(m.remove(fj)) == widths_view(m.drop_last().remove(fj)).insert(
            m.last().0 as int,
            m.last().1 as nat,
        ));
        assert(widths_view(m) == widths_view(m.drop_last()).insert(
            m.last().0 as int,
            m.last().1 as nat,
        ));
        assert forall|k2: int| k2 != key as int implies #[trigger] widths_view(
            m.remove(fj),
        ).contains_key(k2) == widths_view(m).contains_key(k2) by {
            assert(widths_view(m.drop_last().remove(fj)).contains_key(k2) == widths_view(
                m.drop_last(),
            ).contains_key(k2));
        }
        assert forall|k2: int| k2 != key as int && widths_view(m).contains_key(k2) implies
            #[trigger] widths_view(m.remove(fj))[k2] == widths_view(m)[k2] by {
            assert(widths_view(m.drop_last().remove(fj)).contains_key(k2) == widths_view(
                m.drop_last(),
            ).contains_key(k2));
            if k2 != m.last().0 as int {
                assert(widths_view(m.drop_last()).contains_key(k2));
                assert(widths_view(m.drop_last().remove(fj))[k2] == widths_view(m.drop_last())[k2]);
            }
        }
    }
}

/// `n` zero characters.
pub open spec fn zeros(n: nat) -> Seq<char> {
    Seq::new(n, |i: int| '0')
}

/// The display name with its trailing chapter marker's digits left-padded
/// with zeros to the given width; a name without a marker is unchanged.
pub open spec fn padded_name(name: Seq<char>, width: nat) -> Seq<char> {
    match chapter_marker_len(name) {
        None => name,
        Some(k) => name.take(name.len() - k) + zeros(if width >= k {
            (width - k) as nat
        } else {
            0
        }) + name.skip(name.len() - k),
    }
}

/// The base of an episode's link name: the (possibly padded) display name,
/// a space, and the episode identifier — which makes link names unique.
pub open spec fn base_with_id_view(e: Episode, width: Option<nat>) -> Seq<char> {
    let base = match width {
        Some(w) => padded_name(e.name@, w),
        None => e.name@,
    };
    base + seq![' '] + i64_dec_chars(e.id as int)
}

/// The name of an episode's link: the base name, and the file's extension if
/// it has one.
pub open spec fn link_name_view(e: Episode, width: Option<nat>) -> Seq<char> {
    match extension_of(e.file@) {
        Some(x) => base_with_id_view(e, width) + seq!['.'] + x,
        None => base_with_id_view(e, width),
    }
}

/// The name of an adjacent file's link: the same base name with the
/// adjacent file's extension.
pub open spec fn adjacent_link_name_view(e: Episode, width: Option<nat>, ext: Seq<char>) -> Seq<
    char,
> {
    base_with_id_view(e, width) + seq!['.'] + ext
}

/// Append every character of `src` from `from` (inclusive) to `to`
/// (exclusive) onto `out`.
fn push_range(out: &mut Vec<char>, src: &Vec<char>, from: usize, to: usize)
    requires
        from <= to <= src@.len(),
    ensures
        final(out)@ == old(out)@ + src@.subrange(from as int, to as int),
{
    let mut i: usize = from;
    proof {
        assert(old(out)@ + src@.subrange(from as int, from as int) =~= old(out)@);
    }
    while i < to
        invariant
            from <= i <= to <= src@.len(),
            out@ == old(out)@ + src@.subrange(from as int, i as int),
        decreases to - i,
    {
        out.push(src[i]);
        proof {
            assert(old(out)@ + src@.subrange(from as int, i + 1) =~= (old(out)@ + src@.subrange(
                from as int,
                i as int,
            )).push(src@[i as int]));
        }
        i = i + 1;
    }
}

/// Build the base of an episode's link name, given its series' pad width
/// when one exists.
pub fn link_base_with_id(e: &Episode, width: Option<usize>) -> (r: String)
    ensures
        r@ == base_with_id_view(*e, match width {
            Some(w) => Some(w as nat),
            None => None,
        }),
{
    let name_chars = string_to_chars(e.name.as_str());
    let mut out: Vec<char> = Vec::new();
    match width {
        None => {
            push_range(&mut out, &name_chars, 0, name_chars.len());
            proof {
                assert(name_chars@.subrange(0, name_chars@.len() as int) =~= name_chars@);
                assert(out@ =~= e.name@);
            }
        },
        Some(w) => {
            match chapter_marker(&name_chars) {
                None => {
                    push_range(&mut out, &name_chars, 0, name_chars.len());
                    proof {
                        assert(name_chars@.subrange(0, name_chars@.len() as int) =~= name_chars@);
                        assert(out@ =~= padded_name(e.name@, w as nat));
                    }
                },
                Some(k) => {
                    proof {
                        lemma_trailing_run_le(name_chars@);
                    }
                    let n = name_chars.len();
                    push_range(&mut out, &name_chars, 0, n - k);
                    let ghost out1 = out@;
                    let mut z: usize = k;
                    while z < w
                        invariant
                            k <= z,
                            z <= w || z == k,
                            out@ == out1 + zeros((z - k) as nat),
                        decreases w - z,
                    {
                        out.push('0');
                        proof {
                            assert(out1 + zeros((z + 1 - k) as nat) =~= (out1 + zeros(
                                (z - k) as nat,
                            )).push('0'));
                        }
                        z = z + 1;
                    }
                    push_range(&mut out, &name_chars, n - k, n);
                    proof {
                        if w >= k {
                            assert(zeros((w - k) as nat) == zeros(
                                if w as nat >= k as nat {
                                    (w - k) as nat
                                } else {
                                    0
                                },
                            ));
                        } else {
                            assert(zeros(0) =~= Seq::<char>::empty());
                            assert(out1 + zeros((k - k) as nat) =~= out1);
                        }
                        assert(out@ =~= padded_name(e.name@, w as nat));
                    }
                },
            }
        },
    }
    let ghost base = out@;
    out.push(' ');
    let id_chars = i64_to_dec(e.id);
    push_range(&mut out, &id_chars, 0, id_chars.len());
    proof {
        assert(id_chars@.subrange(0, id_chars@.len() as int) =~= id_chars@);
        assert(out@ =~= base + seq![' '] + i64_dec_chars(e.id as int));
    }
    chars_to_string(&out)
}

/// `base`, a dot, and `ext`.
pub fn with_dot_ext(base: &String, ext: &String) -> (r: String)
    ensures
        r@ == base@ + seq!['.'] + ext@,
{
    let base_chars = string_to_chars(base.as_str());
    let ext_chars = string_to_chars(ext.as_str());
    let mut out: Vec<char> = Vec::new();
    push_range(&mut out, &base_chars, 0, base_chars.len());
    out.push('.');
    push_range(&mut out, &ext_chars, 0, ext_chars.len());
    proof {
        assert(base_chars@.subrange(0, base_chars@.len() as int) =~= base_chars@);
        assert(ext_chars@.subrange(0, ext_chars@.len() as int) =~= ext_chars@);
        assert(out@ =~= base@ + seq!['.'] + ext@);
    }
    chars_to_string(&out)
}

/// Build the link file name for one episode, given its series' pad width
/// when one exists.
pub fn link_file_name(e: &Episode, width: Option<usize>) -> (r: String)
    ensures
        r@ == link_name_view(*e, match width {
            Some(w) => Some(w as nat),
            None => None,
        }),
{
    let base = link_base_with_id(e, width);
    match extension_of_path(&e.file) {
        Some(x) => with_dot_ext(&base, &x),
        None => base,
    }
}


/// An association list keyed by a path string, read as a map; a later entry
/// with the same key replaces an earlier one.
pub open spec fn str_assoc_view(m: Seq<(String, Vec<String>)>) -> Map<Seq<char>, Seq<Seq<char>>>
    decreases m.len(),
{
    if m.len() == 0 {
        Map::empty()
    } else {
        str_assoc_view(m.drop_last()).insert(
            m.last().0@,
            crate::text::views_of(m.last().1@),
        )
    }
}

/// The entry for `key`, if any: the index of the last pair carrying it.
pub fn str_assoc_find(m: &Vec<(String, Vec<String>)>, key: &String) -> (r: Option<usize>)
    ensures
        match r {
            Some(i) => i < m@.len() && m@[i as int].0@ == key@ && str_assoc_view(m@).contains_key(
                key@,
            ) && str_assoc_view(m@)[key@] == crate::text::views_of(m@[i as int].1@),
            None => !str_assoc_view(m@).contains_key(key@),
        },
{
    let mut i: usize = m.len();
    proof {
        assert(m@.take(m@.len() as int) =~= m@);
    }
    while i > 0
        invariant
            0 <= i <= m@.len(),
            str_assoc_view(m@).contains_key(key@) == str_assoc_view(m@.take(i as int)).contains_key(
                key@,
            ),
            str_assoc_view(m@).contains_key(key@) ==> str_assoc_view(m@)[key@] == str_assoc_view(
                m@.take(i as int),
            )[key@],
        decreases i,
    {
        proof {
            assert(m@.take(i as int).drop_last() =~= m@.take(i - 1));
            assert(m@.take(i as int).last() == m@[i - 1]);
        }
        if m[i - 1].0.eq(key) {
            return Some(i - 1);
        }
        i = i - 1;
    }
    proof {
        assert(m@.take(0) =~= Seq::<(String, Vec<String>)>::empty());
    }
    None
}

/// Dropping one entry for a key changes the map at most at that key.
pub proof fn lemma_str_assoc_remove_other(m: Seq<(String, Vec<String>)>, fj: int, key: Seq<char>)
    requires
        0 <= fj < m.len(),
        m[fj].0@ == key,
    ensures
        forall|k2: Seq<char>|
            k2 != key ==> #[trigger] str_assoc_view(m.remove(fj)).contains_key(k2)
                == str_assoc_view(m).contains_key(k2),
        forall|k2: Seq<char>|
            k2 != key && str_assoc_view(m).contains_key(k2) ==> #[trigger] str_assoc_view(
                m.remove(fj),
            )[k2] == str_assoc_view(m)[k2],
    decreases m.len(),
{
    if fj == m.len() - 1 {
        assert(m.remove(fj) =~= m.drop_last());
    } else {
        lemma_str_assoc_remove_other(m.drop_last(), fj, key);
        assert(m.remove(fj).drop_last() =~= m.drop_last().remove(fj));
        assert(m.remove(fj).last() == m.last());
        assert(str_assoc_view(m.remove(fj)) == str_assoc_view(m.drop_last().remove(fj)).insert(
            m.last().0@,
            crate::text::views_of(m.last().1@),
        ));
        assert(str_assoc_view(m) == str_assoc_view(m.drop_last()).insert(
            m.last().0@,
            crate::text::views_of(m.last().1@),
        ));
        assert forall|k2: Seq<char>| k2 != key implies #[trigger] str_assoc_view(
            m.remove(fj),
        ).contains_key(k2) == str_assoc_view(m).contains_key(k2) by {
            assert(str_assoc_view(m.drop_last().remove(fj)).contains_key(k2) == str_assoc_view(
                m.drop_last(),
            ).contains_key(k2));
        }
        assert forall|k2: Seq<char>| k2 != key && str_assoc_view(m).contains_key(k2) implies
            #[trigger] str_assoc_view(m.remove(fj))[k2] == str_assoc_view(m)[k2] by {
            assert(str_assoc_view(m.drop_last().remove(fj)).contains_key(k2) == str_assoc_view(
                m.drop_last(),
            ).contains_key(k2));
            if k2 != m.last().0@ {
                assert(str_assoc_view(m.drop_last()).contains_key(k2));
                assert(str_assoc_view(m.drop_last().remove(fj))[k2] == str_assoc_view(
                    m.drop_last(),
                )[k2]);
            }
        }
    }
}

/// Removing an entry and appending a fresh one for the same key leaves the
/// map as a plain insert.
pub proof fn lemma_str_assoc_requeue(
    m: Seq<(String, Vec<String>)>,
    fj: int,
    pair: (String, Vec<String>),
)
    requires
        0 <= fj < m.len(),
        m[fj].0@ == pair.0@,
    ensures
        str_assoc_view(m.remove(fj).push(pair)) == str_assoc_view(m).insert(
            pair.0@,
            crate::text::views_of(pair.1@),
        ),
{
    let key = pair.0@;
    let val = crate::text::views_of(pair.1@);
    lemma_str_assoc_remove_other(m, fj, key);
    assert(m.remove(fj).push(pair).drop_last() =~= m.remove(fj));
    assert(str_assoc_view(m.remove(fj).push(pair)) == str_assoc_view(m.remove(fj)).insert(
        key,
        val,
    ));
    assert forall|k2: Seq<char>|
        str_assoc_view(m.remove(fj)).insert(key, val).contains_key(k2) implies str_assoc_view(
        m,
    ).insert(key, val).contains_key(k2) && str_assoc_view(m.remove(fj)).insert(key, val)[k2]
        == str_assoc_view(m).insert(key, val)[k2] by {
        if k2 != key {
            assert(str_assoc_view(m.remove(fj)).contains_key(k2) == str_assoc_view(
                m,
            ).contains_key(k2));
        }
    }
    assert forall|k2: Seq<char>|
        str_assoc_view(m).insert(key, val).contains_key(k2) implies str_assoc_view(
        m.remove(fj),
    ).insert(key, val).contains_key(k2) by {
        if k2 != key {
            assert(str_assoc_view(m.remove(fj)).contains_key(k2) == str_assoc_view(
                m,
            ).contains_key(k2));
        }
    }
    assert(str_assoc_view(m.remove(fj)).insert(key, val) =~= str_assoc_view(m).insert(key, val));
}

/// The adjacent files found on disk, indexed by path-without-extension: each
/// listed file whose extension is a potential adjacent suffix is recorded
/// under its stem.
pub open spec fn adjacent_index_map(files: Seq<String>, suffixes: Seq<Seq<char>>) -> Map<
    Seq<char>,
    Seq<Seq<char>>,
>
    decreases files.len(),
{
    if files.len() == 0 {
        Map::empty()
    } else {
        let rest = adjacent_index_map(files.drop_last(), suffixes);
        let f = files.last()@;
        match extension_of(f) {
            None => rest,
            Some(x) => if suffixes.contains(x) {
                let stem = strip_extension(f);
                if rest.contains_key(stem) {
                    rest.insert(stem, rest[stem].push(x))
                } else {
                    rest.insert(stem, seq![x])
                }
            } else {
                rest
            },
        }
    }
}

/// Index the files listed in the episode directories by stem, keeping the
/// extensions that some series treats as adjacent.
pub fn adjacent_files_index(files: &Vec<String>, suffixes: &Vec<String>) -> (r: Vec<
    (String, Vec<String>),
>)
    ensures
        str_assoc_view(r@) == adjacent_index_map(files@, crate::text::views_of(suffixes@)),
{
    let mut r: Vec<(String, Vec<String>)> = Vec::new();
    let mut i: usize = 0;
    while i < files.len()
        invariant
            0 <= i <= files@.len(),
            str_assoc_view(r@) == adjacent_index_map(
                files@.take(i as int),
                crate::text::views_of(suffixes@),
            ),
        decreases files@.len() - i,
    {
        proof {
            assert(files@.take(i + 1).drop_last() =~= files@.take(i as int));
            assert(files@.take(i + 1).last() == files@[i as int]);
        }
        match extension_of_path(&files[i]) {
            None => {},
            Some(x) => {
                if crate::adjacency::contains_token(suffixes, &x) {
                    let stem = strip_extension_path(&files[i]);
                    match str_assoc_find(&r, &stem) {
                        Some(fj) => {
                            let ghost r0 = r@;
                            let mut pair = r.remove(fj);
                            let ghost exts0 = pair.1@;
                            pair.1.push(x);
                            let ghost pair1 = pair;
                            r.push(pair);
                            proof {
                                assert(r@ =~= r0.remove(fj as int).push(pair1));
                                lemma_str_assoc_requeue(r0, fj as int, pair1);
                                assert(crate::text::views_of(pair1.1@) =~= crate::text::views_of(
                                    exts0,
                                ).push(x@));
                            }
                        },
                        None => {
                            let ghost r0 = r@;
                            let mut exts: Vec<String> = Vec::new();
                            exts.push(x);
                            r.push((stem, exts));
                            proof {
                                assert(r@.drop_last() =~= r0);
                                assert(crate::text::views_of(r@.last().1@) =~= seq![x@]);
                            }
                        },
                    }
                }
            },
        }
        i = i + 1;
    }
    proof {
        assert(files@.take(files@.len() as int) =~= files@);
    }
    r
}

/// Every extension any series treats as adjacent.
pub fn all_adjacent_suffixes(series_adj: &Vec<(i64, Vec<String>)>) -> (r: Vec<String>)
    ensures
        forall|x: Seq<char>|
            #[trigger] crate::text::views_of(r@).contains(x) <==> exists|i: int|
                0 <= i < series_adj@.len() && crate::text::views_of(
                    (#[trigger] series_adj@[i]).1@,
                ).contains(x),
{
    let mut r: Vec<String> = Vec::new();
    let mut i: usize = 0;
    while i < series_adj.len()
        invariant
            0 <= i <= series_adj@.len(),
            forall|x: Seq<char>|
                #[trigger] crate::text::views_of(r@).contains(x) <==> exists|j: int|
                    0 <= j < i && crate::text::views_of(
                        (#[trigger] series_adj@[j]).1@,
                    ).contains(x),
        decreases series_adj@.len() - i,
    {
        let entry = &series_adj[i].1;
        let mut j: usize = 0;
        while j < entry.len()
            invariant
                0 <= j <= entry@.len(),
                entry@ == series_adj@[i as int].1@,
                0 <= i < series_adj@.len(),
                forall|x: Seq<char>|
                    #[trigger] crate::text::views_of(r@).contains(x) <==> (exists|jj: int|
                        0 <= jj < i && crate::text::views_of(
                            (#[trigger] series_adj@[jj]).1@,
                        ).contains(x)) || crate::text::views_of(entry@).take(j as int).contains(x),
            decreases entry@.len() - j,
        {
            let ghost r0 = r@;
            let c = entry[j].clone();
            assert(c@ == entry@[j as int]@);
            r.push(c);
            proof {
                assert(crate::text::views_of(r0).len() == r0.len());
                assert(crate::text::views_of(r@).len() == r@.len());
                assert(crate::text::views_of(r@) =~= crate::text::views_of(r0).push(c@));
                assert forall|x: Seq<char>| #[trigger] crate::text::views_of(r@).contains(
                    x,
                ) implies ((exists|jj: int|
                    0 <= jj < i && crate::text::views_of(
                        (#[trigger] series_adj@[jj]).1@,
                    ).contains(x)) || crate::text::views_of(entry@).take(j + 1).contains(x)) by {
                    if x != c@ && crate::text::views_of(r0).contains(x) {
                        if crate::text::views_of(entry@).take(j as int).contains(x) {
                            let w = choose|w: int|
                                0 <= w < j && #[trigger] crate::text::views_of(entry@).take(
                                    j as int,
                                )[w] == x;
                            assert(crate::text::views_of(entry@).take(j + 1)[w] == x);
                        }
                    } else {
                        assert(crate::text::views_of(entry@).take(j + 1)[j as int] == c@);
                    }
                }
                assert forall|x: Seq<char>|
                    ((exists|jj: int|
                        0 <= jj < i && crate::text::views_of(
                            (#[trigger] series_adj@[jj]).1@,
                        ).contains(x)) || crate::text::views_of(entry@).take(j + 1).contains(
                        x,
                    )) implies #[trigger] crate::text::views_of(r@).contains(x) by {
                    if crate::text::views_of(entry@).take(j + 1).contains(x) {
                        let w = choose|w: int|
                            0 <= w <= j && #[trigger] crate::text::views_of(entry@).take(j + 1)[w]
                                == x;
                        if w < j {
                            assert(crate::text::views_of(entry@).take(j as int)[w] == x);
                            assert(crate::text::views_of(r0).contains(x));
                            let w2 = choose|w2: int|
                                0 <= w2 < r0.len() && #[trigger] crate::text::views_of(r0)[w2]
                                    == x;
                            assert(crate::text::views_of(r@)[w2] == x);
                        } else {
                            assert(crate::text::views_of(r@)[r0.len() as int] == x);
                        }
                    } else {
                        assert(crate::text::views_of(r0).contains(x));
                        let w2 = choose|w2: int|
                            0 <= w2 < r0.len() && #[trigger] crate::text::views_of(r0)[w2] == x;
                        assert(crate::text::views_of(r@)[w2] == x);
                    }
                }
            }
            j = j + 1;
        }
        proof {
            assert(crate::text::views_of(entry@).take(entry@.len() as int) =~= crate::text::views_of(
                entry@,
            ));
            assert forall|x: Seq<char>| #[trigger] crate::text::views_of(r@).contains(x) implies (
            exists|jj: int|
                0 <= jj < i + 1 && crate::text::views_of(
                    (#[trigger] series_adj@[jj]).1@,
                ).contains(x)) by {
                if crate::text::views_of(entry@).contains(x) {
                    assert(crate::text::views_of(series_adj@[i as int].1@).contains(x));
                }
            }
        }
        i = i + 1;
    }
    r
}


/// The views of a list of link pairs (link path, target path).
pub open spec fn pairs_of(v: Seq<(String, String)>) -> Seq<(Seq<char>, Seq<char>)> {
    v.map_values(|p: (String, String)| (p.0@, p.1@))
}

/// A list of link pairs read as a map; a later pair with the same link path
/// replaces an earlier one.
pub open spec fn pairs_map(ps: Seq<(Seq<char>, Seq<char>)>) -> Map<Seq<char>, Seq<char>>
    decreases ps.len(),
{
    if ps.len() == 0 {
        Map::empty()
    } else {
        pairs_map(ps.drop_last()).insert(ps.last().0, ps.last().1)
    }
}

/// A key is in the map exactly when some pair carries it.
pub proof fn lemma_pairs_dom(ps: Seq<(Seq<char>, Seq<char>)>)
    ensures
        forall|k: Seq<char>|
            #[trigger] pairs_map(ps).contains_key(k) <==> exists|i: int|
                0 <= i < ps.len() && (#[trigger] ps[i]).0 == k,
    decreases ps.len(),
{
    if ps.len() > 0 {
        lemma_pairs_dom(ps.drop_last());
        assert forall|k: Seq<char>| #[trigger] pairs_map(ps).contains_key(k) implies exists|i: int|
            0 <= i < ps.len() && (#[trigger] ps[i]).0 == k by {
            if k == ps.last().0 {
                assert(ps[ps.len() - 1].0 == k);
            } else {
                assert(pairs_map(ps.drop_last()).contains_key(k));
                let w = choose|i: int|
                    0 <= i < ps.drop_last().len() && (#[trigger] ps.drop_last()[i]).0 == k;
                assert(ps[w].0 == k);
            }
        }
        assert forall|k: Seq<char>|
            (exists|i: int| 0 <= i < ps.len() && (#[trigger] ps[i]).0 == k) implies
            #[trigger] pairs_map(ps).contains_key(k) by {
            let w = choose|i: int| 0 <= i < ps.len() && (#[trigger] ps[i]).0 == k;
            if w < ps.len() - 1 {
                assert(ps.drop_last()[w].0 == k);
                assert(pairs_map(ps.drop_last()).contains_key(k));
            }
        }
    }
}

/// The value under a key is the one of the last pair carrying it.
pub proof fn lemma_pairs_last(ps: Seq<(Seq<char>, Seq<char>)>, i: int)
    requires
        0 <= i < ps.len(),
        forall|j: int| i < j < ps.len() ==> (#[trigger] ps[j]).0 != ps[i].0,
    ensures
        pairs_map(ps).contains_key(ps[i].0),
        pairs_map(ps)[ps[i].0] == ps[i].1,
    decreases ps.len(),
{
    if i == ps.len() - 1 {
    } else {
        assert(forall|j: int|
            i < j < ps.drop_last().len() ==> (#[trigger] ps.drop_last()[j]).0 != ps.drop_last()[
                i].0);
        lemma_pairs_last(ps.drop_last(), i);
        assert(ps.last().0 != ps[i].0);
    }
}

/// The width an episode's name is padded to: its series' maximum marker
/// width, when the series has one.
pub open spec fn episode_width(e: Episode, widths: Map<int, nat>) -> Option<nat> {
    if widths.contains_key(e.series as int) {
        Some(widths[e.series as int])
    } else {
        None
    }
}

/// The extensions of `disk` that appear in `allowed`, in `disk` order.
pub open spec fn filter_exts(disk: Seq<Seq<char>>, allowed: Seq<Seq<char>>) -> Seq<Seq<char>>
    decreases disk.len(),
{
    if disk.len() == 0 {
        Seq::empty()
    } else {
        let rest = filter_exts(disk.drop_last(), allowed);
        if allowed.contains(disk.last()) {
            rest.push(disk.last())
        } else {
            rest
        }
    }
}

/// The adjacent-file extensions an episode's links cover: the extensions
/// found on disk beside its file that its series treats as adjacent.
pub open spec fn episode_adjacent_exts(
    e: Episode,
    adj: Map<int, Seq<Seq<char>>>,
    on_disk: Map<Seq<char>, Seq<Seq<char>>>,
) -> Seq<Seq<char>> {
    let stem = strip_extension(e.file@);
    if adj.contains_key(e.series as int) && on_disk.contains_key(stem) {
        filter_exts(on_disk[stem], adj[e.series as int])
    } else {
        Seq::empty()
    }
}

/// The links for one episode's adjacent files, in on-disk listing order.
pub open spec fn adjacent_pairs(
    e: Episode,
    w: Option<nat>,
    exts: Seq<Seq<char>>,
    links_dir: Seq<char>,
) -> Seq<(Seq<char>, Seq<char>)>
    decreases exts.len(),
{
    if exts.len() == 0 {
        Seq::empty()
    } else {
        adjacent_pairs(e, w, exts.drop_last(), links_dir).push(
            (
                path_join(links_dir, adjacent_link_name_view(e, w, exts.last())),
                strip_extension(e.file@) + seq!['.'] + exts.last(),
            ),
        )
    }
}

/// All links one unread episode asks for: its adjacent files' links, then
/// its own.
pub open spec fn episode_pairs(
    e: Episode,
    widths: Map<int, nat>,
    adj: Map<int, Seq<Seq<char>>>,
    on_disk: Map<Seq<char>, Seq<Seq<char>>>,
    links_dir: Seq<char>,
) -> Seq<(Seq<char>, Seq<char>)> {
    let w = episode_width(e, widths);
    adjacent_pairs(e, w, episode_adjacent_exts(e, adj, on_disk), links_dir) + seq![
        (path_join(links_dir, link_name_view(e, w)), e.file@),
    ]
}

/// The desired links for a set of unread episodes, in episode order.
pub open spec fn desired_pairs(
    unread: Seq<Episode>,
    widths: Map<int, nat>,
    adj: Map<int, Seq<Seq<char>>>,
    on_disk: Map<Seq<char>, Seq<Seq<char>>>,
    links_dir: Seq<char>,
) -> Seq<(Seq<char>, Seq<char>)>
    decreases unread.len(),
{
    if unread.len() == 0 {
        Seq::empty()
    } else {
        desired_pairs(unread.drop_last(), widths, adj, on_disk, links_dir) + episode_pairs(
            unread.last(),
            widths,
            adj,
            on_disk,
            links_dir,
        )
    }
}

/// Compute the desired links for the unread episodes: for each, a link for
/// every adjacent file found beside it, then the link for the episode file
/// itself.
pub fn desired_links(
    unread: &Vec<Episode>,
    widths: &Vec<(i64, usize)>,
    adjacency: &Vec<(i64, Vec<String>)>,
    on_disk: &Vec<(String, Vec<String>)>,
    links_dir: &String,
) -> (r: Vec<(String, String)>)
    ensures
        pairs_of(r@) == desired_pairs(
            unread@,
            widths_view(widths@),
            crate::adjacency::assoc_view(adjacency@),
            str_assoc_view(on_disk@),
            links_dir@,
        ),
{
    let ghost wmap = widths_view(widths@);
    let ghost amap = crate::adjacency::assoc_view(adjacency@);
    let ghost dmap = str_assoc_view(on_disk@);
    let mut out: Vec<(String, String)> = Vec::new();
    let mut i: usize = 0;
    proof {
        assert(pairs_of(out@) =~= Seq::<(Seq<char>, Seq<char>)>::empty());
        assert(unread@.take(0) =~= Seq::<Episode>::empty());
    }
    while i < unread.len()
        invariant
            0 <= i <= unread@.len(),
            wmap == widths_view(widths@),
            amap == crate::adjacency::assoc_view(adjacency@),
            dmap == str_assoc_view(on_disk@),
            pairs_of(out@) == desired_pairs(unread@.take(i as int), wmap, amap, dmap, links_dir@),
        decreases unread@.len() - i,
    {
        proof {
            assert(unread@.take(i + 1).drop_last() =~= unread@.take(i as int));
            assert(unread@.take(i + 1).last() == unread@[i as int]);
        }
        let e = &unread[i];
        let width = widths_find(widths, e.series);
        let width_val = match width {
            Some(fj) => Some(widths[fj].1),
            None => None,
        };
        let ghost w = episode_width(unread@[i as int], wmap);
        proof {
            match width_val {
                Some(wv) => {
                    assert(w == Some(wv as nat));
                },
                None => {
                    assert(w is None);
                },
            }
        }
        let base = link_base_with_id(e, width_val);
        let stem = strip_extension_path(&e.file);
        let ghost out_ep0 = pairs_of(out@);
        let ghost exts_all = episode_adjacent_exts(unread@[i as int], amap, dmap);
        match (crate::adjacency::assoc_get(adjacency, e.series), str_assoc_find(on_disk, &stem)) {
            (Some(ai), Some(di)) => {
                let ghost allowed = amap[e.series as int];
                let ghost disk_exts = dmap[stem@];
                proof {
                    assert(exts_all == filter_exts(disk_exts, allowed));
                }
                let entry = &on_disk[di].1;
                proof {
                    assert(crate::text::views_of(entry@) == disk_exts);
                    assert(crate::text::views_of(entry@).len() == entry@.len());
                    assert(disk_exts.take(0) =~= Seq::<Seq<char>>::empty());
                }
                let mut j: usize = 0;
                while j < entry.len()
                    invariant
                        0 <= j <= entry@.len(),
                        0 <= i < unread@.len(),
                        crate::text::views_of(entry@) == disk_exts,
                        disk_exts.len() == entry@.len(),
                        crate::text::views_of(adjacency@[ai as int].1@) == allowed,
                        ai < adjacency@.len(),
                        pairs_of(out@) == out_ep0 + adjacent_pairs(
                            unread@[i as int],
                            w,
                            filter_exts(disk_exts.take(j as int), allowed),
                            links_dir@,
                        ),
                        base@ == base_with_id_view(unread@[i as int], w),
                        stem@ == strip_extension(unread@[i as int].file@),
                    decreases entry@.len() - j,
                {
                    proof {
                        assert(disk_exts.take(j + 1).drop_last() =~= disk_exts.take(j as int));
                        assert(disk_exts.take(j + 1).last() == disk_exts[j as int]);
                        assert(disk_exts[j as int] == entry@[j as int]@);
                    }
                    let x = entry[j].clone();
                    assert(x@ == disk_exts[j as int]);
                    if crate::adjacency::contains_token(&adjacency[ai].1, &x) {
                        let name = with_dot_ext(&base, &x);
                        let link = crate::paths::join_path(links_dir, &name);
                        let target = with_dot_ext(&stem, &x);
                        let ghost out0 = out@;
                        out.push((link, target));
                        proof {
                            assert(pairs_of(out@) =~= pairs_of(out0).push((link@, target@)));
                            let fj = filter_exts(disk_exts.take(j as int), allowed);
                            assert(filter_exts(disk_exts.take(j + 1), allowed) == fj.push(x@));
                            assert(fj.push(x@).drop_last() =~= fj);
                            assert(fj.push(x@).last() == x@);
                            assert(adjacent_pairs(unread@[i as int], w, fj.push(x@), links_dir@)
                                == adjacent_pairs(unread@[i as int], w, fj, links_dir@).push(
                                (
                                    path_join(
                                        links_dir@,
                                        adjacent_link_name_view(unread@[i as int], w, x@),
                                    ),
                                    strip_extension(unread@[i as int].file@) + seq!['.'] + x@,
                                ),
                            ));
                            assert(link@ == path_join(
                                links_dir@,
                                adjacent_link_name_view(unread@[i as int], w, x@),
                            ));
                            assert(target@ == strip_extension(unread@[i as int].file@) + seq!['.']
                                + x@);
                            assert(out_ep0 + adjacent_pairs(
                                unread@[i as int],
                                w,
                                fj.push(x@),
                                links_dir@,
                            ) =~= (out_ep0 + adjacent_pairs(unread@[i as int], w, fj, links_dir@)).push(
                                (link@, target@),
                            ));
                        }
                    } else {
                        proof {
                            assert(filter_exts(disk_exts.take(j + 1), allowed) == filter_exts(
                                disk_exts.take(j as int),
                                allowed,
                            ));
                        }
                    }
                    j = j + 1;
                }
                proof {
                    assert(disk_exts.take(disk_exts.len() as int) =~= disk_exts);
                }
            },
            _ => {
                proof {
                    assert(exts_all =~= Seq::<Seq<char>>::empty());
                }
            },
        }
        let main_name = match extension_of_path(&e.file) {
            Some(x) => with_dot_ext(&base, &x),
            None => base,
        };
        let link = crate::paths::join_path(links_dir, &main_name);
        let target = e.file.clone();
        let ghost out0 = out@;
        out.push((link, target));
        proof {
            assert(pairs_of(out@) =~= pairs_of(out0).push((link@, target@)));
            assert(pairs_of(out@) =~= desired_pairs(
                unread@.take(i + 1),
                wmap,
                amap,
                dmap,
                links_dir@,
            ));
        }
        i = i + 1;
    }
    proof {
        assert(unread@.take(unread@.len() as int) =~= unread@);
    }
    out
}


/// The existing entries that are not desired, in directory order.
pub open spec fn removals_spec(existing: Seq<String>, dmap: Map<Seq<char>, Seq<char>>) -> Seq<
    String,
>
    decreases existing.len(),
{
    if existing.len() == 0 {
        Seq::empty()
    } else {
        let rest = removals_spec(existing.drop_last(), dmap);
        if dmap.contains_key(existing.last()@) {
            rest
        } else {
            rest.push(existing.last())
        }
    }
}

/// Whether some desired pair carries the link path `x`.
pub fn desired_has_key(desired: &Vec<(String, String)>, x: &String) -> (r: bool)
    ensures
        r == pairs_map(pairs_of(desired@)).contains_key(x@),
{
    proof {
        lemma_pairs_dom(pairs_of(desired@));
        assert(pairs_of(desired@).len() == desired@.len());
    }
    let mut i: usize = 0;
    while i < desired.len()
        invariant
            0 <= i <= desired@.len(),
            forall|j: int| 0 <= j < i ==> (#[trigger] pairs_of(desired@)[j]).0 != x@,
            pairs_of(desired@).len() == desired@.len(),
        decreases desired@.len() - i,
    {
        if desired[i].0.eq(x) {
            proof {
                assert(pairs_of(desired@)[i as int].0 == x@);
                lemma_pairs_dom(pairs_of(desired@));
            }
            return true;
        }
        proof {
            assert(pairs_of(desired@)[i as int].0 == desired@[i as int].0@);
        }
        i = i + 1;
    }
    proof {
        lemma_pairs_dom(pairs_of(desired@));
    }
    false
}

/// Whether a later pair carries the same link path as the pair at `i`.
pub open spec fn has_later_same_key(desired: Seq<(String, String)>, i: int) -> bool {
    exists|j: int| i < j < desired.len() && (#[trigger] desired[j]).0@ == desired[i].0@
}

fn later_same_key(desired: &Vec<(String, String)>, i: usize) -> (r: bool)
    requires
        i < desired@.len(),
    ensures
        r == has_later_same_key(desired@, i as int),
{
    let n = desired.len();
    let mut j: usize = i + 1;
    while j < n
        invariant
            i < j <= n,
            n == desired@.len(),
            forall|m: int| i < m < j ==> (#[trigger] desired@[m]).0@ != desired@[i as int].0@,
        decreases n - j,
    {
        if desired[j].0.eq(&desired[i].0) {
            return true;
        }
        j = j + 1;
    }
    false
}

/// Whether a pair before `j` carries `k` and no later pair carries it.
pub open spec fn settled_key_before(desired: Seq<(String, String)>, k: Seq<char>, j: int) -> bool {
    exists|m: int|
        0 <= m < j && (#[trigger] desired[m]).0@ == k && !has_later_same_key(desired, m)
}

proof fn lemma_settled_witness(desired: Seq<(String, String)>, k: Seq<char>, j: int) -> (m: int)
    requires
        settled_key_before(desired, k, j),
    ensures
        0 <= m < j && desired[m].0@ == k && !has_later_same_key(desired, m),
{
    choose|m: int|
        0 <= m < j && (#[trigger] desired[m]).0@ == k && !has_later_same_key(desired, m)
}

/// Whether some creation pair carries the link path `k`.
pub open spec fn creations_cover(creations: Seq<(String, String)>, k: Seq<char>) -> bool {
    exists|idx: int| 0 <= idx < creations.len() && (#[trigger] creations[idx]).0@ == k
}

proof fn lemma_cover_witness(creations: Seq<(String, String)>, k: Seq<char>) -> (idx: int)
    requires
        creations_cover(creations, k),
    ensures
        0 <= idx < creations.len() && creations[idx].0@ == k,
{
    choose|idx: int| 0 <= idx < creations.len() && (#[trigger] creations[idx]).0@ == k
}

/// The last pair carrying the same link path as the pair at `i`.
pub proof fn lemma_last_same_key(desired: Seq<(String, String)>, i: int) -> (last: int)
    requires
        0 <= i < desired.len(),
    ensures
        i <= last < desired.len(),
        desired[last].0@ == desired[i].0@,
        !has_later_same_key(desired, last),
    decreases desired.len() - i,
{
    if has_later_same_key(desired, i) {
        let j = choose|j: int| i < j < desired.len() && (#[trigger] desired[j]).0@ == desired[i].0@;
        lemma_last_same_key(desired, j)
    } else {
        i
    }
}

/// The plan that converges the links directory: every existing entry that is
/// not desired is removed, and every desired link whose path is not yet
/// present is created, each desired path once, with its target.
#[verifier::rlimit(50)]
pub fn reconcile_plan(existing: &Vec<String>, desired: &Vec<(String, String)>) -> (r: (
    Vec<String>,
    Vec<(String, String)>,
))
    ensures
        ({
            let dmap = pairs_map(pairs_of(desired@));
            &&& r.0@ == removals_spec(existing@, dmap)
            &&& forall|idx: int|
                0 <= idx < r.1@.len() ==> dmap.contains_key((#[trigger] r.1@[idx]).0@)
                    && dmap[r.1@[idx].0@] == r.1@[idx].1@ && !crate::discovery::seq_contains_str(
                    existing@,
                    r.1@[idx].0@,
                )
            &&& forall|i1: int, i2: int|
                0 <= i1 < i2 < r.1@.len() ==> (#[trigger] r.1@[i1]).0@ != (#[trigger] r.1@[i2]).0@
            &&& forall|k: Seq<char>|
                #[trigger] dmap.contains_key(k) && !crate::discovery::seq_contains_str(existing@, k)
                    ==> creations_cover(r.1@, k)
        }),
{
    let ghost dmap = pairs_map(pairs_of(desired@));
    let mut removals: Vec<String> = Vec::new();
    let mut i: usize = 0;
    while i < existing.len()
        invariant
            0 <= i <= existing@.len(),
            dmap == pairs_map(pairs_of(desired@)),
            removals@ == removals_spec(existing@.take(i as int), dmap),
        decreases existing@.len() - i,
    {
        proof {
            assert(existing@.take(i + 1).drop_last() =~= existing@.take(i as int));
            assert(existing@.take(i + 1).last() == existing@[i as int]);
        }
        if !desired_has_key(desired, &existing[i]) {
            removals.push(existing[i].clone());
        }
        i = i + 1;
    }
    proof {
        assert(existing@.take(existing@.len() as int) =~= existing@);
    }
    let mut creations: Vec<(String, String)> = Vec::new();
    let mut j: usize = 0;
    proof {
        assert(pairs_of(desired@).len() == desired@.len());
    }
    while j < desired.len()
        invariant
            0 <= j <= desired@.len(),
            dmap == pairs_map(pairs_of(desired@)),
            pairs_of(desired@).len() == desired@.len(),
            forall|idx: int|
                0 <= idx < creations@.len() ==> dmap.contains_key((#[trigger] creations@[idx]).0@)
                    && dmap[creations@[idx].0@] == creations@[idx].1@
                    && !crate::discovery::seq_contains_str(existing@, creations@[idx].0@),
            forall|idx: int|
                0 <= idx < creations@.len() ==> settled_key_before(
                    desired@,
                    (#[trigger] creations@[idx]).0@,
                    j as int,
                ),
            forall|i1: int, i2: int|
                0 <= i1 < i2 < creations@.len() ==> (#[trigger] creations@[i1]).0@ != (
                #[trigger] creations@[i2]).0@,
            forall|m: int|
                0 <= m < j && !has_later_same_key(desired@, m)
                    && !crate::discovery::seq_contains_str(existing@, (#[trigger] desired@[m]).0@)
                    ==> creations_cover(creations@, desired@[m].0@),
        decreases desired@.len() - j,
    {
        let is_last = !later_same_key(desired, j);
        let in_existing = crate::discovery::contains_path(existing, &desired[j].0);
        let ghost c0 = creations@;
        if is_last && !in_existing {
            let key = desired[j].0.clone();
            let val = desired[j].1.clone();
            creations.push((key, val));
            proof {
                assert forall|j2: int| (j as int) < j2 < pairs_of(desired@).len() implies (
                #[trigger] pairs_of(desired@)[j2]).0 != pairs_of(desired@)[j as int].0 by {
                    assert(pairs_of(desired@)[j2].0 == desired@[j2].0@);
                    assert(!(desired@[j2].0@ == desired@[j as int].0@));
                }
                lemma_pairs_last(pairs_of(desired@), j as int);
                assert(pairs_of(desired@)[j as int].0 == desired@[j as int].0@);
                assert(pairs_of(desired@)[j as int].1 == desired@[j as int].1@);
                assert forall|i1: int, i2: int|
                    0 <= i1 < i2 < creations@.len() implies (#[trigger] creations@[i1]).0@ != (
                #[trigger] creations@[i2]).0@ by {
                    if i2 == creations@.len() - 1 {
                        let m = lemma_settled_witness(desired@, c0[i1].0@, j as int);
                        if c0[i1].0@ == desired@[j as int].0@ {
                            assert((#[trigger] desired@[j as int]).0@ == desired@[m].0@);
                            assert(has_later_same_key(desired@, m));
                        }
                        assert(creations@[i1] == c0[i1]);
                    }
                }
            }
        }
        proof {
            assert forall|idx: int| 0 <= idx < creations@.len() implies settled_key_before(
                desired@,
                (#[trigger] creations@[idx]).0@,
                j + 1,
            ) by {
                if idx < c0.len() {
                    assert(creations@[idx] == c0[idx]);
                    let m = lemma_settled_witness(desired@, c0[idx].0@, j as int);
                    assert(0 <= m < j + 1 && desired@[m].0@ == creations@[idx].0@
                        && !has_later_same_key(desired@, m));
                } else {
                    assert(creations@[idx].0@ == desired@[j as int].0@);
                    assert(0 <= j < j + 1 && desired@[j as int].0@ == creations@[idx].0@
                        && !has_later_same_key(desired@, j as int));
                }
            }
            assert forall|m: int|
                0 <= m < j + 1 && !has_later_same_key(desired@, m)
                    && !crate::discovery::seq_contains_str(
                    existing@,
                    (#[trigger] desired@[m]).0@,
                ) implies creations_cover(creations@, desired@[m].0@) by {
                if m < j {
                    let w = lemma_cover_witness(c0, desired@[m].0@);
                    assert(creations@[w] == c0[w]);
                    assert(creations@[w].0@ == desired@[m].0@);
                } else {
                    assert(!is_last ==> has_later_same_key(desired@, m));
                    assert(in_existing == crate::discovery::seq_contains_str(
                        existing@,
                        desired@[j as int].0@,
                    ));
                    assert(creations@[creations@.len() - 1].0@ == desired@[m].0@);
                }
            }
        }
        j = j + 1;
    }
    proof {
        lemma_pairs_dom(pairs_of(desired@));
        assert forall|k: Seq<char>|
            #[trigger] dmap.contains_key(k) && !crate::discovery::seq_contains_str(
                existing@,
                k,
            ) implies creations_cover(creations@, k) by {
            let w = choose|i2: int|
                0 <= i2 < pairs_of(desired@).len() && (#[trigger] pairs_of(desired@)[i2]).0 == k;
            assert(desired@[w].0@ == k);
            let last = lemma_last_same_key(desired@, w);
            assert(desired@[last].0@ == k);
        }
    }
    (removals, creations)
}


/// A removed entry is exactly an existing entry that is not desired.
pub proof fn lemma_removals_props(existing: Seq<String>, dmap: Map<Seq<char>, Seq<char>>)
    ensures
        forall|k: Seq<char>|
            #[trigger] crate::discovery::seq_contains_str(removals_spec(existing, dmap), k) <==> (
            crate::discovery::seq_contains_str(existing, k) && !dmap.contains_key(k)),
    decreases existing.len(),
{
    if existing.len() > 0 {
        lemma_removals_props(existing.drop_last(), dmap);
        let rest = removals_spec(existing.drop_last(), dmap);
        let full = removals_spec(existing, dmap);
        assert forall|k: Seq<char>|
            #[trigger] crate::discovery::seq_contains_str(full, k) implies (
        crate::discovery::seq_contains_str(existing, k) && !dmap.contains_key(k)) by {
            let w = choose|i: int| 0 <= i < full.len() && (#[trigger] full[i])@ == k;
            if w < rest.len() {
                assert(rest[w]@ == k);
                assert(crate::discovery::seq_contains_str(rest, k));
                let w2 = choose|i: int|
                    0 <= i < existing.drop_last().len() && (#[trigger] existing.drop_last()[i])@
                        == k;
                assert(existing[w2]@ == k);
            } else {
                assert(full[w] == existing.last());
                assert(existing[existing.len() - 1]@ == k);
            }
        }
        assert forall|k: Seq<char>|
            crate::discovery::seq_contains_str(existing, k) && !dmap.contains_key(k) implies
            #[trigger] crate::discovery::seq_contains_str(full, k) by {
            let w = choose|i: int| 0 <= i < existing.len() && (#[trigger] existing[i])@ == k;
            if w < existing.len() - 1 {
                assert(existing.drop_last()[w]@ == k);
                assert(crate::discovery::seq_contains_str(existing.drop_last(), k));
                assert(crate::discovery::seq_contains_str(rest, k));
                let w2 = choose|i: int| 0 <= i < rest.len() && (#[trigger] rest[i])@ == k;
                if dmap.contains_key(existing.last()@) {
                    assert(full[w2]@ == k);
                } else {
                    assert(full[w2]@ == k);
                }
            } else {
                assert(!dmap.contains_key(existing.last()@));
                assert(full[full.len() - 1]@ == k);
            }
        }
    }
}

/// Links-directory convergence: after the plan is applied — the removals
/// deleted, the creations made — the directory's entries are exactly the
/// desired link paths.
pub proof fn lemma_reconcile_converges(
    existing: Seq<String>,
    desired: Seq<(String, String)>,
    removals: Seq<String>,
    creations: Seq<(String, String)>,
)
    requires
        removals == removals_spec(existing, pairs_map(pairs_of(desired))),
        forall|idx: int|
            0 <= idx < creations.len() ==> pairs_map(pairs_of(desired)).contains_key(
                (#[trigger] creations[idx]).0@,
            ) && !crate::discovery::seq_contains_str(existing, creations[idx].0@),
        forall|k: Seq<char>|
            #[trigger] pairs_map(pairs_of(desired)).contains_key(k)
                && !crate::discovery::seq_contains_str(existing, k) ==> creations_cover(
                creations,
                k,
            ),
    ensures
        forall|k: Seq<char>|
            ((crate::discovery::seq_contains_str(existing, k)
                && !crate::discovery::seq_contains_str(removals, k)) || #[trigger] creations_cover(
                creations,
                k,
            )) <==> pairs_map(pairs_of(desired)).contains_key(k),
{
    let dmap = pairs_map(pairs_of(desired));
    lemma_removals_props(existing, dmap);
    assert forall|k: Seq<char>|
        ((crate::discovery::seq_contains_str(existing, k)
            && !crate::discovery::seq_contains_str(removals, k)) || #[trigger] creations_cover(
            creations,
            k,
        )) implies dmap.contains_key(k) by {
        if creations_cover(creations, k) {
            let w = lemma_cover_witness(creations, k);
        }
    }
}

/// Running the plan again once the directory already matches the desired set
/// performs no filesystem mutation: nothing is removed, nothing is created.
pub proof fn lemma_reconcile_idempotent(
    existing: Seq<String>,
    desired: Seq<(String, String)>,
    removals: Seq<String>,
    creations: Seq<(String, String)>,
)
    requires
        removals == removals_spec(existing, pairs_map(pairs_of(desired))),
        forall|idx: int|
            0 <= idx < creations.len() ==> pairs_map(pairs_of(desired)).contains_key(
                (#[trigger] creations[idx]).0@,
            ) && !crate::discovery::seq_contains_str(existing, creations[idx].0@),
        forall|k: Seq<char>|
            #[trigger] crate::discovery::seq_contains_str(existing, k) <==> pairs_map(
                pairs_of(desired),
            ).contains_key(k),
    ensures
        removals =~= Seq::<String>::empty(),
        creations =~= Seq::<(String, String)>::empty(),
{
    let dmap = pairs_map(pairs_of(desired));
    assert forall|i: int| 0 <= i < existing.len() implies dmap.contains_key(
        (#[trigger] existing[i])@,
    ) by {
        assert(crate::discovery::seq_contains_str(existing, existing[i]@));
    }
    lemma_removals_all_desired_empty(existing, dmap);
    if creations.len() > 0 {
        assert(dmap.contains_key(creations[0].0@) && !crate::discovery::seq_contains_str(
            existing,
            creations[0].0@,
        ));
    }
}

/// When every existing entry is desired, nothing is removed.
pub proof fn lemma_removals_all_desired_empty(
    existing: Seq<String>,
    dmap: Map<Seq<char>, Seq<char>>,
)
    requires
        forall|i: int|
            0 <= i < existing.len() ==> dmap.contains_key((#[trigger] existing[i])@),
    ensures
        removals_spec(existing, dmap) =~= Seq::<String>::empty(),
    decreases existing.len(),
{
    if existing.len() > 0 {
        assert(forall|i: int|
            0 <= i < existing.drop_last().len() ==> dmap.contains_key(
                (#[trigger] existing.drop_last()[i])@,
            ));
        lemma_removals_all_desired_empty(existing.drop_last(), dmap);
        assert(dmap.contains_key(existing[existing.len() - 1]@));
    }
}

/// The characters of a trailing digit run are digits.
pub proof fn lemma_trailing_run_digits(s: Seq<char>)
    ensures
        forall|m: int|
            s.len() - trailing_digit_run_len(s) <= m < s.len() ==> is_digit_char(#[trigger] s[m]),
    decreases s.len(),
{
    lemma_trailing_run_le(s);
    if s.len() > 0 && is_digit_char(s.last()) {
        lemma_trailing_run_digits(s.drop_last());
        lemma_trailing_run_le(s.drop_last());
        assert forall|m: int|
            s.len() - trailing_digit_run_len(s) <= m < s.len() implies is_digit_char(
            #[trigger] s[m],
        ) by {
            if m < s.len() - 1 {
                assert(s[m] == s.drop_last()[m]);
            }
        }
    }
}

/// A series' pad width covers each of its episodes' markers.
pub proof fn lemma_pad_width_covers(eps: Seq<Episode>, i: int)
    requires
        0 <= i < eps.len(),
        chapter_marker_len(eps[i].name@) is Some,
    ensures
        pad_widths_map(eps).contains_key(eps[i].series as int),
        pad_widths_map(eps)[eps[i].series as int] >= chapter_marker_len(eps[i].name@).unwrap(),
    decreases eps.len(),
{
    if i == eps.len() - 1 {
    } else {
        assert(eps.drop_last()[i] == eps[i]);
        lemma_pad_width_covers(eps.drop_last(), i);
    }
}

/// Padding determinism: an episode whose name carries a chapter marker gets
/// its digits padded to exactly its series' maximum marker width, so that
/// every link name of the series shows the same digit width.
pub proof fn lemma_padding_deterministic(eps: Seq<Episode>, i: int)
    requires
        0 <= i < eps.len(),
        chapter_marker_len(eps[i].name@) is Some,
    ensures
        pad_widths_map(eps).contains_key(eps[i].series as int),
        chapter_marker_len(
            padded_name(eps[i].name@, pad_widths_map(eps)[eps[i].series as int]),
        ) == Some(pad_widths_map(eps)[eps[i].series as int]),
{
    lemma_pad_width_covers(eps, i);
    let w = pad_widths_map(eps)[eps[i].series as int];
    lemma_padded_marker_width(eps[i].name@, w);
}

/// Padding to a width at least the marker's own produces a marker of exactly
/// that width.
pub proof fn lemma_padded_marker_width(name: Seq<char>, w: nat)
    requires
        chapter_marker_len(name) is Some,
        w >= chapter_marker_len(name).unwrap(),
    ensures
        chapter_marker_len(padded_name(name, w)) == Some(w),
{
    let k = chapter_marker_len(name).unwrap();
    lemma_trailing_run_le(name);
    lemma_trailing_run_digits(name);
    let p = padded_name(name, w);
    assert(p == name.take(name.len() - k) + zeros((w - k) as nat) + name.skip(name.len() - k));
    assert(p.len() == name.len() + w - k);
    assert forall|m: int| p.len() - w <= m < p.len() implies is_digit_char(#[trigger] p[m]) by {
        if m < p.len() - k {
            assert(p[m] == zeros((w - k) as nat)[m - (name.len() - k)]);
        } else {
            assert(p[m] == name.skip(name.len() - k)[m - (p.len() - k)]);
            assert(name.skip(name.len() - k)[m - (p.len() - k)] == name[m - (p.len() - k)
                + name.len() - k]);
        }
    }
    assert(p[p.len() - w - 1] == name.take(name.len() - k)[name.len() - k - 1]);
    assert(p[p.len() - w - 1] == 'c');
    lemma_trailing_run_is(p, w as int);
}

/// Uniqueness: two episodes with the same display name, padded to the same
/// width, get distinct link names as soon as their identifiers differ — the
/// identifier appended after the name keeps the names apart whatever the
/// files' extensions are.
pub proof fn lemma_link_names_unique(e1: Episode, e2: Episode, w: Option<nat>)
    requires
        e1.name@ == e2.name@,
        e1.id != e2.id,
        e1.id >= 0,
        e2.id >= 0,
    ensures
        link_name_view(e1, w) != link_name_view(e2, w),
{
    crate::numbers::lemma_dec_digits_shape(e1.id as int);
    crate::numbers::lemma_dec_digits_shape(e2.id as int);
    let base = match w {
        Some(width) => padded_name(e1.name@, width),
        None => e1.name@,
    };
    let pre = base + seq![' '];
    let dec1 = i64_dec_chars(e1.id as int);
    let dec2 = i64_dec_chars(e2.id as int);
    let ep1: Seq<char> = match extension_of(e1.file@) {
        Some(x) => seq!['.'] + x,
        None => Seq::empty(),
    };
    let ep2: Seq<char> = match extension_of(e2.file@) {
        Some(x) => seq!['.'] + x,
        None => Seq::empty(),
    };
    assert(link_name_view(e1, w) =~= pre + (dec1 + ep1));
    assert(link_name_view(e2, w) =~= pre + (dec2 + ep2));
    if link_name_view(e1, w) == link_name_view(e2, w) {
        let s1 = dec1 + ep1;
        let s2 = dec2 + ep2;
        assert(s1 =~= s2) by {
            assert(s1.len() == link_name_view(e1, w).len() - pre.len());
            assert(s2.len() == link_name_view(e2, w).len() - pre.len());
            assert forall|m: int| 0 <= m < s1.len() implies s1[m] == s2[m] by {
                assert(s1[m] == (pre + s1)[pre.len() + m]);
                assert(s2[m] == (pre + s2)[pre.len() + m]);
            }
        }
        lemma_decimal_prefix_equal(dec1, ep1, dec2, ep2);
        crate::numbers::lemma_dec_digits_value(e1.id as int);
        crate::numbers::lemma_dec_digits_value(e2.id as int);
        assert(false);
    }
}

/// Two digit runs followed by an empty or dot-led tail split a common string
/// the same way.
pub proof fn lemma_decimal_prefix_equal(
    dec1: Seq<char>,
    ep1: Seq<char>,
    dec2: Seq<char>,
    ep2: Seq<char>,
)
    requires
        dec1 + ep1 == dec2 + ep2,
        crate::numbers::all_digits(dec1),
        crate::numbers::all_digits(dec2),
        dec1.len() >= 1,
        dec2.len() >= 1,
        ep1.len() == 0 || ep1[0] == '.',
        ep2.len() == 0 || ep2[0] == '.',
    ensures
        dec1 == dec2,
{
    let s = dec1 + ep1;
    if dec1.len() < dec2.len() {
        assert(s[dec1.len() as int] == ep1[0]);
        assert(s[dec1.len() as int] == dec2[dec1.len() as int]);
        assert(crate::numbers::is_digit_char(dec2[dec1.len() as int]));
        assert(false);
    }
    if dec2.len() < dec1.len() {
        assert(s[dec2.len() as int] == ep2[0]);
        assert(s[dec2.len() as int] == dec1[dec2.len() as int]);
        assert(crate::numbers::is_digit_char(dec1[dec2.len() as int]));
        assert(false);
    }
    assert forall|m: int| 0 <= m < dec1.len() implies dec1[m] == dec2[m] by {
        assert(dec1[m] == s[m]);
        assert(dec2[m] == (dec2 + ep2)[m]);
    }
    assert(dec1 =~= dec2);
}

} // verus!