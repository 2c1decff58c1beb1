//! Character-level text utilities: moving between `String` and `Vec<char>`,
//! and splitting configuration strings on whitespace.

use vstd::prelude::*;
use vstd::string::StrSliceExecFns;

verus! {

/// The view of an optional string, for stating contracts.
pub open spec fn view_opt(o: Option<String>) -> Option<Seq<char>> {
    match o {
        Some(s) => Some(s@),
        None => None,
    }
}

/// The characters of a string, in order.
pub fn string_to_chars(s: &str) -> (r: Vec<char>)
    ensures
        r@ == s@,
{
    let n: usize = s.unicode_len();
    let mut r: Vec<char> = Vec::new();
    let mut i: usize = 0;
    while i < n
        invariant
            0 <= i <= n,
            n == s@.len(),
            r@ == s@.take(i as int),
        decreases n - i,
    {
        r.push(s.get_char(i));
        proof {
            assert(s@.take(i + 1) =~= s@.take(i as int).push(s@[i as int]));
        }
        i = i + 1;
    }
    proof {
        assert(s@.take(n as int) =~= s@);
    }
    r
}

/// Relies on `str::chars` and `String: FromIterator<char>`: collecting the
/// characters gives the string whose character sequence is exactly the input.
#[verifier::external_body]
pub(crate) fn chars_to_string(v: &Vec<char>) -> (r: String)
    ensures
        r@ == v@,
{
    v.iter().collect()
}

/// The slice of `v` between `a` (inclusive) and `b` (exclusive).
pub fn subvec(v: &Vec<char>, a: usize, b: usize) -> (r: Vec<char>)
    requires
        a <= b <= v@.len(),
    ensures
        r@ == v@.subrange(a as int, b as int),
{
    let mut r: Vec<char> = Vec::new();
    let mut i: usize = a;
    while i < b
        invariant
            a <= i <= b <= v@.len(),
            r@ == v@.subrange(a as int, i as int),
        decreases b - i,
    {
        r.push(v[i]);
        proof {
            assert(v@.subrange(a as int, i + 1) =~= v@.subrange(a as int, i as int).push(
                v@[i as int],
            ));
        }
        i = i + 1;
    }
    r
}

/// The characters with the Unicode `White_Space` property, which is what
/// `str::split_whitespace` splits on.
pub open spec fn is_unicode_whitespace(c: char) -> bool {
    c == '\u{0009}' || c == '\u{000A}' || c == '\u{000B}' || c == '\u{000C}' || c == '\u{000D}'
        || c == ' ' || c == '\u{0085}' || c == '\u{00A0}' || c == '\u{1680}' || c == '\u{2000}'
        || c == '\u{2001}' || c == '\u{2002}' || c == '\u{2003}' || c == '\u{2004}' || c
        == '\u{2005}' || c == '\u{2006}' || c == '\u{2007}' || c == '\u{2008}' || c == '\u{2009}'
        || c == '\u{200A}' || c == '\u{2028}' || c == '\u{2029}' || c == '\u{202F}' || c
        == '\u{205F}' || c == '\u{3000}'
}

pub fn is_whitespace_char(c: char) -> (r: bool)
    ensures
        r == is_unicode_whitespace(c),
{
    c == '\u{0009}' || c == '\u{000A}' || c == '\u{000B}' || c == '\u{000C}' || c == '\u{000D}'
        || c == ' ' || c == '\u{0085}' || c == '\u{00A0}' || c == '\u{1680}' || c == '\u{2000}'
        || c == '\u{2001}' || c == '\u{2002}' || c == '\u{2003}' || c == '\u{2004}' || c
        == '\u{2005}' || c == '\u{2006}' || c == '\u{2007}' || c == '\u{2008}' || c == '\u{2009}'
        || c == '\u{200A}' || c == '\u{2028}' || c == '\u{2029}' || c == '\u{202F}' || c
        == '\u{205F}' || c == '\u{3000}'
}

/// Length of the leading run of non-whitespace characters.
pub open spec fn leading_token_len(s: Seq<char>) -> nat
    decreases s.len(),
{
    if s.len() == 0 || is_unicode_whitespace(s[0]) {
        0
    } else {
        1 + leading_token_len(s.skip(1))
    }
}

pub proof fn lemma_leading_token_len_le(s: Seq<char>)
    ensures
        leading_token_len(s) <= s.len(),
    decreases s.len(),
{
    if s.len() > 0 && !is_unicode_whitespace(s[0]) {
        lemma_leading_token_len_le(s.skip(1));
    }
}

/// The leading token is exactly the prefix up to the first whitespace
/// character (or the whole sequence when there is none).
pub proof fn lemma_leading_token_len_is(s: Seq<char>, k: int)
    requires
        0 <= k <= s.len(),
        forall|m: int| 0 <= m < k ==> !is_unicode_whitespace(#[trigger] s[m]),
        k == s.len() || is_unicode_whitespace(s[k]),
    ensures
        leading_token_len(s) == k,
    decreases s.len(),
{
    if k == 0 {
    } else {
        assert(!is_unicode_whitespace(s[0]));
        lemma_leading_token_len_is(s.skip(1), k - 1);
    }
}

/// The maximal whitespace-free runs of `s`, in order: what
/// `str::split_whitespace` yields.
pub open spec fn split_ws(s: Seq<char>) -> Seq<Seq<char>>
    decreases s.len(),
    via split_ws_decreases
{
    if s.len() == 0 {
        Seq::empty()
    } else if is_unicode_whitespace(s[0]) {
        split_ws(s.skip(1))
    } else {
        seq![s.take(leading_token_len(s) as int)] + split_ws(s.skip(leading_token_len(s) as int))
    }
}

#[via_fn]
proof fn split_ws_decreases(s: Seq<char>) {
    lemma_leading_token_len_le(s);
}

/// The views of a sequence of strings.
pub open spec fn views_of(v: Seq<String>) -> Seq<Seq<char>> {
    v.map_values(|t: String| t@)
}

/// Split a configuration string on Unicode whitespace, dropping empty pieces.
pub fn split_whitespace_tokens(s: &String) -> (r: Vec<String>)
    ensures
        views_of(r@) == split_ws(s@),
{
    let chars = string_to_chars(s.as_str());
    let n = chars.len();
    let mut r: Vec<String> = Vec::new();
    let mut i: usize = 0;
    proof {
        assert(chars@.skip(0) =~= chars@);
    }
    while i < n
        invariant
            0 <= i <= n,
            n == chars@.len(),
            chars@ == s@,
            split_ws(s@) =~= views_of(r@) + split_ws(chars@.skip(i as int)),
        decreases n - i,
    {
        let c = chars[i];
        if is_whitespace_char(c) {
            proof {
                assert(chars@.skip(i as int).skip(1) =~= chars@.skip(i + 1));
            }
            i = i + 1;
        } else {
            let start: usize = i;
            let mut j: usize = i;
            while j < n && !is_whitespace_char(chars[j])
                invariant
                    start <= j <= n,
                    n == chars@.len(),
                    forall|m: int|
                        start <= m < j ==> !is_unicode_whitespace(#[trigger] chars@[m]),
                decreases n - j,
            {
                j = j + 1;
            }
            let token_chars = subvec(&chars, start, j);
            let token = chars_to_string(&token_chars);
            proof {
                let rest = chars@.skip(start as int);
                assert forall|m: int| 0 <= m < j - start implies !is_unicode_whitespace(
                    #[trigger] rest[m],
                ) by {
                    assert(rest[m] == chars@[m + start]);
                }
                if j < n {
                    assert(is_unicode_whitespace(rest[j - start]));
                }
                lemma_leading_token_len_is(rest, j - start);
                assert(rest.take(j - start) =~= chars@.subrange(start as int, j as int));
                assert(rest.skip(j - start) =~= chars@.skip(j as int));
                assert(split_ws(rest) == seq![token_chars@] + split_ws(chars@.skip(j as int)));
                assert(views_of(r@.push(token)) =~= views_of(r@).push(token@));
            }
            r.push(token);
            i = j;
        }
    }
    proof {
        assert(chars@.skip(n as int) =~= Seq::<char>::empty());
        assert(views_of(r@) + split_ws(chars@.skip(n as int)) =~= views_of(r@));
    }
    r
}

} // verus!
