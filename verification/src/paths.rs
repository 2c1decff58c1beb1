//! Path strings: file extensions, stems, and joining a name under a
//! directory. Paths are treated as plain character strings with `/` as the
//! separator and the extension as the part after the last dot of the final
//! component (a component whose only dot is leading has no extension).

use vstd::prelude::*;
use crate::text::{string_to_chars, chars_to_string, subvec, view_opt};

verus! {

/// Index of the last occurrence of `c` in `s`, or -1 when absent.
pub open spec fn last_index_of(s: Seq<char>, c: char) -> int
    decreases s.len(),
{
    if s.len() == 0 {
        -1
    } else if s.last() == c {
        s.len() - 1
    } else {
        last_index_of(s.drop_last(), c)
    }
}

pub proof fn lemma_last_index_of_props(s: Seq<char>, c: char)
    ensures
        -1 <= last_index_of(s, c) < s.len(),
        last_index_of(s, c) >= 0 ==> s[last_index_of(s, c)] == c,
        forall|j: int| last_index_of(s, c) < j < s.len() ==> s[j] != c,
    decreases s.len(),
{
    if s.len() > 0 && s.last() != c {
        lemma_last_index_of_props(s.drop_last(), c);
        assert forall|j: int| last_index_of(s, c) < j < s.len() implies s[j] != c by {
            if j < s.len() - 1 {
                assert(s.drop_last()[j] == s[j]);
            }
        }
        if last_index_of(s, c) >= 0 {
            assert(s.drop_last()[last_index_of(s, c)] == s[last_index_of(s, c)]);
        }
    }
}

/// The final component of a path: everything after the last `/`.
pub open spec fn file_name_part(p: Seq<char>) -> Seq<char> {
    p.skip(last_index_of(p, '/') + 1)
}

/// The extension of a path: the part of its final component after the last
/// dot, provided that dot is not the component's first character. A component
/// without a dot, or with only a leading dot, has none.
pub open spec fn extension_of(p: Seq<char>) -> Option<Seq<char>> {
    let name = file_name_part(p);
    let dot = last_index_of(name, '.');
    if dot <= 0 {
        None
    } else {
        Some(name.skip(dot + 1))
    }
}

/// The path without its extension (and without the dot before it).
pub open spec fn strip_extension(p: Seq<char>) -> Seq<char> {
    match extension_of(p) {
        Some(e) => p.take(p.len() - e.len() - 1),
        None => p,
    }
}

/// A name joined under a directory, inserting `/` unless the directory
/// already ends with one (an empty directory names the current one).
pub open spec fn path_join(dir: Seq<char>, name: Seq<char>) -> Seq<char> {
    if dir.len() == 0 {
        name
    } else if dir.last() == '/' {
        dir + name
    } else {
        dir + seq!['/'] + name
    }
}

/// Index of the last occurrence of `c`, scanning from the end.
pub fn find_last(v: &Vec<char>, c: char) -> (r: Option<usize>)
    ensures
        match r {
            Some(k) => k == last_index_of(v@, c),
            None => last_index_of(v@, c) == -1,
        },
{
    let mut i: usize = v.len();
    proof {
        assert(v@.take(v@.len() as int) =~= v@);
    }
    while i > 0
        invariant
            0 <= i <= v@.len(),
            last_index_of(v@, c) == last_index_of(v@.take(i as int), c),
        decreases i,
    {
        if v[i - 1] == c {
            proof {
                assert(v@.take(i as int).last() == v@[i - 1]);
            }
            return Some(i - 1);
        }
        proof {
            assert(v@.take(i as int).drop_last() =~= v@.take(i - 1));
        }
        i = i - 1;
    }
    proof {
        assert(v@.take(0) =~= Seq::<char>::empty());
    }
    None
}

/// The extension of `path`, as `extension_of` describes it.
pub fn extension_of_path(path: &String) -> (r: Option<String>)
    ensures
        view_opt(r) == extension_of(path@),
{
    let chars = string_to_chars(path.as_str());
    proof {
        lemma_last_index_of_props(chars@, '/');
    }
    let name_start: usize = match find_last(&chars, '/') {
        Some(k) => k + 1,
        None => 0,
    };
    let name = subvec(&chars, name_start, chars.len());
    proof {
        assert(name@ =~= file_name_part(path@));
    }
    match find_last(&name, '.') {
        Some(dot) if dot > 0 => {
            proof {
                lemma_last_index_of_props(name@, '.');
            }
            let ext = subvec(&name, dot + 1, name.len());
            proof {
                assert(ext@ =~= file_name_part(path@).skip(last_index_of(name@, '.') + 1));
            }
            Some(chars_to_string(&ext))
        },
        _ => None,
    }
}

/// The path without its extension.
pub fn strip_extension_path(path: &String) -> (r: String)
    ensures
        r@ == strip_extension(path@),
{
    let chars = string_to_chars(path.as_str());
    match extension_of_path(path) {
        Some(e) => {
            let ghost ext = extension_of(path@).unwrap();
            let elen = string_to_chars(e.as_str()).len();
            proof {
                lemma_last_index_of_props(file_name_part(path@), '.');
                lemma_last_index_of_props(path@, '/');
            }
            assert(elen < chars@.len());
            let stem = subvec(&chars, 0, chars.len() - elen - 1);
            proof {
                assert(stem@ =~= strip_extension(path@));
            }
            chars_to_string(&stem)
        },
        None => {
            proof {
                assert(chars@.subrange(0, chars@.len() as int) =~= chars@);
            }
            let all = subvec(&chars, 0, chars.len());
            chars_to_string(&all)
        },
    }
}

/// Join `name` under `dir`.
pub fn join_path(dir: &String, name: &String) -> (r: String)
    ensures
        r@ == path_join(dir@, name@),
{
    let dchars = string_to_chars(dir.as_str());
    let nchars = string_to_chars(name.as_str());
    let mut out: Vec<char> = Vec::new();
    let mut i: usize = 0;
    while i < dchars.len()
        invariant
            0 <= i <= dchars@.len(),
            out@ == dchars@.take(i as int),
            dchars@ == dir@,
        decreases dchars@.len() - i,
    {
        out.push(dchars[i]);
        proof {
            assert(dchars@.take(i + 1) =~= dchars@.take(i as int).push(dchars@[i as int]));
        }
        i = i + 1;
    }
    proof {
        assert(dchars@.take(dchars@.len() as int) =~= dchars@);
    }
    if dchars.len() > 0 && dchars[dchars.len() - 1] != '/' {
        out.push('/');
    }
    let mut j: usize = 0;
    let ghost base = out@;
    while j < nchars.len()
        invariant
            0 <= j <= nchars@.len(),
            out@ == base + nchars@.take(j as int),
            nchars@ == name@,
        decreases nchars@.len() - j,
    {
        out.push(nchars[j]);
        proof {
            assert(nchars@.take(j + 1) =~= nchars@.take(j as int).push(nchars@[j as int]));
        }
        j = j + 1;
    }
    proof {
        assert(nchars@.take(nchars@.len() as int) =~= nchars@);
        assert(out@ =~= path_join(dir@, name@));
    }
    chars_to_string(&out)
}

} // verus!
