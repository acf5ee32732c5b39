//! Splitting a version string into epoch, version and release.

use vstd::prelude::*;

verus! {

/// Index of the first occurrence of `c` in `s`, if any.
pub open spec fn index_of_first(s: Seq<char>, c: char) -> Option<int>
    decreases s.len(),
{
    if s.len() == 0 {
        None
    } else if s[0] == c {
        Some(0int)
    } else {
        match index_of_first(s.skip(1), c) {
            Some(i) => Some(i + 1),
            None => None,
        }
    }
}

/// `index_of_first` names the least position holding `c`, when one exists.
pub proof fn lemma_index_of_first(s: Seq<char>, c: char)
    ensures
        match index_of_first(s, c) {
            Some(i) => 0 <= i < s.len() && s[i] == c && (forall|j: int|
                0 <= j < i ==> s[j] != c),
            None => forall|j: int| 0 <= j < s.len() ==> s[j] != c,
        },
    decreases s.len(),
{
    if s.len() > 0 && s[0] != c {
        let t = s.skip(1);
        lemma_index_of_first(t, c);
        assert(forall|j: int| 0 <= j < t.len() ==> t[j] == s[j + 1]);
        if index_of_first(s, c) is Some {
            let i = index_of_first(s, c)->0;
            assert forall|j: int| 0 <= j < i implies s[j] != c by {
                if j > 0 {
                    assert(t[j - 1] != c);
                }
            }
        } else {
            assert forall|j: int| 0 <= j < s.len() implies s[j] != c by {
                if j > 0 {
                    assert(t[j - 1] != c);
                }
            }
        }
    }
}

/// The three fields of a version string: epoch, version, release.
///
/// The first `:` of the string is the epoch separator, provided it stands
/// before the first `-`; the text before it is the epoch, which is absent
/// when the separator is the very first character or does not occur.  The
/// first `-` after the version field's start separates version from
/// release; everything after it, verbatim, is the release.
pub open spec fn split_evr(s: Seq<char>) -> (Option<Seq<char>>, Seq<char>, Option<Seq<char>>) {
    let colon = index_of_first(s, ':');
    let dash = index_of_first(s, '-');
    let has_sep = colon is Some && (dash is None || colon->0 < dash->0);
    let vstart = if has_sep {
        colon->0 + 1
    } else {
        0
    };
    let epoch = if has_sep && colon->0 > 0 {
        Some(s.take(colon->0))
    } else {
        None
    };
    match dash {
        Some(d) => (epoch, s.subrange(vstart, d), Some(s.subrange(d + 1, s.len() as int))),
        None => (epoch, s.subrange(vstart, s.len() as int), None),
    }
}

/// Position of the first occurrence of `c` in `v`, if any.
fn find_char(v: &Vec<char>, c: char) -> (r: Option<usize>)
    ensures
        match r {
            Some(i) => index_of_first(v@, c) == Some(i as int),
            None => index_of_first(v@, c) is None,
        },
{
    proof {
        lemma_index_of_first(v@, c);
    }
    let mut i: usize = 0;
    while i < v.len()
        invariant
            i <= v@.len(),
            forall|j: int| 0 <= j < i ==> v@[j] != c,
            match index_of_first(v@, c) {
                Some(k) => 0 <= k < v@.len() && v@[k] == c && (forall|j: int|
                    0 <= j < k ==> v@[j] != c),
                None => forall|j: int| 0 <= j < v@.len() ==> v@[j] != c,
            },
        decreases v@.len() - i,
    {
        if v[i] == c {
            return Some(i);
        }
        i = i + 1;
    }
    None
}

/// The three fields of a version string, split as `split_evr` describes.
pub(crate) fn split_fields(v: &Vec<char>) -> (r: (Option<Vec<char>>, Vec<char>, Option<Vec<char>>))
    ensures
        ({
            let sp = split_evr(v@);
            &&& r.0 is Some <==> sp.0 is Some
            &&& r.0 is Some ==> r.0->0@ == sp.0->0
            &&& r.1@ == sp.1
            &&& r.2 is Some <==> sp.2 is Some
            &&& r.2 is Some ==> r.2->0@ == sp.2->0
        }),
{
    proof {
        lemma_index_of_first(v@, ':');
        lemma_index_of_first(v@, '-');
    }
    let n = v.len();
    let colon = find_char(v, ':');
    let dash = find_char(v, '-');
    let (has_sep, cpos): (bool, usize) = match (colon, dash) {
        (Some(j), Some(d)) => (j < d, j),
        (Some(j), None) => (true, j),
        _ => (false, 0),
    };
    proof {
        assert(has_sep ==> cpos < v@.len());
        assert(dash is Some ==> dash->0 < v@.len());
        assert(has_sep && dash is Some ==> cpos < dash->0);
    }
    let vstart: usize = if has_sep {
        cpos + 1
    } else {
        0
    };
    let epoch: Option<Vec<char>> = if has_sep && cpos > 0 {
        Some(crate::text::subvec(v, 0, cpos))
    } else {
        None
    };
    match dash {
        Some(d) => {
            let ver = crate::text::subvec(v, vstart, d);
            let rel = crate::text::subvec(v, d + 1, n);
            (epoch, ver, Some(rel))
        },
        None => {
            let ver = crate::text::subvec(v, vstart, n);
            (epoch, ver, None)
        },
    }
}

/// Splits a raw version string into its epoch, version and release
/// fields.  The split never fails: degenerate strings yield whatever
/// substrings the delimiter rules produce.
pub fn parse_evr(s: &String) -> (r: Result<(Option<String>, String, Option<String>), ()>)
    ensures
        r is Ok,
        ({
            let sp = split_evr(s@);
            let t = r->Ok_0;
            &&& t.0 is Some <==> sp.0 is Some
            &&& t.0 is Some ==> t.0->0@ == sp.0->0
            &&& t.1@ == sp.1
            &&& t.2 is Some <==> sp.2 is Some
            &&& t.2 is Some ==> t.2->0@ == sp.2->0
        }),
{
    let v = crate::text::chars_of(s.as_str());
    let (epoch, ver, rel) = split_fields(&v);
    let epoch_s = match epoch {
        Some(e) => Some(crate::text::string_of(&e)),
        None => None,
    };
    let ver_s = crate::text::string_of(&ver);
    let rel_s = match rel {
        Some(x) => Some(crate::text::string_of(&x)),
        None => None,
    };
    Ok((epoch_s, ver_s, rel_s))
}

} // verus!
