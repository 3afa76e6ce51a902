//! Path filtering: a path is ignored when its textual form contains any
//! of the configured substring patterns.

use vstd::prelude::*;

verus! {

/// `needle` occurs in `hay` starting at position `i`.
pub open spec fn is_match_at(hay: Seq<char>, needle: Seq<char>, i: int) -> bool {
    0 <= i && i + needle.len() <= hay.len() && hay.subrange(i, i + needle.len()) == needle
}

/// `needle` occurs somewhere in `hay` as a contiguous substring.
pub open spec fn contains_substr(hay: Seq<char>, needle: Seq<char>) -> bool {
    exists|i: int| is_match_at(hay, needle, i)
}

/// The pattern sequence carried by an optional ignore list.
pub open spec fn patterns_of(ignore_list: Option<Vec<String>>) -> Option<Seq<Seq<char>>> {
    match ignore_list {
        None => None,
        Some(v) => Some(v.deep_view()),
    }
}

/// Some pattern in `ps` is a substring of `path`.
pub open spec fn any_pattern_matches(path: Seq<char>, ps: Seq<Seq<char>>) -> bool {
    exists|k: int| 0 <= k < ps.len() && #[trigger] contains_substr(path, ps[k])
}

/// A path is ignored exactly when an ignore list is present and one of
/// its patterns is a substring of the path's textual form.
pub open spec fn spec_should_ignore(path: Seq<char>, pats: Option<Seq<Seq<char>>>) -> bool {
    match pats {
        None => false,
        Some(ps) => any_pattern_matches(path, ps),
    }
}

/// A sequence contains itself.
pub proof fn lemma_contains_substr_self(x: Seq<char>)
    ensures
        contains_substr(x, x),
{
    assert(x.subrange(0, x.len() as int) =~= x);
    assert(is_match_at(x, x, 0));
}

/// A prefix is a substring.
pub proof fn lemma_prefix_contains(a: Seq<char>, x: Seq<char>)
    requires
        a.len() >= x.len(),
        a.subrange(0, x.len() as int) == x,
    ensures
        contains_substr(a, x),
{
    assert(is_match_at(a, x, 0));
}

/// A substring of the left part is a substring of the whole.
pub proof fn lemma_contains_substr_concat_left(a: Seq<char>, b: Seq<char>, x: Seq<char>)
    requires
        contains_substr(a, x),
    ensures
        contains_substr(a + b, x),
{
    let i = choose|i: int| is_match_at(a, x, i);
    assert((a + b).subrange(i, i + x.len()) =~= a.subrange(i, i + x.len()));
    assert(is_match_at(a + b, x, i));
}

/// A substring of the right part is a substring of the whole.
pub proof fn lemma_contains_substr_concat_right(a: Seq<char>, b: Seq<char>, x: Seq<char>)
    requires
        contains_substr(b, x),
    ensures
        contains_substr(a + b, x),
{
    let i = choose|i: int| is_match_at(b, x, i);
    assert((a + b).subrange(a.len() + i, a.len() + i + x.len()) =~= b.subrange(i, i + x.len()));
    assert(is_match_at(a + b, x, a.len() + i));
}

/// The pieces of `s` between its commas, in order; a string without
/// commas is one piece, and the empty string is one empty piece.
pub open spec fn spec_split_commas(s: Seq<char>) -> Seq<Seq<char>>
    decreases s.len(),
{
    if s.len() == 0 {
        seq![Seq::<char>::empty()]
    } else if s.last() == ',' {
        spec_split_commas(s.drop_last()).push(Seq::<char>::empty())
    } else {
        let r = spec_split_commas(s.drop_last());
        r.update(r.len() - 1, r.last().push(s.last()))
    }
}

/// Splits a comma-separated pattern string into the individual
/// patterns, keeping empty pieces, as the configuration supplies them.
pub fn parse_ignore_list(arg: &str) -> (r: Vec<String>)
    ensures
        r.deep_view() == spec_split_commas(arg@),
{
    let n = arg.unicode_len();
    let mut pieces: Vec<String> = Vec::new();
    let mut start: usize = 0;
    let mut i: usize = 0;
    proof {
        assert(arg@.take(0) =~= Seq::<char>::empty());
        assert(arg@.subrange(0, 0) =~= Seq::<char>::empty());
        assert(pieces.deep_view().push(arg@.subrange(0, 0)) =~= spec_split_commas(arg@.take(0)));
    }
    while i < n
        invariant
            n == arg@.len(),
            start <= i <= n,
            pieces.deep_view().push(arg@.subrange(start as int, i as int))
                == spec_split_commas(arg@.take(i as int)),
        decreases n - i,
    {
        proof {
            let t = arg@.take(i + 1);
            assert(t.drop_last() =~= arg@.take(i as int));
            assert(t.last() == arg@[i as int]);
        }
        if arg.get_char(i) == ',' {
            let piece = arg.substring_char(start, i);
            let ghost old_pieces = pieces.deep_view();
            let ghost old_start = start as int;
            pieces.push(piece.to_owned());
            start = i + 1;
            proof {
                assert(pieces.deep_view() =~= old_pieces.push(arg@.subrange(old_start, i as int)));
                assert(arg@.subrange(start as int, i + 1) =~= Seq::<char>::empty());
                assert(pieces.deep_view().push(arg@.subrange(start as int, i + 1))
                    =~= spec_split_commas(arg@.take(i + 1)));
            }
        } else {
            proof {
                let r = spec_split_commas(arg@.take(i as int));
                assert(r.last() == arg@.subrange(start as int, i as int));
                assert(r.last().push(arg@[i as int]) =~= arg@.subrange(start as int, i + 1));
                assert(pieces.deep_view().push(arg@.subrange(start as int, i + 1))
                    =~= spec_split_commas(arg@.take(i + 1)));
            }
        }
        i += 1;
    }
    let last = arg.substring_char(start, n);
    let ghost old_pieces = pieces.deep_view();
    pieces.push(last.to_owned());
    proof {
        assert(arg@.take(n as int) =~= arg@);
        assert(pieces.deep_view() =~= old_pieces.push(arg@.subrange(start as int, n as int)));
    }
    pieces
}

/// Builds the ignore list from the optional configuration value: absent
/// configuration means no filtering at all.
pub fn build_ignore_list(arg: &Option<String>) -> (r: Option<Vec<String>>)
    ensures
        arg is None ==> r is None,
        arg is Some ==> r is Some && r->Some_0.deep_view() == spec_split_commas(arg->Some_0@),
{
    match arg {
        None => None,
        Some(s) => Some(parse_ignore_list(s.as_str())),
    }
}

/// Does `needle` occur in `hay` starting at character position `i`?
fn matches_at(hay: &str, needle: &str, i: usize, hay_len: usize, needle_len: usize) -> (r: bool)
    requires
        hay_len == hay@.len(),
        needle_len == needle@.len(),
        i + needle_len <= hay_len,
    ensures
        r == is_match_at(hay@, needle@, i as int),
{
    let mut j: usize = 0;
    while j < needle_len
        invariant
            hay_len == hay@.len(),
            needle_len == needle@.len(),
            i + needle_len <= hay_len,
            j <= needle_len,
            forall|k: int| 0 <= k < j ==> hay@[i + k] == needle@[k],
        decreases needle_len - j,
    {
        if hay.get_char(i + j) != needle.get_char(j) {
            assert(!is_match_at(hay@, needle@, i as int)) by {
                if is_match_at(hay@, needle@, i as int) {
                    assert(hay@.subrange(i as int, i + needle@.len())[j as int] == needle@[j as int]);
                }
            }
            return false;
        }
        j += 1;
    }
    assert(hay@.subrange(i as int, i + needle@.len()) =~= needle@);
    true
}

/// Is `needle` a contiguous substring of `hay`?
pub fn str_contains(hay: &str, needle: &str) -> (r: bool)
    ensures
        r == contains_substr(hay@, needle@),
{
    let hay_len = hay.unicode_len();
    let needle_len = needle.unicode_len();
    if needle_len > hay_len {
        assert(forall|i: int| !is_match_at(hay@, needle@, i));
        return false;
    }
    if needle_len == 0 {
        assert(hay@.subrange(0, 0) =~= needle@);
        assert(is_match_at(hay@, needle@, 0));
        return true;
    }
    let mut i: usize = 0;
    while i <= hay_len - needle_len
        invariant
            hay_len == hay@.len(),
            needle_len == needle@.len(),
            1 <= needle_len <= hay_len,
            i <= hay_len - needle_len + 1,
            forall|k: int| 0 <= k < i ==> !is_match_at(hay@, needle@, k),
        decreases hay_len - needle_len + 1 - i,
    {
        if matches_at(hay, needle, i, hay_len, needle_len) {
            return true;
        }
        i += 1;
    }
    assert(forall|k: int| !is_match_at(hay@, needle@, k));
    false
}

/// Decides whether `path` is excluded: true exactly when an ignore list
/// is present and one of its patterns is a substring of `path`.
pub fn should_ignore(path: &str, ignore_list: &Option<Vec<String>>) -> (r: bool)
    ensures
        r == spec_should_ignore(path@, patterns_of(*ignore_list)),
{
    match ignore_list {
        None => false,
        Some(patterns) => {
            let n = patterns.len();
            let mut k: usize = 0;
            while k < n
                invariant
                    *ignore_list is Some,
                    (*ignore_list)->Some_0 == *patterns,
                    n == patterns@.len(),
                    k <= n,
                    forall|j: int| 0 <= j < k ==> !contains_substr(path@, patterns.deep_view()[j]),
                decreases n - k,
            {
                if str_contains(path, patterns[k].as_str()) {
                    proof {
                        let ps = patterns.deep_view();
                        assert(ps[k as int] == patterns@[k as int]@);
                        assert((k as int) < ps.len() && contains_substr(path@, ps[k as int]));
                    }
                    return true;
                }
                k += 1;
            }
            false
        },
    }
}

} // verus!
