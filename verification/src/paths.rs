//! Textual path helpers: lexicographic ordering, final-component
//! extraction, and stripping the root prefix to obtain a relative path.

use vstd::prelude::*;

verus! {

/// Lexicographic (code-point) order on character sequences.
pub open spec fn lex_le(a: Seq<char>, b: Seq<char>) -> bool
    decreases a.len(),
{
    if a.len() == 0 {
        true
    } else if b.len() == 0 {
        false
    } else if (a[0] as u32) < (b[0] as u32) {
        true
    } else if (b[0] as u32) < (a[0] as u32) {
        false
    } else {
        lex_le(a.drop_first(), b.drop_first())
    }
}

/// Any two character sequences are comparable.
pub proof fn lemma_lex_le_total(a: Seq<char>, b: Seq<char>)
    ensures
        lex_le(a, b) || lex_le(b, a),
    decreases a.len(),
{
    if a.len() == 0 || b.len() == 0 {
    } else if (a[0] as u32) < (b[0] as u32) || (b[0] as u32) < (a[0] as u32) {
    } else {
        lemma_lex_le_total(a.drop_first(), b.drop_first());
    }
}

/// Compares two strings in lexicographic code-point order.
pub fn str_le(a: &str, b: &str) -> (r: bool)
    ensures
        r == lex_le(a@, b@),
{
    let a_len = a.unicode_len();
    let b_len = b.unicode_len();
    let mut i: usize = 0;
    proof {
        assert(a@.skip(0) =~= a@);
        assert(b@.skip(0) =~= b@);
    }
    while i < a_len && i < b_len
        invariant
            a_len == a@.len(),
            b_len == b@.len(),
            i <= a_len,
            i <= b_len,
            lex_le(a@, b@) == lex_le(a@.skip(i as int), b@.skip(i as int)),
            lex_le(b@, a@) == lex_le(b@.skip(i as int), a@.skip(i as int)),
        decreases a_len - i,
    {
        let ca = a.get_char(i);
        let cb = b.get_char(i);
        if (ca as u32) < (cb as u32) {
            assert(a@.skip(i as int)[0] == ca && b@.skip(i as int)[0] == cb);
            return true;
        }
        if (cb as u32) < (ca as u32) {
            assert(a@.skip(i as int)[0] == ca && b@.skip(i as int)[0] == cb);
            return false;
        }
        proof {
            let sa = a@.skip(i as int);
            let sb = b@.skip(i as int);
            assert(sa[0] == ca && sb[0] == cb);
            assert(sa.drop_first() =~= a@.skip(i + 1));
            assert(sb.drop_first() =~= b@.skip(i + 1));
        }
        i += 1;
    }
    proof {
        if i == a_len {
            assert(a@.skip(i as int).len() == 0);
        } else {
            assert(b@.skip(i as int).len() == 0);
            assert(a@.skip(i as int).len() > 0);
        }
    }
    a_len <= b_len
}

/// The characters after the last separator; empty when the path is
/// empty or ends with a separator.
pub open spec fn tail_component(p: Seq<char>) -> Seq<char>
    decreases p.len(),
{
    if p.len() == 0 {
        Seq::empty()
    } else if p.last() == '/' {
        Seq::empty()
    } else {
        tail_component(p.drop_last()).push(p.last())
    }
}

/// The name shown for a path: its final component, or the full path
/// text when no component can be extracted.
pub open spec fn spec_file_name(p: Seq<char>) -> Seq<char> {
    if tail_component(p).len() == 0 {
        p
    } else {
        tail_component(p)
    }
}

/// Extracts the name shown for `path` in the tree diagram.
pub fn file_name(path: &str) -> (r: String)
    ensures
        r@ == spec_file_name(path@),
{
    let n = path.unicode_len();
    let mut cut: usize = 0;
    let mut i: usize = 0;
    while i < n
        invariant
            n == path@.len(),
            cut <= i <= n,
            tail_component(path@.take(i as int)) == path@.subrange(cut as int, i as int),
        decreases n - i,
    {
        proof {
            let t = path@.take(i + 1);
            assert(t.drop_last() =~= path@.take(i as int));
            assert(t.last() == path@[i as int]);
        }
        if path.get_char(i) == '/' {
            cut = i + 1;
            assert(tail_component(path@.take(i + 1)) =~= path@.subrange(cut as int, i + 1));
        } else {
            assert(tail_component(path@.take(i + 1)) =~= path@.subrange(cut as int, i + 1));
        }
        i += 1;
    }
    assert(path@.take(n as int) =~= path@);
    if cut == n {
        assert(spec_file_name(path@) == path@);
        path.to_owned()
    } else {
        let tail = path.substring_char(cut, n);
        assert(tail@ =~= tail_component(path@));
        tail.to_owned()
    }
}

/// The path with the root prefix stripped: the remainder after
/// `root` and a separator, empty when the path equals the root, and
/// the full path when it does not lie under the root textually.
pub open spec fn spec_relative_path(path: Seq<char>, root: Seq<char>) -> Seq<char> {
    let pref = if root.len() > 0 && root.last() == '/' {
        root
    } else {
        root.push('/')
    };
    if path.len() >= pref.len() && path.subrange(0, pref.len() as int) == pref {
        path.skip(pref.len() as int)
    } else if path == root {
        Seq::empty()
    } else {
        path
    }
}

/// Do the first `n` characters of `a` and `b` agree?
fn eq_up_to(a: &str, b: &str, n: usize) -> (r: bool)
    requires
        n <= a@.len(),
        n <= b@.len(),
    ensures
        r == (a@.subrange(0, n as int) == b@.subrange(0, n as int)),
{
    let mut i: usize = 0;
    while i < n
        invariant
            n <= a@.len(),
            n <= b@.len(),
            i <= n,
            forall|k: int| 0 <= k < i ==> a@[k] == b@[k],
        decreases n - i,
    {
        if a.get_char(i) != b.get_char(i) {
            assert(a@.subrange(0, n as int)[i as int] != b@.subrange(0, n as int)[i as int]);
            return false;
        }
        i += 1;
    }
    assert(a@.subrange(0, n as int) =~= b@.subrange(0, n as int));
    true
}

/// Strips the root directory prefix from `path`, falling back to the
/// full path when `path` does not lie under `root` textually.
pub fn relative_path(path: &str, root: &str) -> (r: String)
    ensures
        r@ == spec_relative_path(path@, root@),
{
    let p_len = path.unicode_len();
    let r_len = root.unicode_len();
    let ends_slash = r_len > 0 && root.get_char(r_len - 1) == '/';
    let ghost pref = if root@.len() > 0 && root@.last() == '/' {
        root@
    } else {
        root@.push('/')
    };
    if ends_slash && p_len >= r_len && eq_up_to(path, root, r_len) {
        proof {
            assert(pref =~= root@);
            assert forall|k: int| 0 <= k < r_len implies path@.subrange(0, r_len as int)[k]
                == pref[k] by {
                assert(root@.subrange(0, r_len as int)[k] == root@[k]);
            }
            assert(path@.subrange(0, pref.len() as int) =~= pref);
        }
        let rest = path.substring_char(r_len, p_len);
        rest.to_owned()
    } else if !ends_slash && p_len > r_len && eq_up_to(path, root, r_len)
        && path.get_char(r_len) == '/' {
        proof {
            assert(pref =~= root@.push('/'));
            assert forall|k: int| 0 <= k < r_len + 1 implies path@.subrange(0, r_len + 1)[k]
                == pref[k] by {
                if k < r_len {
                    assert(path@.subrange(0, r_len as int)[k] == root@.subrange(0, r_len as int)[k]);
                }
            }
            assert(path@.subrange(0, pref.len() as int) =~= pref);
        }
        let rest = path.substring_char(r_len + 1, p_len);
        rest.to_owned()
    } else if p_len == r_len && eq_up_to(path, root, r_len) {
        proof {
            assert forall|k: int| 0 <= k < p_len implies path@[k] == root@[k] by {
                assert(path@.subrange(0, r_len as int)[k] == root@.subrange(0, r_len as int)[k]);
            }
            assert(path@ =~= root@);
            if path@.len() >= pref.len() && path@.subrange(0, pref.len() as int) == pref {
                assert(false);
            }
        }
        String::new()
    } else {
        proof {
            if path@.len() >= pref.len() && path@.subrange(0, pref.len() as int) == pref {
                assert forall|k: int| 0 <= k < r_len implies path@.subrange(0, r_len as int)[k]
                    == root@.subrange(0, r_len as int)[k] by {
                    assert(path@.subrange(0, pref.len() as int)[k] == pref[k]);
                }
                assert(path@.subrange(0, r_len as int) =~= root@.subrange(0, r_len as int));
                if !ends_slash {
                    assert(path@.subrange(0, pref.len() as int)[r_len as int] == pref[r_len as int]);
                }
                assert(false);
            }
            if path@ == root@ {
                assert(path@.subrange(0, r_len as int) =~= root@.subrange(0, r_len as int));
                assert(false);
            }
        }
        path.to_owned()
    }
}

} // verus!
