//! The tree diagram: a directory tree captured as plain data is
//! rendered as ASCII art, skipping ignored paths, with the surviving
//! siblings at each level sorted by their full path.

use vstd::prelude::*;
use crate::filter::{contains_substr, lemma_contains_substr_concat_left, lemma_contains_substr_concat_right, lemma_prefix_contains, patterns_of, should_ignore, spec_should_ignore};
use crate::paths::{file_name, lemma_lex_le_total, lex_le, spec_file_name, str_le};

verus! {

broadcast use vstd::std_specs::vec::axiom_vec_index_decreases, vstd::std_specs::vec::axiom_vec_decreases_to_view, vstd::seq::axiom_seq_index_decreases;

/// A directory tree as plain data: a node's full path in textual form,
/// whether it is a directory, and its child nodes.
pub struct FsTree {
    pub path: String,
    pub is_dir: bool,
    pub children: Vec<FsTree>,
}

/// The branch marker drawn before a node's name.
pub open spec fn branch_marker(is_last: bool) -> Seq<char> {
    if is_last {
        "└── "@
    } else {
        "├── "@
    }
}

/// The prefix segment a node adds in front of its children's lines.
pub open spec fn prefix_extension(is_last: bool) -> Seq<char> {
    if is_last {
        "    "@
    } else {
        "│   "@
    }
}

/// One line of the tree diagram.
pub open spec fn line_of(prefix: Seq<char>, is_last: bool, name: Seq<char>) -> Seq<char> {
    prefix + branch_marker(is_last) + name + "\n"@
}

/// The children that survive filtering, in their original order.
pub open spec fn kept(s: Seq<FsTree>, pats: Option<Seq<Seq<char>>>) -> Seq<FsTree>
    decreases s.len(),
{
    if s.len() == 0 {
        Seq::empty()
    } else {
        kept(s.drop_last(), pats) + (if spec_should_ignore(s.last().path@, pats) {
            Seq::<FsTree>::empty()
        } else {
            seq![s.last()]
        })
    }
}

/// Inserts a node into a path-sorted sequence, in front of the first
/// node whose path it does not strictly follow.
pub open spec fn insert_sorted(x: FsTree, s: Seq<FsTree>) -> Seq<FsTree>
    decreases s.len(),
{
    if s.len() == 0 {
        seq![x]
    } else if lex_le(x.path@, s[0].path@) {
        seq![x] + s
    } else {
        seq![s[0]] + insert_sorted(x, s.drop_first())
    }
}

/// Sorts a sequence of nodes by full path, by repeated insertion.
pub open spec fn sort_by_path(s: Seq<FsTree>) -> Seq<FsTree>
    decreases s.len(),
{
    if s.len() == 0 {
        Seq::empty()
    } else {
        insert_sorted(s.last(), sort_by_path(s.drop_last()))
    }
}

/// The filtered children in path-sorted order: the siblings the
/// diagram shows under a directory, in the order it shows them.
pub open spec fn kept_sorted(s: Seq<FsTree>, pats: Option<Seq<Seq<char>>>) -> Seq<FsTree> {
    sort_by_path(kept(s, pats))
}

/// Every node of `insert_sorted(x, s)` is `x` or a node of `s`, and
/// one more node is present.
pub proof fn lemma_insert_sorted_membership(x: FsTree, s: Seq<FsTree>)
    ensures
        insert_sorted(x, s).len() == s.len() + 1,
        forall|i: int|
            0 <= i < insert_sorted(x, s).len() ==> #[trigger] insert_sorted(x, s)[i] == x
                || s.contains(insert_sorted(x, s)[i]),
    decreases s.len(),
{
    if s.len() == 0 {
    } else if lex_le(x.path@, s[0].path@) {
        assert forall|i: int| 0 <= i < insert_sorted(x, s).len() implies #[trigger] insert_sorted(
            x,
            s,
        )[i] == x || s.contains(insert_sorted(x, s)[i]) by {
            if i > 0 {
                assert(insert_sorted(x, s)[i] == s[i - 1]);
            }
        }
    } else {
        lemma_insert_sorted_membership(x, s.drop_first());
        assert forall|i: int| 0 <= i < insert_sorted(x, s).len() implies #[trigger] insert_sorted(
            x,
            s,
        )[i] == x || s.contains(insert_sorted(x, s)[i]) by {
            let t = insert_sorted(x, s.drop_first());
            if i == 0 {
                assert(insert_sorted(x, s)[0] == s[0]);
                assert(s.contains(s[0]));
            } else {
                assert(insert_sorted(x, s)[i] == t[i - 1]);
                if t[i - 1] != x {
                    let j = choose|j: int|
                        0 <= j < s.drop_first().len() && s.drop_first()[j] == t[i - 1];
                    assert(s[j + 1] == t[i - 1]);
                    assert(s.contains(s[j + 1]));
                }
            }
        }
    }
}

/// Every node of `sort_by_path(s)` is a node of `s`, and the length is
/// unchanged.
pub proof fn lemma_sort_by_path_membership(s: Seq<FsTree>)
    ensures
        sort_by_path(s).len() == s.len(),
        forall|i: int|
            0 <= i < sort_by_path(s).len() ==> s.contains(#[trigger] sort_by_path(s)[i]),
    decreases s.len(),
{
    if s.len() == 0 {
    } else {
        lemma_sort_by_path_membership(s.drop_last());
        lemma_insert_sorted_membership(s.last(), sort_by_path(s.drop_last()));
        assert forall|i: int| 0 <= i < sort_by_path(s).len() implies s.contains(
            #[trigger] sort_by_path(s)[i],
        ) by {
            let e = sort_by_path(s)[i];
            if e == s.last() {
                assert(s[s.len() - 1] == e);
            } else {
                assert(sort_by_path(s.drop_last()).contains(e));
                let j = choose|j: int|
                    0 <= j < s.drop_last().len() && s.drop_last()[j] == e;
                assert(s[j] == e);
            }
        }
    }
}

/// Every node of `kept(s, pats)` is a node of `s` that is not ignored.
pub proof fn lemma_kept_membership(s: Seq<FsTree>, pats: Option<Seq<Seq<char>>>)
    ensures
        kept(s, pats).len() <= s.len(),
        forall|i: int|
            0 <= i < kept(s, pats).len() ==> s.contains(#[trigger] kept(s, pats)[i])
                && !spec_should_ignore(kept(s, pats)[i].path@, pats),
    decreases s.len(),
{
    if s.len() == 0 {
    } else {
        lemma_kept_membership(s.drop_last(), pats);
        assert forall|i: int| 0 <= i < kept(s, pats).len() implies s.contains(
            #[trigger] kept(s, pats)[i],
        ) && !spec_should_ignore(kept(s, pats)[i].path@, pats) by {
            let e = kept(s, pats)[i];
            if i < kept(s.drop_last(), pats).len() {
                assert(e == kept(s.drop_last(), pats)[i]);
                assert(s.drop_last().contains(e));
                let j = choose|j: int|
                    0 <= j < s.drop_last().len() && s.drop_last()[j] == e;
                assert(s[j] == e);
            } else {
                assert(e == s.last());
                assert(s[s.len() - 1] == e);
            }
        }
    }
}

/// Every sibling the diagram shows under a directory is one of its
/// children and is not ignored.
pub proof fn lemma_kept_sorted_membership(s: Seq<FsTree>, pats: Option<Seq<Seq<char>>>)
    ensures
        kept_sorted(s, pats).len() <= s.len(),
        forall|i: int|
            0 <= i < kept_sorted(s, pats).len() ==> s.contains(#[trigger] kept_sorted(s, pats)[i])
                && !spec_should_ignore(kept_sorted(s, pats)[i].path@, pats),
{
    lemma_kept_membership(s, pats);
    lemma_sort_by_path_membership(kept(s, pats));
    assert forall|i: int| 0 <= i < kept_sorted(s, pats).len() implies s.contains(
        #[trigger] kept_sorted(s, pats)[i],
    ) && !spec_should_ignore(kept_sorted(s, pats)[i].path@, pats) by {
        let e = kept_sorted(s, pats)[i];
        assert(kept(s, pats).contains(e));
        let j = choose|j: int| 0 <= j < kept(s, pats).len() && kept(s, pats)[j] == e;
        assert(s.contains(kept(s, pats)[j]));
        assert(!spec_should_ignore(kept(s, pats)[j].path@, pats));
    }
}

/// Each sibling's path is at most the next sibling's path.
pub open spec fn sorted_by_path(s: Seq<FsTree>) -> bool {
    forall|i: int| 0 <= i < s.len() - 1 ==> lex_le(#[trigger] s[i].path@, s[i + 1].path@)
}

proof fn lemma_insert_sorted_sorted(x: FsTree, s: Seq<FsTree>)
    requires
        sorted_by_path(s),
    ensures
        sorted_by_path(insert_sorted(x, s)),
    decreases s.len(),
{
    if s.len() == 0 {
    } else if lex_le(x.path@, s[0].path@) {
        let r = seq![x] + s;
        assert forall|i: int| 0 <= i < r.len() - 1 implies lex_le(
            #[trigger] r[i].path@,
            r[i + 1].path@,
        ) by {
            if i > 0 {
                assert(r[i] == s[i - 1] && r[i + 1] == s[i]);
            }
        }
    } else {
        let df = s.drop_first();
        assert forall|i: int| 0 <= i < df.len() - 1 implies lex_le(
            #[trigger] df[i].path@,
            df[i + 1].path@,
        ) by {
            assert(df[i] == s[i + 1] && df[i + 1] == s[i + 2]);
        }
        lemma_insert_sorted_sorted(x, df);
        let t = insert_sorted(x, df);
        let r = seq![s[0]] + t;
        lemma_lex_le_total(x.path@, s[0].path@);
        assert forall|i: int| 0 <= i < r.len() - 1 implies lex_le(
            #[trigger] r[i].path@,
            r[i + 1].path@,
        ) by {
            if i == 0 {
                assert(r[1] == t[0]);
                if df.len() == 0 {
                    assert(t[0] == x);
                } else if lex_le(x.path@, df[0].path@) {
                    assert(t[0] == x);
                } else {
                    assert(t[0] == df[0] && df[0] == s[1]);
                }
            } else {
                assert(r[i] == t[i - 1] && r[i + 1] == t[i]);
            }
        }
    }
}

proof fn lemma_sort_by_path_sorted(s: Seq<FsTree>)
    ensures
        sorted_by_path(sort_by_path(s)),
    decreases s.len(),
{
    if s.len() == 0 {
    } else {
        lemma_sort_by_path_sorted(s.drop_last());
        lemma_insert_sorted_sorted(s.last(), sort_by_path(s.drop_last()));
    }
}

/// The siblings shown under a directory always stand in lexicographic
/// order of their full paths.
pub proof fn lemma_siblings_sorted(s: Seq<FsTree>, pats: Option<Seq<Seq<char>>>)
    ensures
        sorted_by_path(kept_sorted(s, pats)),
{
    lemma_sort_by_path_sorted(kept(s, pats));
}

proof fn lemma_insert_sorted_complete(x: FsTree, s: Seq<FsTree>)
    ensures
        insert_sorted(x, s).contains(x),
        forall|e: FsTree| s.contains(e) ==> insert_sorted(x, s).contains(e),
    decreases s.len(),
{
    if s.len() == 0 {
        assert(insert_sorted(x, s)[0] == x);
    } else if lex_le(x.path@, s[0].path@) {
        assert(insert_sorted(x, s)[0] == x);
        assert forall|e: FsTree| s.contains(e) implies insert_sorted(x, s).contains(e) by {
            let j = choose|j: int| 0 <= j < s.len() && s[j] == e;
            assert(insert_sorted(x, s)[j + 1] == e);
        }
    } else {
        lemma_insert_sorted_complete(x, s.drop_first());
        let t = insert_sorted(x, s.drop_first());
        let j = choose|j: int| 0 <= j < t.len() && t[j] == x;
        assert(insert_sorted(x, s)[j + 1] == x);
        assert forall|e: FsTree| s.contains(e) implies insert_sorted(x, s).contains(e) by {
            let i = choose|i: int| 0 <= i < s.len() && s[i] == e;
            if i == 0 {
                assert(insert_sorted(x, s)[0] == e);
            } else {
                assert(s.drop_first()[i - 1] == e);
                assert(s.drop_first().contains(e));
                let jj = choose|jj: int| 0 <= jj < t.len() && t[jj] == e;
                assert(insert_sorted(x, s)[jj + 1] == e);
            }
        }
    }
}

proof fn lemma_sort_by_path_complete(s: Seq<FsTree>)
    ensures
        forall|e: FsTree| s.contains(e) ==> sort_by_path(s).contains(e),
    decreases s.len(),
{
    if s.len() == 0 {
    } else {
        lemma_sort_by_path_complete(s.drop_last());
        lemma_insert_sorted_complete(s.last(), sort_by_path(s.drop_last()));
        assert forall|e: FsTree| s.contains(e) implies sort_by_path(s).contains(e) by {
            let i = choose|i: int| 0 <= i < s.len() && s[i] == e;
            if i == s.len() - 1 {
                assert(e == s.last());
            } else {
                assert(s.drop_last()[i] == e);
                assert(s.drop_last().contains(e));
            }
        }
    }
}

proof fn lemma_kept_complete(s: Seq<FsTree>, pats: Option<Seq<Seq<char>>>)
    ensures
        forall|e: FsTree|
            s.contains(e) && !spec_should_ignore(e.path@, pats) ==> kept(s, pats).contains(e),
    decreases s.len(),
{
    if s.len() == 0 {
    } else {
        lemma_kept_complete(s.drop_last(), pats);
        assert forall|e: FsTree|
            s.contains(e) && !spec_should_ignore(e.path@, pats) implies kept(s, pats).contains(
            e,
        ) by {
            let i = choose|i: int| 0 <= i < s.len() && s[i] == e;
            if i < s.len() - 1 {
                assert(s.drop_last()[i] == e);
                assert(s.drop_last().contains(e));
                let j = choose|j: int|
                    0 <= j < kept(s.drop_last(), pats).len() && kept(s.drop_last(), pats)[j] == e;
                assert(kept(s, pats)[j] == e);
            } else {
                assert(e == s.last());
                assert(kept(s, pats)[kept(s, pats).len() - 1] == e);
            }
        }
    }
}

/// Every child that is not ignored appears among the siblings shown
/// under its directory; together with `lemma_kept_sorted_membership`,
/// the diagram and the filter agree on exactly which entries exist.
pub proof fn lemma_kept_sorted_complete(s: Seq<FsTree>, pats: Option<Seq<Seq<char>>>)
    ensures
        forall|e: FsTree|
            s.contains(e) && !spec_should_ignore(e.path@, pats) ==> kept_sorted(
                s,
                pats,
            ).contains(e),
{
    lemma_kept_complete(s, pats);
    lemma_sort_by_path_complete(kept(s, pats));
}

/// The diagram for a node: nothing when the node is ignored; otherwise
/// its own line followed by the diagrams of its surviving children in
/// path-sorted order, each with the extended prefix.
pub open spec fn spec_render(
    t: FsTree,
    prefix: Seq<char>,
    is_last: bool,
    pats: Option<Seq<Seq<char>>>,
) -> Seq<char>
    decreases t, 1int, 0int,
{
    if spec_should_ignore(t.path@, pats) {
        Seq::empty()
    } else {
        line_of(prefix, is_last, spec_file_name(t.path@)) + (if t.is_dir {
            spec_render_from(t, 0, prefix + prefix_extension(is_last), pats)
        } else {
            Seq::<char>::empty()
        })
    }
}

/// The diagrams of the surviving children of `t` from position `k` on;
/// the last sibling is flagged as last.
pub open spec fn spec_render_from(
    t: FsTree,
    k: int,
    prefix: Seq<char>,
    pats: Option<Seq<Seq<char>>>,
) -> Seq<char>
    decreases t, 0int, kept_sorted(t.children@, pats).len() - k,
    when 0 <= k
    via spec_render_from_decreases
{
    let cs = kept_sorted(t.children@, pats);
    if k >= cs.len() {
        Seq::empty()
    } else {
        spec_render(cs[k], prefix, k == cs.len() - 1, pats) + spec_render_from(
            t,
            k + 1,
            prefix,
            pats,
        )
    }
}

#[via_fn]
proof fn spec_render_from_decreases(
    t: FsTree,
    k: int,
    prefix: Seq<char>,
    pats: Option<Seq<Seq<char>>>,
) {
    let cs = kept_sorted(t.children@, pats);
    if 0 <= k < cs.len() {
        lemma_kept_sorted_membership(t.children@, pats);
        assert(t.children@.contains(cs[k]));
        let j = choose|j: int| 0 <= j < t.children@.len() && t.children@[j] == cs[k];
        assert(decreases_to!(t => t.children));
        assert(decreases_to!(t.children => t.children@[j]));
        assert(decreases_to!(t => cs[k]));
    }
}

/// Where `insert_sorted` puts the new node: at the first position whose
/// node's path the new node's path does not strictly follow.
proof fn lemma_insert_sorted_at(x: FsTree, s: Seq<FsTree>, j: int)
    requires
        0 <= j <= s.len(),
        forall|k: int| 0 <= k < j ==> !lex_le(x.path@, s[k].path@),
        j < s.len() ==> lex_le(x.path@, s[j].path@),
    ensures
        insert_sorted(x, s) == s.take(j) + seq![x] + s.skip(j),
    decreases j,
{
    if j == 0 {
        if s.len() == 0 {
            assert(insert_sorted(x, s) =~= s.take(0) + seq![x] + s.skip(0));
        } else {
            assert(seq![x] + s =~= s.take(0) + seq![x] + s.skip(0));
        }
    } else {
        assert(!lex_le(x.path@, s[0].path@));
        let df = s.drop_first();
        assert forall|k: int| 0 <= k < j - 1 implies !lex_le(x.path@, df[k].path@) by {
            assert(df[k] == s[k + 1]);
        }
        assert(j - 1 < df.len() ==> lex_le(x.path@, df[j - 1].path@));
        lemma_insert_sorted_at(x, df, j - 1);
        assert(seq![s[0]] + (df.take(j - 1) + seq![x] + df.skip(j - 1)) =~= s.take(j) + seq![x]
            + s.skip(j));
    }
}

/// Keeps the children that pass the filter, in their original order.
fn filter_children(children: Vec<FsTree>, ignore_list: &Option<Vec<String>>) -> (r: Vec<FsTree>)
    ensures
        r@ == kept(children@, patterns_of(*ignore_list)),
{
    let ghost s0 = children@;
    let ghost pats = patterns_of(*ignore_list);
    let mut rest = children;
    let mut out: Vec<FsTree> = Vec::new();
    let ghost mut k: int = 0;
    proof {
        assert(s0.take(0) =~= Seq::<FsTree>::empty());
        assert(s0.skip(0) =~= s0);
        assert(out@ =~= kept(s0.take(0), pats));
    }
    while rest.len() > 0
        invariant
            pats == patterns_of(*ignore_list),
            0 <= k,
            s0.len() == k + rest@.len(),
            rest@ == s0.skip(k),
            out@ == kept(s0.take(k), pats),
        decreases rest@.len(),
    {
        let x = rest.remove(0);
        proof {
            assert(x == s0[k]);
            assert(rest@ =~= s0.skip(k + 1));
            let t = s0.take(k + 1);
            assert(t.drop_last() =~= s0.take(k));
            assert(t.last() == s0[k]);
        }
        let ghost old_out = out@;
        if !should_ignore(x.path.as_str(), ignore_list) {
            out.push(x);
            proof {
                assert(out@ =~= old_out + seq![s0[k]]);
                assert(out@ =~= kept(s0.take(k + 1), pats));
            }
        } else {
            proof {
                assert(out@ =~= kept(s0.take(k + 1), pats));
            }
        }
        proof {
            k = k + 1;
        }
    }
    proof {
        assert(s0.take(s0.len() as int) =~= s0);
    }
    out
}

/// Inserts a node into a path-sorted vector, keeping it sorted.
fn insert_child(v: Vec<FsTree>, x: FsTree) -> (r: Vec<FsTree>)
    ensures
        r@ == insert_sorted(x, v@),
{
    let mut v = v;
    let n = v.len();
    let mut j: usize = 0;
    while j < n
        invariant
            n == v@.len(),
            j <= n,
            forall|k: int| 0 <= k < j ==> !lex_le(x.path@, v@[k].path@),
        ensures
            j <= n,
            forall|k: int| 0 <= k < j ==> !lex_le(x.path@, v@[k].path@),
            j < n ==> lex_le(x.path@, v@[j as int].path@),
        decreases n - j,
    {
        if str_le(x.path.as_str(), v[j].path.as_str()) {
            break ;
        }
        j += 1;
    }
    proof {
        lemma_insert_sorted_at(x, v@, j as int);
    }
    let ghost before = v@;
    v.insert(j, x);
    proof {
        assert(v@ =~= before.take(j as int) + seq![x] + before.skip(j as int));
    }
    v
}

/// Sorts a vector of nodes by full path.
fn sort_children(v: Vec<FsTree>) -> (r: Vec<FsTree>)
    ensures
        r@ == sort_by_path(v@),
{
    let ghost s0 = v@;
    let mut rest = v;
    let mut acc: Vec<FsTree> = Vec::new();
    let ghost mut k: int = 0;
    proof {
        assert(s0.take(0) =~= Seq::<FsTree>::empty());
        assert(s0.skip(0) =~= s0);
    }
    while rest.len() > 0
        invariant
            0 <= k,
            s0.len() == k + rest@.len(),
            rest@ == s0.skip(k),
            acc@ == sort_by_path(s0.take(k)),
        decreases rest@.len(),
    {
        let x = rest.remove(0);
        proof {
            assert(x == s0[k]);
            assert(rest@ =~= s0.skip(k + 1));
        }
        acc = insert_child(acc, x);
        proof {
            let t = s0.take(k + 1);
            assert(t.drop_last() =~= s0.take(k));
            assert(t.last() == s0[k]);
        }
        proof {
            k = k + 1;
        }
    }
    proof {
        assert(s0.take(s0.len() as int) =~= s0);
    }
    acc
}

/// Renders the tree diagram for `t` into `out`: appends exactly the
/// diagram that `spec_render` describes, and nothing when `t` itself is
/// ignored.
#[verifier::loop_isolation(false)]
pub fn render_tree(
    t: FsTree,
    prefix: &str,
    is_last: bool,
    ignore_list: &Option<Vec<String>>,
    out: &mut String,
)
    ensures
        final(out)@ == old(out)@ + spec_render(t, prefix@, is_last, patterns_of(*ignore_list)),
    decreases t,
{
    let ghost t0 = t;
    let ghost pats = patterns_of(*ignore_list);
    let ghost base = out@;
    if should_ignore(t.path.as_str(), ignore_list) {
        proof {
            assert(out@ =~= base + spec_render(t0, prefix@, is_last, pats));
        }
        return ;
    }
    let FsTree { path, is_dir, children } = t;
    let ghost line = line_of(prefix@, is_last, spec_file_name(path@));
    out.append(prefix);
    if is_last {
        out.append("└── ");
    } else {
        out.append("├── ");
    }
    let name = file_name(path.as_str());
    out.append(name.as_str());
    out.append("\n");
    proof {
        assert(out@ =~= base + line);
    }
    if is_dir {
        let kept_vec = filter_children(children, ignore_list);
        let sorted = sort_children(kept_vec);
        let ghost cs = kept_sorted(t0.children@, pats);
        let ghost n = cs.len();
        let mut child_prefix = prefix.to_owned();
        if is_last {
            child_prefix.append("    ");
        } else {
            child_prefix.append("│   ");
        }
        let ghost cp = child_prefix@;
        proof {
            assert(cp == prefix@ + prefix_extension(is_last));
            assert(sorted@ == cs);
            assert(cs.skip(0) =~= cs);
            assert(spec_render(t0, prefix@, is_last, pats) == line + spec_render_from(
                t0,
                0,
                cp,
                pats,
            ));
            assert(out@ + spec_render_from(t0, 0, cp, pats) =~= base + spec_render(
                t0,
                prefix@,
                is_last,
                pats,
            ));
        }
        let mut rest = sorted;
        let ghost mut k: int = 0;
        while rest.len() > 0
            invariant
                n == cs.len(),
                cs == kept_sorted(t0.children@, pats),
                pats == patterns_of(*ignore_list),
                cp == child_prefix@,
                0 <= k,
                k + rest@.len() == n,
                rest@ == cs.skip(k),
                out@ + spec_render_from(t0, k, cp, pats) == base + spec_render(
                    t0,
                    prefix@,
                    is_last,
                    pats,
                ),
            decreases rest@.len(),
        {
            let c = rest.remove(0);
            proof {
                assert(c == cs[k]);
                assert(rest@ =~= cs.skip(k + 1));
                lemma_kept_sorted_membership(t0.children@, pats);
                assert(t0.children@.contains(cs[k]));
                let j = choose|j: int|
                    0 <= j < t0.children@.len() && t0.children@[j] == cs[k];
                assert(decreases_to!(t0 => t0.children));
                assert(decreases_to!(t0.children => t0.children@[j]));
                assert(decreases_to!(t0 => c));
            }
            let last_child = rest.len() == 0;
            let ghost out_before = out@;
            render_tree(c, child_prefix.as_str(), last_child, ignore_list, out);
            proof {
                assert(last_child == (k == n - 1));
                assert(spec_render_from(t0, k, cp, pats) == spec_render(
                    cs[k],
                    cp,
                    k == n - 1,
                    pats,
                ) + spec_render_from(t0, k + 1, cp, pats));
                assert(out@ + spec_render_from(t0, k + 1, cp, pats) =~= out_before
                    + spec_render_from(t0, k, cp, pats));
            }
            proof {
                k = k + 1;
            }
        }
        proof {
            assert(spec_render_from(t0, k, cp, pats) =~= Seq::<char>::empty());
            assert(out@ =~= out@ + Seq::<char>::empty());
        }
    } else {
        proof {
            assert(spec_render(t0, prefix@, is_last, pats) =~= line);
            assert(out@ =~= base + spec_render(t0, prefix@, is_last, pats));
        }
    }
}

/// An ignored node renders nothing: it is absent from the diagram.
pub proof fn lemma_ignored_node_absent(
    t: FsTree,
    prefix: Seq<char>,
    is_last: bool,
    pats: Option<Seq<Seq<char>>>,
)
    requires
        spec_should_ignore(t.path@, pats),
    ensures
        spec_render(t, prefix, is_last, pats) == Seq::<char>::empty(),
{
}

/// A node that is not ignored is present in the diagram: its rendering
/// begins with its own line, whose branch marker is decided by its
/// last-sibling flag.
pub proof fn lemma_surviving_node_line(
    t: FsTree,
    prefix: Seq<char>,
    is_last: bool,
    pats: Option<Seq<Seq<char>>>,
)
    requires
        !spec_should_ignore(t.path@, pats),
    ensures
        spec_render(t, prefix, is_last, pats).len() >= line_of(
            prefix,
            is_last,
            spec_file_name(t.path@),
        ).len(),
        spec_render(t, prefix, is_last, pats).subrange(
            0,
            line_of(prefix, is_last, spec_file_name(t.path@)).len() as int,
        ) == line_of(prefix, is_last, spec_file_name(t.path@)),
        contains_substr(
            spec_render(t, prefix, is_last, pats),
            line_of(prefix, is_last, spec_file_name(t.path@)),
        ),
{
    let line = line_of(prefix, is_last, spec_file_name(t.path@));
    let rest = if t.is_dir {
        spec_render_from(t, 0, prefix + prefix_extension(is_last), pats)
    } else {
        Seq::<char>::empty()
    };
    assert(spec_render(t, prefix, is_last, pats) == line + rest);
    assert((line + rest).subrange(0, line.len() as int) =~= line);
    lemma_prefix_contains(spec_render(t, prefix, is_last, pats), line);
}

proof fn lemma_render_from_line(
    t: FsTree,
    k0: int,
    k: int,
    prefix: Seq<char>,
    pats: Option<Seq<Seq<char>>>,
)
    requires
        0 <= k0 <= k < kept_sorted(t.children@, pats).len(),
    ensures
        contains_substr(
            spec_render_from(t, k0, prefix, pats),
            line_of(
                prefix,
                k == kept_sorted(t.children@, pats).len() - 1,
                spec_file_name(kept_sorted(t.children@, pats)[k].path@),
            ),
        ),
    decreases k - k0,
{
    let cs = kept_sorted(t.children@, pats);
    let line = line_of(prefix, k == cs.len() - 1, spec_file_name(cs[k].path@));
    lemma_kept_sorted_membership(t.children@, pats);
    if k0 == k {
        lemma_surviving_node_line(cs[k], prefix, k == cs.len() - 1, pats);
        lemma_contains_substr_concat_left(
            spec_render(cs[k], prefix, k == cs.len() - 1, pats),
            spec_render_from(t, k + 1, prefix, pats),
            line,
        );
    } else {
        lemma_render_from_line(t, k0 + 1, k, prefix, pats);
        lemma_contains_substr_concat_right(
            spec_render(cs[k0], prefix, k0 == cs.len() - 1, pats),
            spec_render_from(t, k0 + 1, prefix, pats),
            line,
        );
    }
}

/// Under a directory that is shown, the line of the sibling at
/// position `k` occurs in the diagram: it carries the extended prefix,
/// and its branch marker says whether it is the last sibling.
pub proof fn lemma_child_line_shown(
    t: FsTree,
    prefix: Seq<char>,
    is_last: bool,
    pats: Option<Seq<Seq<char>>>,
    k: int,
)
    requires
        !spec_should_ignore(t.path@, pats),
        t.is_dir,
        0 <= k < kept_sorted(t.children@, pats).len(),
    ensures
        contains_substr(
            spec_render(t, prefix, is_last, pats),
            line_of(
                prefix + prefix_extension(is_last),
                k == kept_sorted(t.children@, pats).len() - 1,
                spec_file_name(kept_sorted(t.children@, pats)[k].path@),
            ),
        ),
{
    let cp = prefix + prefix_extension(is_last);
    let cs = kept_sorted(t.children@, pats);
    let line = line_of(cp, k == cs.len() - 1, spec_file_name(cs[k].path@));
    lemma_render_from_line(t, 0, k, cp, pats);
    assert(spec_render(t, prefix, is_last, pats) == line_of(
        prefix,
        is_last,
        spec_file_name(t.path@),
    ) + spec_render_from(t, 0, cp, pats));
    lemma_contains_substr_concat_right(
        line_of(prefix, is_last, spec_file_name(t.path@)),
        spec_render_from(t, 0, cp, pats),
        line,
    );
}

} // verus!
