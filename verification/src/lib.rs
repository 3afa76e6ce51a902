//! Bundles a directory tree into a single text artifact: an ASCII tree
//! diagram of the directory structure followed by the concatenated
//! contents of every contained file, each prefixed with its relative
//! path. Paths whose textual form contains one of the configured ignore
//! substrings are excluded from both sections by the same rule.

use vstd::prelude::*;

pub mod dump;
pub mod filter;
pub mod paths;
pub mod tree;

use crate::dump::{content_section, spec_blocks, FileEntry};
use crate::filter::patterns_of;
use crate::tree::{render_tree, spec_render, FsTree};

verus! {

/// The complete output artifact: the tree diagram section followed by
/// the file-contents section.
pub open spec fn spec_output(
    tree: FsTree,
    files: Seq<FileEntry>,
    pats: Option<Seq<Seq<char>>>,
) -> Seq<char> {
    "Directory Structure:\n\n"@ + spec_render(tree, Seq::empty(), true, pats)
        + "\nFile Contents:\n\n"@ + spec_blocks(files)
}

/// Renders the whole artifact: the diagram of `tree` (rendered as a
/// last sibling with an empty prefix) and then one block per file
/// entry.
pub fn combine_output(
    tree: FsTree,
    files: &Vec<FileEntry>,
    ignore_list: &Option<Vec<String>>,
) -> (out: String)
    ensures
        out@ == spec_output(tree, files@, patterns_of(*ignore_list)),
{
    let ghost tree0 = tree;
    let mut out = String::new();
    out.append("Directory Structure:\n\n");
    proof {
        reveal_strlit("");
        assert(""@ =~= Seq::<char>::empty());
    }
    render_tree(tree, "", true, ignore_list, &mut out);
    out.append("\nFile Contents:\n\n");
    let blocks = content_section(files);
    out.append(blocks.as_str());
    proof {
        assert(out@ =~= spec_output(tree0, files@, patterns_of(*ignore_list)));
    }
    out
}

} // verus!
