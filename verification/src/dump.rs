//! The file-contents section: each surviving file contributes one
//! block, its relative path between `===` markers followed by its full
//! text.

use vstd::prelude::*;
use crate::filter::{
    contains_substr, lemma_contains_substr_concat_left, lemma_contains_substr_concat_right,
    lemma_contains_substr_self,
};

verus! {

/// A file to dump: its path relative to the root and its full text.
pub struct FileEntry {
    pub rel_path: String,
    pub contents: String,
}

/// The block emitted for one file.
pub open spec fn spec_block(rel: Seq<char>, body: Seq<char>) -> Seq<char> {
    "=== "@ + rel + " ===\n\n"@ + body + "\n\n"@
}

/// The whole contents section: the files' blocks in order.
pub open spec fn spec_blocks(files: Seq<FileEntry>) -> Seq<char>
    decreases files.len(),
{
    if files.len() == 0 {
        Seq::empty()
    } else {
        spec_blocks(files.drop_last()) + spec_block(
            files.last().rel_path@,
            files.last().contents@,
        )
    }
}

/// Every file entry's block occurs in the contents section.
pub proof fn lemma_block_present(files: Seq<FileEntry>, i: int)
    requires
        0 <= i < files.len(),
    ensures
        contains_substr(
            spec_blocks(files),
            spec_block(files[i].rel_path@, files[i].contents@),
        ),
    decreases files.len(),
{
    let block = spec_block(files[i].rel_path@, files[i].contents@);
    let last_block = spec_block(files.last().rel_path@, files.last().contents@);
    if i == files.len() - 1 {
        lemma_contains_substr_self(block);
        lemma_contains_substr_concat_right(spec_blocks(files.drop_last()), block, block);
    } else {
        assert(files.drop_last()[i] == files[i]);
        lemma_block_present(files.drop_last(), i);
        lemma_contains_substr_concat_left(spec_blocks(files.drop_last()), last_block, block);
    }
}

/// Renders the contents section: exactly one block per entry, in the
/// order the entries are given.
pub fn content_section(files: &Vec<FileEntry>) -> (out: String)
    ensures
        out@ == spec_blocks(files@),
{
    let mut out = String::new();
    let mut i: usize = 0;
    proof {
        assert(files@.take(0) =~= Seq::<FileEntry>::empty());
    }
    while i < files.len()
        invariant
            i <= files@.len(),
            out@ == spec_blocks(files@.take(i as int)),
        decreases files@.len() - i,
    {
        out.append("=== ");
        out.append(files[i].rel_path.as_str());
        out.append(" ===\n\n");
        out.append(files[i].contents.as_str());
        out.append("\n\n");
        proof {
            let t = files@.take(i + 1);
            assert(t.drop_last() =~= files@.take(i as int));
            assert(t.last() == files@[i as int]);
            assert(out@ =~= spec_blocks(t));
        }
        i += 1;
    }
    proof {
        assert(files@.take(files@.len() as int) =~= files@);
    }
    out
}

} // verus!
