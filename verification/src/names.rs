//! The names of the files that a run writes.

use vstd::prelude::*;
use vstd::string::{StringExecFns, StringSliceAdditionalSpecFns};
use vstd::utf8::is_char_boundary;

verus! {

/// The suffix of a compressed file.
pub open spec fn compressed_suffix() -> Seq<char> {
    seq!['.', 'b', 'z', '2']
}

/// The suffix is the four characters '.', 'b', 'z', '2'.
pub proof fn lemma_compressed_suffix()
    ensures
        compressed_suffix() == ".bz2"@,
        compressed_suffix().len() == 4,
        compressed_suffix()[0] == '.' && compressed_suffix()[1] == 'b' && compressed_suffix()[2]
            == 'z' && compressed_suffix()[3] == '2',
{
    reveal_strlit(".bz2");
    assert(compressed_suffix() =~= ".bz2"@);
}

/// The name of the file that compressing `file_name` writes: the name with
/// ".bz2" appended.
pub fn compressed_file_name(file_name: &str) -> (r: String)
    ensures
        r@ == file_name@ + compressed_suffix(),
        r@ == file_name@ + ".bz2"@,
        r@.len() == file_name@.len() + 4,
{
    let mut r = file_name.to_owned();
    let suffix = ".bz2";
    proof {
        reveal_strlit(".bz2");
        assert(suffix@ =~= compressed_suffix());
    }
    r.append(suffix);
    proof {
        lemma_compressed_suffix();
    }
    r
}

/// The name of the file that decompressing `file_name` writes: the name
/// without its last four bytes (its ".bz2").
pub fn decompressed_file_name(file_name: &str) -> (r: &str)
    requires
        4 <= file_name.spec_bytes().len() <= usize::MAX,
        is_char_boundary(file_name.spec_bytes(), file_name.spec_bytes().len() - 4),
    ensures
        r.spec_bytes() == file_name.spec_bytes().subrange(0, file_name.spec_bytes().len() - 4),
{
    let cut = file_name.len() - 4;
    file_name.split_at(cut).0
}

} // verus!
