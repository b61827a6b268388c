use bzip2_pipeline::names::{compressed_file_name, decompressed_file_name};

#[test]
fn compressed_name_appends_suffix() {
    assert_eq!(compressed_file_name("data.txt"), "data.txt.bz2");
    assert_eq!(compressed_file_name(""), ".bz2");
}

#[test]
fn decompressed_name_drops_last_four_bytes() {
    assert_eq!(decompressed_file_name("data.txt.bz2"), "data.txt");
    assert_eq!(decompressed_file_name(".bz2"), "");
    assert_eq!(decompressed_file_name("abcdefg"), "abc");
}
