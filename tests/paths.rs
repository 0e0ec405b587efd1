use std::path::PathBuf;

use noodles::paths::{build_index_src, push_ext};

#[test]
fn test_build_index_src() {
    assert_eq!(
        PathBuf::from(build_index_src("sample.cram")),
        PathBuf::from("sample.cram.crai")
    );
}

#[test]
fn push_ext_appends_dot_and_extension() {
    assert_eq!(push_ext("a/b", "bai"), "a/b.bai");
}
