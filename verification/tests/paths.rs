use docxtools::file_util::FileUtil;
use std::path::Path;

#[test]
fn test_get_sub_path() {
    let p = Path::new("/some/where/on/the/rainbow.docx");
    let b = "/some/where/on/";
    assert_eq!(
        FileUtil::normalize_path("the/rainbow.docx"),
        FileUtil::get_sub_path(&p.to_string_lossy(), b)
    );
}

#[test]
fn test_get_sub_path1() {
    let p = Path::new("/some/where/on/the/rainbow.docx");
    let b = "/some/where/on";
    assert_eq!(
        FileUtil::normalize_path("the/rainbow.docx"),
        FileUtil::get_sub_path(&p.to_string_lossy(), b)
    );
}

#[test]
fn test_get_sub_path2() {
    let b = "/some/where/on/";
    let p = Path::new("/elsewhere/cloud.docx");
    assert_eq!(
        FileUtil::normalize_path("/elsewhere/cloud.docx"),
        FileUtil::get_sub_path(&p.to_string_lossy(), b)
    );
}
