use gitignore_ls::error::CoreError;
use gitignore_ls::file::File;

#[test]
fn it_can_get_line_content() {
    let url = "file:///a".to_string();
    let content = "First line\nSecond line\nThird line".to_string();

    let file = File::new(url, content);

    let line_content = file.get_line_content(1).unwrap();
    assert_eq!(line_content, "Second line\n");
}

#[test]
fn it_can_get_path() {
    let url = "file:///Users/me/file".to_string();
    let file = File::new(url, "".to_string());

    let path = file.path().unwrap();
    assert_eq!(path, "/Users/me/file");
}

#[test]
fn it_can_get_strange_windows_path() {
    let url = "file:///c%3A/Users/me/folder\\subfolder\\filename".to_string();
    let file = File::new(url, "content".to_string());

    assert_eq!(
        file.path().unwrap(),
        "/c:/Users/me/folder/subfolder/filename"
    );
}

#[test]
fn it_can_get_directory() {
    let url = "file:///Users/me/file".to_string();
    let file = File::new(url, "".to_string());

    let directory = file.directory().unwrap();
    assert_eq!(directory, "/Users/me");
}

#[test]
fn directory_of_root_is_missing() {
    let file = File::new("file:///".to_string(), "".to_string());
    let err = file.directory().unwrap_err();
    assert!(matches!(err, CoreError::NoOriginDirectory));
}

#[test]
fn directory_one_level_down_is_root() {
    let file = File::new("file:///top".to_string(), "".to_string());
    assert_eq!(file.directory().unwrap(), "/");
}

#[test]
fn undecodable_identifier_has_no_origin() {
    // `%FF` decodes to a byte that is not well-formed text on its own.
    let file = File::new("file:///bad%FFname/x".to_string(), "".to_string());
    let err = file.path().unwrap_err();
    assert!(matches!(err, CoreError::NoOriginDirectory));
}

#[test]
fn line_out_of_range_is_reported() {
    let file = File::new("file:///a".to_string(), "only line".to_string());
    let err = file.get_line_content(5).unwrap_err();
    assert!(matches!(err, CoreError::LineOutOfRange));
}
