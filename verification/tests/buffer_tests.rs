use gitignore_ls::buffer::{Edit, EditRange, Position, TextBuffer};
use gitignore_ls::error::CoreError;

fn ranged(sl: u32, sc: u32, el: u32, ec: u32, text: &str) -> Edit {
    Edit {
        range: Some(EditRange {
            start: Position {
                line: sl,
                character: sc,
            },
            end: Position {
                line: el,
                character: ec,
            },
        }),
        text: text.to_string(),
    }
}

#[test]
fn full_replace_ignores_prior_content() {
    // A rangeless edit yields exactly its text, whatever stood before.
    let mut a = TextBuffer::create("some\nold\ncontent");
    let mut b = TextBuffer::create("");
    let edit = Edit {
        range: None,
        text: "T".to_string(),
    };
    a.apply_edit(&edit).unwrap();
    b.apply_edit(&edit).unwrap();
    assert_eq!(a.content(), "T");
    assert_eq!(b.content(), "T");
}

#[test]
fn edits_compose_against_the_intermediate_text() {
    let mut buffer = TextBuffer::create("ab\ncd");
    buffer.apply_edit(&ranged(0, 1, 0, 2, "xy")).unwrap();
    assert_eq!(buffer.content(), "axy\ncd");
    // The second edit's coordinates address the post-first text.
    buffer.apply_edit(&ranged(1, 0, 1, 1, "z")).unwrap();
    assert_eq!(buffer.content(), "axy\nzd");
}

#[test]
fn line_contents_concatenate_to_the_text() {
    let text = "First line\nSecond line\nThird line";
    let buffer = TextBuffer::create(text);
    let mut rebuilt = String::new();
    for i in 0..3 {
        rebuilt.push_str(&buffer.line_content(i).unwrap());
    }
    assert_eq!(rebuilt, text);
}

#[test]
fn line_contents_concatenate_with_trailing_terminator() {
    // A text ending in a line feed has an empty last line.
    let text = "a\nb\n";
    let buffer = TextBuffer::create(text);
    let mut rebuilt = String::new();
    for i in 0..3 {
        rebuilt.push_str(&buffer.line_content(i).unwrap());
    }
    assert_eq!(rebuilt, text);
    assert_eq!(buffer.line_content(2).unwrap(), "");
}

#[test]
fn empty_buffer_has_one_empty_line() {
    let buffer = TextBuffer::create("");
    assert_eq!(buffer.line_content(0).unwrap(), "");
    assert!(matches!(
        buffer.line_content(1),
        Err(CoreError::LineOutOfRange)
    ));
}

#[test]
fn insertion_at_a_position_keeps_the_rest() {
    let mut buffer = TextBuffer::create("hello\nworld");
    buffer.apply_edit(&ranged(1, 0, 1, 0, "big ")).unwrap();
    assert_eq!(buffer.content(), "hello\nbig world");
}

#[test]
fn deletion_across_lines_joins_them() {
    let mut buffer = TextBuffer::create("hello\nworld");
    buffer.apply_edit(&ranged(0, 5, 1, 0, "")).unwrap();
    assert_eq!(buffer.content(), "helloworld");
}

#[test]
fn malformed_range_leaves_buffer_unchanged() {
    let mut buffer = TextBuffer::create("ab");
    let err = buffer.apply_edit(&ranged(5, 0, 5, 0, "x")).unwrap_err();
    assert!(matches!(err, CoreError::MalformedEdit));
    assert_eq!(buffer.content(), "ab");

    // A column beyond the line is malformed too.
    let err = buffer.apply_edit(&ranged(0, 9, 0, 9, "x")).unwrap_err();
    assert!(matches!(err, CoreError::MalformedEdit));
    assert_eq!(buffer.content(), "ab");

    // So is an end that precedes its start.
    let err = buffer.apply_edit(&ranged(0, 2, 0, 1, "x")).unwrap_err();
    assert!(matches!(err, CoreError::MalformedEdit));
    assert_eq!(buffer.content(), "ab");
}

#[test]
fn error_messages_name_their_cause() {
    let unavailable = CoreError::DirectoryUnavailable("permission denied".to_string());
    assert_eq!(
        unavailable.message(),
        "the directory cannot be listed: permission denied"
    );
    assert!(!CoreError::DocumentNotFound.message().is_empty());
    assert!(!CoreError::MalformedEdit.message().is_empty());
    assert!(!CoreError::LineOutOfRange.message().is_empty());
    assert!(!CoreError::NoOriginDirectory.message().is_empty());
}
