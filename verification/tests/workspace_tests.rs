use gitignore_ls::buffer::{Edit, EditRange, Position};
use gitignore_ls::error::CoreError;
use gitignore_ls::file::File;
use gitignore_ls::workspace::Workspace;

#[test]
fn it_can_add_and_remove_files() {
    let mut workspace = Workspace::new();

    assert_eq!(workspace.len(), 0);

    let urls = vec!["file:///a".to_string(), "file:///b".to_string()];

    workspace.add_file(File::new(urls[0].clone(), "content".to_string()));
    workspace.add_file(File::new(urls[1].clone(), "content".to_string()));

    assert_eq!(workspace.len(), 2);

    workspace.remove_file(&urls[1]);

    assert_eq!(workspace.len(), 1);
}

#[test]
fn open_and_close_track_documents() {
    let mut workspace = Workspace::new();
    let url = "file:///proj/.gitignore".to_string();
    workspace.open(url.clone(), "target/\n".to_string());
    assert!(workspace.get(&url).is_some());

    // Re-opening replaces rather than duplicates.
    workspace.open(url.clone(), "dist/\n".to_string());
    assert_eq!(workspace.len(), 1);
    let file = workspace.get(&url).unwrap();
    assert_eq!(file.get_line_content(0).unwrap(), "dist/\n");

    workspace.close(&url);
    assert!(workspace.get(&url).is_none());
    assert_eq!(workspace.len(), 0);
}

#[test]
fn changes_to_unknown_document_are_rejected() {
    let mut workspace = Workspace::new();
    let edits = vec![Edit {
        range: None,
        text: "anything".to_string(),
    }];
    let err = workspace
        .apply_changes(&"file:///never".to_string(), &edits)
        .unwrap_err();
    assert!(matches!(err, CoreError::DocumentNotFound));
}

#[test]
fn changes_apply_in_order() {
    let mut workspace = Workspace::new();
    let url = "file:///a".to_string();
    workspace.open(url.clone(), "abc".to_string());

    let edits = vec![
        Edit {
            range: Some(EditRange {
                start: Position { line: 0, character: 1 },
                end: Position { line: 0, character: 2 },
            }),
            text: "XY".to_string(),
        },
        Edit {
            range: Some(EditRange {
                start: Position { line: 0, character: 0 },
                end: Position { line: 0, character: 1 },
            }),
            text: "".to_string(),
        },
    ];
    workspace.apply_changes(&url, &edits).unwrap();
    let file = workspace.get(&url).unwrap();
    assert_eq!(file.get_line_content(0).unwrap(), "XYc");
}

#[test]
fn malformed_change_stops_the_batch() {
    let mut workspace = Workspace::new();
    let url = "file:///a".to_string();
    workspace.open(url.clone(), "abc".to_string());

    let edits = vec![
        Edit {
            range: None,
            text: "replaced".to_string(),
        },
        Edit {
            range: Some(EditRange {
                start: Position { line: 7, character: 0 },
                end: Position { line: 7, character: 0 },
            }),
            text: "x".to_string(),
        },
    ];
    let err = workspace.apply_changes(&url, &edits).unwrap_err();
    assert!(matches!(err, CoreError::MalformedEdit));
    // The edits before the malformed one remain applied.
    let file = workspace.get(&url).unwrap();
    assert_eq!(file.get_line_content(0).unwrap(), "replaced");
}
