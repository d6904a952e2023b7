use gitignore_ls::completion::{CompletionModule, DirEntryInfo};
use gitignore_ls::error::CoreError;
use gitignore_ls::workspace::Workspace;

fn entry(name: &str, is_dir: bool) -> DirEntryInfo {
    DirEntryInfo {
        name: name.to_string(),
        is_dir,
    }
}

#[test]
fn hidden_entries_need_a_dotted_fragment() {
    let module = CompletionModule::default();
    let dir = "/proj".to_string();
    let entries = vec![entry(".env", false), entry("config.json", false)];

    let plain = module.completion_items_for_paths(&entries, &dir, &"".to_string());
    assert_eq!(plain.len(), 1);
    assert_eq!(plain[0].label, "config.json");

    let dotted = module.completion_items_for_paths(&entries, &dir, &".e".to_string());
    assert_eq!(dotted.len(), 1);
    assert_eq!(dotted[0].label, ".env");
}

#[test]
fn candidates_carry_kind_and_detail() {
    let module = CompletionModule::default();
    let dir = "/proj/src".to_string();
    let candidate = module
        .completion_item_for_path(&entry("sub", true), &dir, &"s".to_string())
        .unwrap();
    assert_eq!(candidate.label, "sub");
    assert!(candidate.is_directory);
    assert_eq!(candidate.detail, "/proj/src/sub");
}

#[test]
fn separators_normalize_against_any_origin_style() {
    let module = CompletionModule::default();
    let mut workspace = Workspace::new();
    // The origin itself comes from a backslash-styled identifier.
    let url = "file:///c%3A/proj\\.gitignore".to_string();
    workspace.open(url.clone(), "src/sub/\n".to_string());

    let target = module
        .get_completion_target(&workspace, &url, 0)
        .unwrap();
    assert_eq!(target.directory, "/c:/proj/src/sub");
    assert_eq!(target.fragment, "");
}

#[test]
fn unknown_document_yields_document_not_found() {
    let module = CompletionModule::default();
    let workspace = Workspace::new();
    let err = module
        .get_completion_target(&workspace, &"file:///never/opened".to_string(), 0)
        .unwrap_err();
    assert!(matches!(err, CoreError::DocumentNotFound));
}

#[test]
fn completion_line_beyond_document_is_reported() {
    let module = CompletionModule::default();
    let mut workspace = Workspace::new();
    let url = "file:///proj/.gitignore".to_string();
    workspace.open(url.clone(), "one line".to_string());
    let err = module.get_completion_target(&workspace, &url, 9).unwrap_err();
    assert!(matches!(err, CoreError::LineOutOfRange));
}

#[test]
fn document_without_origin_is_reported() {
    let module = CompletionModule::default();
    let mut workspace = Workspace::new();
    let url = "file:///".to_string();
    workspace.open(url.clone(), "src/".to_string());
    let err = module.get_completion_target(&workspace, &url, 0).unwrap_err();
    assert!(matches!(err, CoreError::NoOriginDirectory));
}

#[test]
fn fragment_after_last_separator_drives_the_listing() {
    // Document origin /proj, content "node_modules/\nsrc/*.lo"; the
    // cursor stands on line 1.
    let module = CompletionModule::default();
    let mut workspace = Workspace::new();
    let url = "file:///proj/.gitignore".to_string();
    workspace.open(url.clone(), "node_modules/\nsrc/*.lo".to_string());

    let target = module
        .get_completion_target(&workspace, &url, 1)
        .unwrap();
    assert_eq!(target.directory, "/proj/src");
    assert_eq!(target.fragment, "*.lo");

    let entries = vec![
        entry("a.log", false),
        entry("b.lock", false),
        entry("index.js", false),
    ];
    let items = module.completion_items_for_paths(&entries, &target.directory, &target.fragment);
    assert_eq!(items.len(), 3);
    assert_eq!(items[0].label, "a.log");
    assert_eq!(items[0].detail, "/proj/src/a.log");
    assert_eq!(items[1].label, "b.lock");
    assert_eq!(items[2].label, "index.js");
    assert!(!items[0].is_directory);
}

#[test]
fn anchor_markers_stay_unless_stripping_is_chosen() {
    let mut workspace = Workspace::new();
    let url = "file:///proj/.gitignore".to_string();
    workspace.open(url.clone(), "!/src/\n".to_string());

    // By default the markers are kept and read as literal path text.
    let keeping = CompletionModule::default();
    let kept = keeping.get_completion_target(&workspace, &url, 0).unwrap();
    assert_eq!(kept.directory, "/proj/!/src");

    // With markers stripped the same line resolves under the origin.
    let stripping = CompletionModule {
        strip_anchor_markers: true,
        normalize_before_split: true,
    };
    let stripped = stripping
        .get_completion_target(&workspace, &url, 0)
        .unwrap();
    assert_eq!(stripped.directory, "/proj/src");
}

#[test]
fn normalization_timing_decides_how_backslashes_split() {
    let mut workspace = Workspace::new();
    let url = "file:///proj/.gitignore".to_string();
    workspace.open(url.clone(), "a\\b".to_string());

    // Normalized before the split, the backslash separates.
    let before = CompletionModule::default();
    let t1 = before.get_completion_target(&workspace, &url, 0).unwrap();
    assert_eq!(t1.directory, "/proj/a");
    assert_eq!(t1.fragment, "b");

    // Normalized after, the whole line is still one fragment.
    let after = CompletionModule {
        strip_anchor_markers: false,
        normalize_before_split: false,
    };
    let t2 = after.get_completion_target(&workspace, &url, 0).unwrap();
    assert_eq!(t2.directory, "/proj");
    assert_eq!(t2.fragment, "a\\b");
}
