use file_summary::config::ScanConfig;
use file_summary::loader::LoadResult;
use file_summary::loader::PathError;
use file_summary::loader::build_records;
use file_summary::loader::display_path;
use file_summary::loader::reorder_by_index;
use file_summary::report::FileRecord;
use file_summary::report::render_record;
use file_summary::report::render_report;
use file_summary::scanner::FsEntry;
use file_summary::scanner::file_name_of;
use file_summary::scanner::find_files;

fn b(s: &str) -> Vec<u8> {
    s.as_bytes().to_vec()
}

fn bs(items: &[&str]) -> Vec<Vec<u8>> {
    items.iter().map(|s| b(s)).collect()
}

fn default_valid() -> Vec<Vec<u8>> {
    bs(&[
        ".txt", ".py", ".c", ".cpp", ".h", ".cs", ".cake", ".cshtml", ".csx", ".ps1", ".vbs",
        ".js", ".mjs", ".ts", ".svelte", ".rb", ".rs", ".html", ".htm", ".xhtml", ".css",
        ".dart", ".jsx", ".bat", ".autoexe", ".sh", ".bash", ".php", ".phtml", ".pl", ".pm",
        ".sql", ".xml", ".csv",
    ])
}

fn config(skip_ext: &[&str], skip_folders: &[&str], full: bool) -> ScanConfig {
    ScanConfig {
        valid_extensions: default_valid(),
        skip_extensions: bs(skip_ext),
        skip_folders: bs(skip_folders),
        use_full_path: full,
    }
}

fn dir(path: &str) -> FsEntry {
    FsEntry { path: b(path), is_dir: true }
}

fn file(path: &str) -> FsEntry {
    FsEntry { path: b(path), is_dir: false }
}

fn record(path: &str, content: Option<&str>) -> FileRecord {
    FileRecord { display_path: b(path), content: content.map(b) }
}

fn separator() -> String {
    "-".repeat(51)
}

#[test]
fn scenario_one_record() {
    // root holds a.py (content "x"), b.ico (not in the valid set) and
    // node_modules/c.js with node_modules in the skip-folder set: exactly one
    // candidate comes out, and its record carries "x".
    let c = config(&[], &["node_modules"], false);
    let entries = vec![
        dir("root"),
        file("root/a.py"),
        file("root/b.ico"),
        dir("root/node_modules"),
        file("root/node_modules/c.js"),
    ];
    let found = find_files(&b("root"), &entries, &c);
    assert_eq!(found, vec![b("root/a.py")]);

    let contents = vec![Some(b("x"))];
    let records = build_records(&found, &contents, c.use_full_path, &b("root")).unwrap();
    assert_eq!(records.len(), 1);
    assert_eq!(records[0].display_path, b("a.py"));
    assert_eq!(records[0].content, Some(b("x")));

    let report = render_report(&records);
    let expected = format!("Path: a.py\n====\nx\n{}\n\n", separator());
    assert_eq!(report, expected.into_bytes());
}

#[test]
fn skipped_folder_prunes_whole_subtree() {
    let c = config(&[], &["skipme"], false);
    let entries = vec![
        dir("r"),
        dir("r/skipme"),
        file("r/skipme/a.py"),
        dir("r/skipme/deep"),
        file("r/skipme/deep/b.py"),
        file("r/keep.py"),
        dir("r/sub"),
        file("r/sub/c.py"),
    ];
    let found = find_files(&b("r"), &entries, &c);
    assert_eq!(found, vec![b("r/keep.py"), b("r/sub/c.py")]);
    for p in &found {
        let rel = String::from_utf8(p.clone()).unwrap();
        assert!(!rel.split('/').any(|seg| seg == "skipme"));
    }
}

#[test]
fn traversal_order_is_preserved() {
    let c = config(&[], &[], false);
    let entries = vec![
        dir("r"),
        file("r/z.py"),
        file("r/a.py"),
        dir("r/m"),
        file("r/m/k.py"),
        file("r/b.py"),
    ];
    let found = find_files(&b("r"), &entries, &c);
    assert_eq!(found, vec![b("r/z.py"), b("r/a.py"), b("r/m/k.py"), b("r/b.py")]);
}

#[test]
fn empty_listing_yields_no_candidates() {
    let c = config(&[], &[], false);
    let entries: Vec<FsEntry> = vec![dir("r")];
    assert!(find_files(&b("r"), &entries, &c).is_empty());
    let none: Vec<FsEntry> = vec![];
    assert!(find_files(&b("r"), &none, &c).is_empty());
}

#[test]
fn zero_qualifying_files_yields_no_candidates() {
    let c = config(&[".py"], &[], false);
    let entries = vec![dir("r"), file("r/a.py"), file("r/b.ico"), file("r/README")];
    assert!(find_files(&b("r"), &entries, &c).is_empty());
}

#[test]
fn root_with_trailing_separator() {
    let c = config(&[], &[], false);
    let entries = vec![dir("r/"), file("r/a.py")];
    let found = find_files(&b("r/"), &entries, &c);
    assert_eq!(found, vec![b("r/a.py")]);
}

#[test]
fn display_path_full_and_relative() {
    assert_eq!(display_path(&b("r/sub/a.py"), true, &b("r")), Ok(b("r/sub/a.py")));
    assert_eq!(display_path(&b("r/sub/a.py"), false, &b("r")), Ok(b("sub/a.py")));
    assert_eq!(display_path(&b("r/sub/a.py"), false, &b("r/")), Ok(b("sub/a.py")));
}

#[test]
fn display_path_rejects_path_outside_root() {
    assert_eq!(
        display_path(&b("elsewhere/a.py"), false, &b("r")),
        Err(PathError::NotUnderRoot)
    );
    // full-path mode never fails
    assert_eq!(display_path(&b("elsewhere/a.py"), true, &b("r")), Ok(b("elsewhere/a.py")));
}

#[test]
fn build_records_rejects_stray_candidate() {
    let paths = vec![b("r/a.py"), b("stray/b.py")];
    let contents = vec![Some(b("1")), Some(b("2"))];
    assert_eq!(
        build_records(&paths, &contents, false, &b("r")),
        Err(PathError::NotUnderRoot)
    );
}

#[test]
fn fan_in_restores_candidate_order() {
    // the same three reads handed back in two different completion orders
    // give byte-identical reports
    let in_order = vec![
        LoadResult { index: 0, content: Some(b("alpha")) },
        LoadResult { index: 1, content: None },
        LoadResult { index: 2, content: Some(b("gamma")) },
    ];
    let scrambled = vec![
        LoadResult { index: 2, content: Some(b("gamma")) },
        LoadResult { index: 0, content: Some(b("alpha")) },
        LoadResult { index: 1, content: None },
    ];
    let a = reorder_by_index(&in_order, 3);
    let c = reorder_by_index(&scrambled, 3);
    assert_eq!(a, c);
    assert_eq!(a, vec![Some(b("alpha")), None, Some(b("gamma"))]);

    let paths = vec![b("r/a.py"), b("r/b.py"), b("r/c.py")];
    let ra = build_records(&paths, &a, false, &b("r")).unwrap();
    let rc = build_records(&paths, &c, false, &b("r")).unwrap();
    assert_eq!(render_report(&ra), render_report(&rc));
}

#[test]
fn record_with_content_renders_exactly() {
    let r = record("sub/a.py", Some("line one\nline two\n"));
    let expected = format!(
        "Path: sub/a.py\n{}\nline one\nline two\n\n{}\n\n",
        "=".repeat("sub/a.py".len()),
        separator()
    );
    assert_eq!(render_record(&r), expected.into_bytes());
}

#[test]
fn unreadable_file_renders_without_body() {
    // a file that vanished between traversal and read still gets its record,
    // with the content line absent
    let r = record("gone.py", None);
    let expected = format!("Path: gone.py\n{}\n{}\n\n", "=".repeat(7), separator());
    assert_eq!(render_record(&r), expected.into_bytes());
}

#[test]
fn scenario_vanished_file_still_reported() {
    let c = config(&[], &[], false);
    let entries = vec![dir("r"), file("r/ok.py"), file("r/gone.py")];
    let found = find_files(&b("r"), &entries, &c);
    assert_eq!(found.len(), 2);
    // the second read failed
    let results = vec![
        LoadResult { index: 1, content: None },
        LoadResult { index: 0, content: Some(b("fine")) },
    ];
    let contents = reorder_by_index(&results, 2);
    let records = build_records(&found, &contents, false, &b("r")).unwrap();
    let report = render_report(&records);
    let expected = format!(
        "Path: ok.py\n=====\nfine\n{sep}\n\nPath: gone.py\n=======\n{sep}\n\n",
        sep = separator()
    );
    assert_eq!(report, expected.into_bytes());
}

#[test]
fn round_trip_content_is_unchanged() {
    let content = "fn main() {}\n\tweird \u{00e9} bytes\n";
    let r = record("p.rs", Some(content));
    let rendered = render_record(&r);
    let start = "Path: p.rs\n====\n".len();
    assert_eq!(&rendered[start..start + content.len()], content.as_bytes());
}

#[test]
fn report_of_no_records_is_empty() {
    let records: Vec<FileRecord> = vec![];
    assert!(render_report(&records).is_empty());
}

#[test]
fn file_name_of_exact_values() {
    assert_eq!(file_name_of(&b("a/b/c.py")), b("c.py"));
    assert_eq!(file_name_of(&b("plain.py")), b("plain.py"));
    assert_eq!(file_name_of(&b("dir/")), b(""));
}

#[test]
fn skip_folder_set_prunes_folders_not_files() {
    // the skip-folder set matches folder names; a file that happens to bear
    // such a name is still judged by its extension alone
    let c = config(&[], &["b.py"], false);
    let entries = vec![dir("r"), file("r/b.py"), dir("r/sub"), file("r/sub/b.py")];
    let found = find_files(&b("r"), &entries, &c);
    assert_eq!(found, vec![b("r/b.py"), b("r/sub/b.py")]);
}

#[test]
fn custom_valid_set_overrides_default() {
    let c = ScanConfig {
        valid_extensions: bs(&[".json"]),
        skip_extensions: vec![],
        skip_folders: vec![],
        use_full_path: false,
    };
    let entries = vec![dir("r"), file("r/data.json"), file("r/a.py")];
    let found = find_files(&b("r"), &entries, &c);
    assert_eq!(found, vec![b("r/data.json")]);
}

#[test]
fn full_path_mode_keeps_walked_paths() {
    let c = config(&[], &[], true);
    let entries = vec![dir("r"), file("r/sub/a.py")];
    let found = find_files(&b("r"), &entries, &c);
    let contents = vec![Some(b("x"))];
    let records = build_records(&found, &contents, c.use_full_path, &b("r")).unwrap();
    assert_eq!(records[0].display_path, b("r/sub/a.py"));
}
