use file_summary::config::ScanConfig;
use file_summary::filter::should_collect;
use file_summary::filter::should_descend;
use file_summary::filter::extension_lower;
use file_summary::filter::to_lower;
use file_summary::filter::bytes_eq;
use file_summary::filter::set_contains;

fn b(s: &str) -> Vec<u8> {
    s.as_bytes().to_vec()
}

fn bs(items: &[&str]) -> Vec<Vec<u8>> {
    items.iter().map(|s| b(s)).collect()
}

fn default_valid() -> Vec<Vec<u8>> {
    bs(&[
        ".txt", ".py", ".c", ".cpp", ".h", ".cs", ".cake", ".cshtml", ".csx", ".ps1", ".vbs",
        ".js", ".mjs", ".ts", ".svelte", ".rb", ".rs", ".html", ".htm", ".xhtml", ".css",
        ".dart", ".jsx", ".bat", ".autoexe", ".sh", ".bash", ".php", ".phtml", ".pl", ".pm",
        ".sql", ".xml", ".csv",
    ])
}

fn config(valid: Vec<Vec<u8>>, skip_ext: &[&str], skip_folders: &[&str]) -> ScanConfig {
    ScanConfig {
        valid_extensions: valid,
        skip_extensions: bs(skip_ext),
        skip_folders: bs(skip_folders),
        use_full_path: false,
    }
}

#[test]
fn collects_valid_extension() {
    let c = config(default_valid(), &[], &[]);
    assert!(should_collect(&c, &b("a.py")));
    assert!(should_collect(&c, &b("main.rs")));
    assert!(should_collect(&c, &b("index.html")));
}

#[test]
fn rejects_extension_outside_valid_set() {
    let c = config(default_valid(), &[], &[]);
    assert!(!should_collect(&c, &b("b.ico")));
    assert!(!should_collect(&c, &b("image.jpg")));
}

#[test]
fn rejects_file_without_extension() {
    let c = config(default_valid(), &[], &[]);
    assert!(!should_collect(&c, &b("Makefile")));
    assert!(!should_collect(&c, &b("")));
}

#[test]
fn rejects_dot_file() {
    let c = config(default_valid(), &[], &[]);
    assert!(!should_collect(&c, &b(".bashrc")));
    // but a dot-file with a second dot has an extension
    assert!(should_collect(&c, &b(".hidden.py")));
}

#[test]
fn trailing_dot_is_an_empty_extension() {
    let c = config(default_valid(), &[], &[]);
    assert!(!should_collect(&c, &b("strange.")));
    assert_eq!(extension_lower(&b("strange.")), Some(b(".")));
}

#[test]
fn skip_set_takes_precedence() {
    let c = config(default_valid(), &[".py"], &[]);
    assert!(!should_collect(&c, &b("a.py")));
    assert!(should_collect(&c, &b("a.rs")));
}

#[test]
fn extension_compared_lowercased() {
    let c = config(default_valid(), &[], &[]);
    assert!(should_collect(&c, &b("A.PY")));
    assert!(should_collect(&c, &b("mixed.Rs")));
    let skipping = config(default_valid(), &[".py"], &[]);
    assert!(!should_collect(&skipping, &b("A.PY")));
}

#[test]
fn skipping_an_extension_absent_from_valid_set_changes_nothing() {
    let plain = config(default_valid(), &[], &[]);
    let noop = config(default_valid(), &[".zzz"], &[]);
    for name in ["a.py", "b.ico", "c.zzz", "Makefile", ".bashrc", "x.RS"] {
        assert_eq!(
            should_collect(&plain, &b(name)),
            should_collect(&noop, &b(name)),
            "differs on {}",
            name
        );
    }
}

#[test]
fn extension_lower_exact_values() {
    assert_eq!(extension_lower(&b("a.py")), Some(b(".py")));
    assert_eq!(extension_lower(&b("archive.tar.gz")), Some(b(".gz")));
    assert_eq!(extension_lower(&b("A.TXT")), Some(b(".txt")));
    assert_eq!(extension_lower(&b("noext")), None);
    assert_eq!(extension_lower(&b(".gitignore")), None);
}

#[test]
fn descend_follows_skip_folder_set() {
    let c = config(default_valid(), &[], &["node_modules", "target"]);
    assert!(!should_descend(&c, &b("node_modules")));
    assert!(!should_descend(&c, &b("target")));
    assert!(should_descend(&c, &b("src")));
    // exact, case-sensitive match only
    assert!(should_descend(&c, &b("Node_Modules")));
    assert!(should_descend(&c, &b("node_modules2")));
}

#[test]
fn lowercasing_is_ascii_only() {
    assert_eq!(to_lower(&b("AbC-Z.9")), b("abc-z.9"));
    assert_eq!(to_lower(&vec![0xC3, 0x89]), vec![0xC3, 0x89]);
}

#[test]
fn byte_string_helpers() {
    assert!(bytes_eq(&b("abc"), &b("abc")));
    assert!(!bytes_eq(&b("abc"), &b("abd")));
    assert!(!bytes_eq(&b("abc"), &b("ab")));
    let set = bs(&["one", "two"]);
    assert!(set_contains(&set, &b("two")));
    assert!(!set_contains(&set, &b("three")));
}
