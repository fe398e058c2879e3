use file_organizer::ext::lowered_ext;
use file_organizer::order::str_lt;
use file_organizer::plan::plan_moves;
use file_organizer::scan::{scan_entries, Entry};

fn file(name: &str) -> Entry {
    Entry { name: name.to_string(), is_file: true, is_dir: false }
}

fn dir(name: &str) -> Entry {
    Entry { name: name.to_string(), is_file: false, is_dir: true }
}

fn counts(entries: &Vec<Entry>) -> Vec<(String, usize)> {
    scan_entries(entries).by_extension
}

#[test]
fn scan_mixed_directory() {
    let entries = vec![file("a.txt"), file("b.TXT"), file("c"), dir("sub")];
    let report = scan_entries(&entries);
    assert_eq!(report.total_entries, 4);
    assert_eq!(report.files, 3);
    assert_eq!(report.dirs, 1);
    assert_eq!(
        report.by_extension,
        vec![("(no_ext)".to_string(), 1), ("txt".to_string(), 2)]
    );
}

#[test]
fn scan_counts_partition_total() {
    let entries = vec![file("a.txt"), dir("sub"), file("b"), dir("other"), file("c.PNG")];
    let report = scan_entries(&entries);
    assert_eq!(report.files + report.dirs, report.total_entries);
    let sum: usize = report.by_extension.iter().map(|(_, c)| c).sum();
    assert_eq!(sum, report.files);
}

#[test]
fn extension_is_case_insensitive() {
    let entries = vec![file("A.TXT"), file("a.txt")];
    assert_eq!(counts(&entries), vec![("txt".to_string(), 2)]);
}

#[test]
fn no_extension_uses_sentinel() {
    let entries = vec![file("README")];
    assert_eq!(counts(&entries), vec![("(no_ext)".to_string(), 1)]);
}

#[test]
fn extension_table_is_sorted() {
    let entries = vec![file("z.zip"), file("a.avi"), file("m.md"), file("plain")];
    assert_eq!(
        counts(&entries),
        vec![
            ("(no_ext)".to_string(), 1),
            ("avi".to_string(), 1),
            ("md".to_string(), 1),
            ("zip".to_string(), 1),
        ]
    );
}

#[test]
fn scan_empty_directory() {
    let entries: Vec<Entry> = Vec::new();
    let report = scan_entries(&entries);
    assert_eq!(report.total_entries, 0);
    assert_eq!(report.files, 0);
    assert_eq!(report.dirs, 0);
    assert!(report.by_extension.is_empty());
}

#[test]
fn plan_mixed_directory() {
    let entries = vec![file("a.txt"), file("b.TXT"), file("c"), dir("sub")];
    let moves = plan_moves(&entries);
    let pairs: Vec<(String, String)> =
        moves.into_iter().map(|m| (m.source, m.dest)).collect();
    assert_eq!(
        pairs,
        vec![
            ("a.txt".to_string(), "organized/txt/a.txt".to_string()),
            ("b.TXT".to_string(), "organized/txt/b.TXT".to_string()),
            ("c".to_string(), "organized/no_ext/c".to_string()),
        ]
    );
}

#[test]
fn plan_empty_directory() {
    let entries: Vec<Entry> = Vec::new();
    assert!(plan_moves(&entries).is_empty());
}

#[test]
fn plan_skips_reserved_name() {
    let entries = vec![dir("organized"), file("organized"), file("x.rs")];
    let moves = plan_moves(&entries);
    assert_eq!(moves.len(), 1);
    assert_eq!(moves[0].source, "x.rs");
    assert_eq!(moves[0].dest, "organized/rs/x.rs");
}

#[test]
fn reserved_file_is_still_scanned() {
    let entries = vec![file("organized")];
    let report = scan_entries(&entries);
    assert_eq!(report.files, 1);
    assert_eq!(report.by_extension, vec![("(no_ext)".to_string(), 1)]);
}

#[test]
fn second_run_plans_nothing() {
    let entries = vec![file("a.txt"), file("b.TXT"), file("c"), dir("sub")];
    let moves = plan_moves(&entries);
    // Every planned file leaves the top level; the destination root appears.
    let mut after: Vec<Entry> = entries
        .into_iter()
        .filter(|e| !moves.iter().any(|m| m.source == e.name))
        .collect();
    after.push(dir("organized"));
    assert!(plan_moves(&after).is_empty());
}

#[test]
fn plan_is_deterministic() {
    let entries = vec![file("a.txt"), file("c"), dir("sub")];
    let first: Vec<(String, String)> =
        plan_moves(&entries).into_iter().map(|m| (m.source, m.dest)).collect();
    let second: Vec<(String, String)> =
        plan_moves(&entries).into_iter().map(|m| (m.source, m.dest)).collect();
    assert_eq!(first, second);
}

#[test]
fn lowered_ext_basic() {
    assert_eq!(lowered_ext("a.txt"), Some("txt".to_string()));
    assert_eq!(lowered_ext("B.TXT"), Some("txt".to_string()));
    assert_eq!(lowered_ext("archive.tar.GZ"), Some("gz".to_string()));
    assert_eq!(lowered_ext("README"), None);
}

#[test]
fn lowered_ext_dotfiles_and_edges() {
    // A dotfile whose only dot leads has no extension.
    assert_eq!(lowered_ext(".gitignore"), None);
    assert_eq!(lowered_ext(".config.Yml"), Some("yml".to_string()));
    // A trailing dot yields an empty extension.
    assert_eq!(lowered_ext("foo."), Some("".to_string()));
    assert_eq!(lowered_ext(""), None);
    // Non-ASCII characters pass through unchanged.
    assert_eq!(lowered_ext("photo.JPÉG"), Some("jpÉg".to_string()));
}

#[test]
fn str_lt_orders_lexicographically() {
    assert!(str_lt("abc", "abd"));
    assert!(str_lt("ab", "abc"));
    assert!(str_lt("", "a"));
    assert!(str_lt("(no_ext)", "txt"));
    assert!(!str_lt("b", "a"));
    assert!(!str_lt("a", "a"));
}
