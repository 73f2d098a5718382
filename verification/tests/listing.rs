use explorer_core::listing::arrange_entries;
use explorer_core::listing::check_directory;
use explorer_core::listing::entry_in_order;
use explorer_core::listing::is_hidden_name;
use explorer_core::listing::read_directory_shallow;
use explorer_core::listing::EntryProbe;
use explorer_core::listing::FileItem;
use explorer_core::listing::FoldedEntry;
use explorer_core::listing::ListError;
use explorer_core::listing::PathProbe;

fn directory() -> PathProbe {
    PathProbe { exists: true, is_directory: true }
}

fn file(dir: &str, name: &str) -> Result<EntryProbe, String> {
    Ok(EntryProbe { name: name.to_string(), path: format!("{}/{}", dir, name), is_directory: false })
}

fn folder(dir: &str, name: &str) -> Result<EntryProbe, String> {
    Ok(EntryProbe { name: name.to_string(), path: format!("{}/{}", dir, name), is_directory: true })
}

fn names(items: &[FileItem]) -> Vec<String> {
    items.iter().map(|item| item.name.clone()).collect()
}

fn keyed(key: &str, name: &str, is_directory: bool) -> FoldedEntry {
    FoldedEntry {
        folded_name: key.chars().collect(),
        entry: EntryProbe { name: name.to_string(), path: format!("/d/{}", name), is_directory },
    }
}

#[test]
fn project_directory_lists_folder_then_files() {
    let reads = vec![
        folder("/tmp/proj", ".git"),
        file("/tmp/proj", "README.md"),
        folder("/tmp/proj", "src"),
        file("/tmp/proj", "zz.txt"),
    ];
    let items = read_directory_shallow(&directory(), Ok(reads)).unwrap();
    assert_eq!(names(&items), vec!["src", "README.md", "zz.txt"]);
    assert_eq!(items[0].path, "/tmp/proj/src");
    assert!(items[0].is_directory);
    assert_eq!(items[1].path, "/tmp/proj/README.md");
    assert!(!items[1].is_directory);
    assert!(!items[2].is_directory);
}

#[test]
fn hidden_entries_never_appear() {
    let reads = vec![
        file("/d", ".env"),
        folder("/d", ".cache"),
        file("/d", "."),
        file("/d", "a.b"),
        file("/d", "..hidden"),
    ];
    let items = read_directory_shallow(&directory(), Ok(reads)).unwrap();
    assert_eq!(names(&items), vec!["a.b"]);
    assert!(items.iter().all(|item| !item.name.starts_with('.')));
}

#[test]
fn a_directory_of_hidden_entries_lists_as_empty() {
    let reads = vec![file("/d", ".a"), folder("/d", ".b")];
    let items = read_directory_shallow(&directory(), Ok(reads)).unwrap();
    assert!(items.is_empty());
}

#[test]
fn an_empty_directory_lists_as_empty() {
    let items = read_directory_shallow(&directory(), Ok(vec![])).unwrap();
    assert_eq!(items, vec![]);
}

#[test]
fn children_are_left_unset_for_files_and_folders() {
    let reads = vec![folder("/d", "sub"), file("/d", "f.txt"), folder("/d", "other")];
    let items = read_directory_shallow(&directory(), Ok(reads)).unwrap();
    assert_eq!(items.len(), 3);
    assert!(items.iter().all(|item| item.children.is_none()));
}

#[test]
fn directories_come_before_files_whatever_their_names() {
    let reads = vec![
        file("/d", "aaa"),
        folder("/d", "zzz"),
        file("/d", "000"),
        folder("/d", "mmm"),
    ];
    let items = read_directory_shallow(&directory(), Ok(reads)).unwrap();
    assert_eq!(names(&items), vec!["mmm", "zzz", "000", "aaa"]);
    let first_file = items.iter().position(|item| !item.is_directory).unwrap();
    assert!(items[first_file..].iter().all(|item| !item.is_directory));
}

#[test]
fn names_are_ordered_without_regard_to_case() {
    let reads = vec![
        file("/d", "b.txt"),
        file("/d", "C.txt"),
        file("/d", "A.txt"),
        file("/d", "a1.txt"),
        file("/d", "B0.txt"),
    ];
    let items = read_directory_shallow(&directory(), Ok(reads)).unwrap();
    assert_eq!(names(&items), vec!["A.txt", "a1.txt", "b.txt", "B0.txt", "C.txt"]);
}

#[test]
fn names_beyond_ascii_are_folded_too() {
    let reads = vec![file("/d", "ÉCOLE"), file("/d", "école2"), file("/d", "Écolb")];
    let items = read_directory_shallow(&directory(), Ok(reads)).unwrap();
    assert_eq!(names(&items), vec!["Écolb", "ÉCOLE", "école2"]);
}

#[test]
fn a_name_stands_before_every_name_it_begins() {
    let reads = vec![file("/d", "abc"), file("/d", "ab"), file("/d", "a")];
    let items = read_directory_shallow(&directory(), Ok(reads)).unwrap();
    assert_eq!(names(&items), vec!["a", "ab", "abc"]);
}

#[test]
fn names_that_differ_in_case_only_keep_their_read_order() {
    let reads = vec![file("/d", "Notes"), file("/d", "notes"), file("/d", "NOTES")];
    let items = read_directory_shallow(&directory(), Ok(reads)).unwrap();
    assert_eq!(names(&items), vec!["Notes", "notes", "NOTES"]);

    let reads = vec![file("/d", "NOTES"), file("/d", "notes"), file("/d", "Notes")];
    let items = read_directory_shallow(&directory(), Ok(reads)).unwrap();
    assert_eq!(names(&items), vec!["NOTES", "notes", "Notes"]);
}

#[test]
fn the_order_does_not_depend_on_the_read_order() {
    let forward = vec![
        folder("/d", "lib"),
        file("/d", "Cargo.toml"),
        folder("/d", "Assets"),
        file("/d", "build.rs"),
    ];
    let backward = vec![
        file("/d", "build.rs"),
        folder("/d", "Assets"),
        file("/d", "Cargo.toml"),
        folder("/d", "lib"),
    ];
    let a = read_directory_shallow(&directory(), Ok(forward)).unwrap();
    let b = read_directory_shallow(&directory(), Ok(backward)).unwrap();
    assert_eq!(names(&a), vec!["Assets", "lib", "build.rs", "Cargo.toml"]);
    assert_eq!(a, b);
}

#[test]
fn a_listing_holds_every_visible_entry_once() {
    let reads = vec![
        file("/d", "three"),
        file("/d", ".skip"),
        folder("/d", "one"),
        file("/d", "two"),
    ];
    let items = read_directory_shallow(&directory(), Ok(reads)).unwrap();
    let mut listed = names(&items);
    listed.sort();
    assert_eq!(listed, vec!["one", "three", "two"]);
}

#[test]
fn a_missing_path_is_not_found() {
    let probe = PathProbe { exists: false, is_directory: false };
    assert_eq!(read_directory_shallow(&probe, Ok(vec![])), Err(ListError::PathNotFound));
    assert_eq!(check_directory(&probe), Err(ListError::PathNotFound));
}

#[test]
fn a_missing_path_is_reported_before_anything_else() {
    let probe = PathProbe { exists: false, is_directory: true };
    let reads = Err("permission denied".to_string());
    assert_eq!(read_directory_shallow(&probe, reads), Err(ListError::PathNotFound));
}

#[test]
fn a_file_path_is_not_a_directory() {
    let probe = PathProbe { exists: true, is_directory: false };
    let reads = Ok(vec![file("/d", "x")]);
    assert_eq!(read_directory_shallow(&probe, reads), Err(ListError::NotADirectory));
    assert_eq!(check_directory(&probe), Err(ListError::NotADirectory));
}

#[test]
fn a_directory_passes_the_check() {
    assert_eq!(check_directory(&directory()), Ok(()));
}

#[test]
fn a_directory_that_cannot_be_opened_is_an_io_error() {
    let reads = Err("Permission denied (os error 13)".to_string());
    assert_eq!(
        read_directory_shallow(&directory(), reads),
        Err(ListError::Io("Permission denied (os error 13)".to_string()))
    );
}

#[test]
fn one_unreadable_entry_fails_the_whole_listing() {
    let reads = vec![file("/d", "a"), Err("entry vanished".to_string()), file("/d", "b")];
    assert_eq!(
        read_directory_shallow(&directory(), Ok(reads)),
        Err(ListError::Io("entry vanished".to_string()))
    );
}

#[test]
fn the_earliest_unreadable_entry_is_the_one_reported() {
    let reads = vec![
        file("/d", ".hidden"),
        Err("first".to_string()),
        file("/d", "a"),
        Err("second".to_string()),
    ];
    assert_eq!(
        read_directory_shallow(&directory(), Ok(reads)),
        Err(ListError::Io("first".to_string()))
    );
}

#[test]
fn errors_are_reported_in_plain_words() {
    assert_eq!(ListError::PathNotFound.message(), "Directory does not exist");
    assert_eq!(ListError::NotADirectory.message(), "Path is not a directory");
    assert_eq!(ListError::Io("disk on fire".to_string()).message(), "disk on fire");
}

#[test]
fn hidden_names_begin_with_a_full_stop() {
    assert!(is_hidden_name(".git"));
    assert!(is_hidden_name("."));
    assert!(is_hidden_name(".."));
    assert!(!is_hidden_name(""));
    assert!(!is_hidden_name("a.b"));
    assert!(!is_hidden_name("git."));
    assert!(!is_hidden_name(" .git"));
}

#[test]
fn entries_are_arranged_by_the_keys_they_come_with() {
    let entries = vec![
        keyed("b", "first", false),
        keyed("a", "second", false),
        keyed("z", "third", true),
        keyed("a", "fourth", false),
        keyed("c", "fifth", true),
    ];
    let items = arrange_entries(entries);
    assert_eq!(names(&items), vec!["fifth", "third", "second", "fourth", "first"]);
    assert_eq!(items[0].path, "/d/fifth");
    assert!(items[0].is_directory);
    assert!(items.iter().all(|item| item.children.is_none()));
}

#[test]
fn keys_compare_by_code_point() {
    let upper = keyed("B", "x", false);
    let lower = keyed("a", "y", false);
    assert!(entry_in_order(&upper, &lower));
    assert!(!entry_in_order(&lower, &upper));
    let short = keyed("ab", "x", false);
    let long = keyed("abc", "y", false);
    assert!(entry_in_order(&short, &long));
    assert!(!entry_in_order(&long, &short));
    assert!(entry_in_order(&short, &short));
    let dir = keyed("zzz", "d", true);
    assert!(entry_in_order(&dir, &lower));
    assert!(!entry_in_order(&lower, &dir));
}
