use nestedfolder::listing::{should_descend, Listing, Scanner};
use nestedfolder::resolve;
use nestedfolder::tree::{Fs, ResolveError};

#[test]
fn scan_of_no_entries_is_empty() {
    let scanner = Scanner::new();
    assert_eq!(scanner.listing(), Listing::Empty);
    assert!(!should_descend(&Listing::Empty));
}

#[test]
fn scan_of_one_directory_descends() {
    let mut scanner = Scanner::new();
    let stop = scanner.feed(true);
    assert!(!stop);
    assert_eq!(scanner.listing(), Listing::OneSubdir);
    assert!(should_descend(&Listing::OneSubdir));
}

#[test]
fn scan_of_one_file_stops_at_once() {
    let mut scanner = Scanner::new();
    let stop = scanner.feed(false);
    assert!(stop);
    assert_eq!(scanner.listing(), Listing::OneFile);
    assert!(!should_descend(&Listing::OneFile));
}

#[test]
fn scan_stops_as_soon_as_a_second_entry_appears() {
    let mut scanner = Scanner::new();
    assert!(!scanner.feed(true));
    assert!(scanner.feed(true));
    assert_eq!(scanner.listing(), Listing::Many);
    assert!(!should_descend(&Listing::Many));
}

#[test]
fn resolve_of_missing_node_is_not_found() {
    let fs = Fs::new();
    assert_eq!(resolve(&fs, 0), Err(ResolveError::NotFound));
}

#[test]
fn resolve_of_index_past_the_tree_is_not_found() {
    let mut fs = Fs::new();
    let f = fs.add_file();
    assert_eq!(resolve(&fs, f + 1), Err(ResolveError::NotFound));
}

#[test]
fn resolve_of_file_is_not_a_directory() {
    let mut fs = Fs::new();
    let f = fs.add_file();
    assert_eq!(resolve(&fs, f), Err(ResolveError::NotADirectory));
}

#[test]
fn empty_directory_resolves_to_itself() {
    let mut fs = Fs::new();
    let d = fs.add_dir(vec![]);
    assert_eq!(resolve(&fs, d), Ok(d));
}

#[test]
fn directory_with_one_file_resolves_to_itself() {
    let mut fs = Fs::new();
    let f = fs.add_file();
    let d = fs.add_dir(vec![f]);
    assert_eq!(resolve(&fs, d), Ok(d));
}

#[test]
fn directory_with_two_files_resolves_to_itself() {
    let mut fs = Fs::new();
    let f1 = fs.add_file();
    let f2 = fs.add_file();
    let d = fs.add_dir(vec![f1, f2]);
    assert_eq!(resolve(&fs, d), Ok(d));
}

#[test]
fn directory_with_file_and_subdirectory_resolves_to_itself() {
    let mut fs = Fs::new();
    let f = fs.add_file();
    let sub = fs.add_dir(vec![]);
    let d = fs.add_dir(vec![f, sub]);
    assert_eq!(resolve(&fs, d), Ok(d));
}

#[test]
fn directory_with_two_subdirectories_resolves_to_itself() {
    let mut fs = Fs::new();
    let s1 = fs.add_dir(vec![]);
    let s2 = fs.add_dir(vec![]);
    let d = fs.add_dir(vec![s1, s2]);
    assert_eq!(resolve(&fs, d), Ok(d));
}

#[test]
fn chain_of_lone_subdirectories_is_followed_to_its_end() {
    let mut fs = Fs::new();
    let d = fs.add_dir(vec![]);
    let c = fs.add_dir(vec![d]);
    let b = fs.add_dir(vec![c]);
    let a = fs.add_dir(vec![b]);
    assert_eq!(resolve(&fs, a), Ok(d));
}

#[test]
fn chain_ending_in_lone_file_stops_at_its_holder() {
    let mut fs = Fs::new();
    let f = fs.add_file();
    let c = fs.add_dir(vec![f]);
    let b = fs.add_dir(vec![c]);
    let a = fs.add_dir(vec![b]);
    assert_eq!(resolve(&fs, a), Ok(c));
}

#[test]
fn resolving_a_resolved_directory_returns_it_unchanged() {
    let mut fs = Fs::new();
    let d = fs.add_dir(vec![]);
    let c = fs.add_dir(vec![d]);
    let b = fs.add_dir(vec![c]);
    let a = fs.add_dir(vec![b]);
    let r = resolve(&fs, a).unwrap();
    assert_eq!(resolve(&fs, r), Ok(r));
}

#[test]
fn wrapper_around_directory_with_two_files_resolves_one_level_down() {
    let mut fs = Fs::new();
    let z1 = fs.add_file();
    let z2 = fs.add_file();
    let y = fs.add_dir(vec![z1, z2]);
    let x = fs.add_dir(vec![y]);
    assert_eq!(resolve(&fs, x), Ok(y));
}

#[test]
fn tree_length_counts_every_node() {
    let mut fs = Fs::new();
    assert_eq!(fs.len(), 0);
    fs.add_file();
    fs.add_dir(vec![]);
    assert_eq!(fs.len(), 2);
}
