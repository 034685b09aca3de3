use rprs::path::{
    base_names_match, bytes_equal, bytes_equal_ignoring_ascii_case, copy_bytes, fold_byte,
    name_is_hidden, name_is_valid, EntryName, FilePath, HIDDEN_MARKER, SEPARATOR,
};

fn path(text: &str) -> FilePath {
    FilePath::from_text(text)
}

fn name(text: &str) -> EntryName {
    EntryName::from_text(text).unwrap()
}

#[test]
fn the_separator_is_a_slash_and_the_marker_a_dot() {
    assert_eq!(SEPARATOR, b'/');
    assert_eq!(HIDDEN_MARKER, b'.');
}

#[test]
fn from_text_keeps_the_bytes_of_the_text() {
    assert_eq!(path("./test/src").bytes, b"./test/src".to_vec());
    assert_eq!(path("").bytes, Vec::<u8>::new());
    assert_eq!(path("caf\u{e9}").bytes, vec![b'c', b'a', b'f', 0xC3, 0xA9]);
    assert_eq!(FilePath::new(vec![1, 2, 3]).as_bytes(), &vec![1u8, 2, 3]);
}

#[test]
fn base_name_is_the_last_component() {
    assert_eq!(path("./test/src/a.txt").base_name(), b"a.txt".to_vec());
    assert_eq!(path("a.txt").base_name(), b"a.txt".to_vec());
    assert_eq!(path("/a.txt").base_name(), b"a.txt".to_vec());
    assert_eq!(path("a/b/c").base_name(), b"c".to_vec());
}

#[test]
fn base_name_sets_trailing_separators_aside() {
    assert_eq!(path("dir/sub/").base_name(), b"sub".to_vec());
    assert_eq!(path("dir/sub///").base_name(), b"sub".to_vec());
    assert_eq!(path("sub/").base_name(), b"sub".to_vec());
}

#[test]
fn base_name_of_nothing_but_separators_is_empty() {
    assert_eq!(path("").base_name(), Vec::<u8>::new());
    assert_eq!(path("/").base_name(), Vec::<u8>::new());
    assert_eq!(path("///").base_name(), Vec::<u8>::new());
}

#[test]
fn base_name_span_gives_the_positions() {
    assert_eq!(path("a/bc/").base_name_span(), (2, 4));
    assert_eq!(path("a/bc").base_name_span(), (2, 4));
    assert_eq!(path("abc").base_name_span(), (0, 3));
    assert_eq!(path("/").base_name_span(), (0, 0));
    assert_eq!(path("").base_name_span(), (0, 0));
    assert_eq!(path("x//").base_name_span(), (0, 1));
}

#[test]
fn join_puts_one_separator_between() {
    assert_eq!(path("a").join(&name("b")), path("a/b"));
    assert_eq!(path("./test/src").join(&name("a.txt")), path("./test/src/a.txt"));
}

#[test]
fn join_adds_no_separator_after_one_or_after_nothing() {
    assert_eq!(path("a/").join(&name("b")), path("a/b"));
    assert_eq!(path("/").join(&name("b")), path("/b"));
    assert_eq!(path("").join(&name("b")), path("b"));
}

#[test]
fn the_base_name_of_an_entry_is_its_name() {
    for dir in ["", "/", "a", "a/", "./x/.y", "a//"] {
        for entry in ["b", ".hidden", "Foo.txt", "..."] {
            let joined = path(dir).join(&name(entry));
            assert_eq!(joined.base_name(), entry.as_bytes().to_vec());
        }
    }
}

#[test]
fn a_name_is_hidden_when_it_begins_with_the_marker() {
    assert!(name_is_hidden(&b".git".to_vec()));
    assert!(name_is_hidden(&b".a".to_vec()));
    assert!(name_is_hidden(&b"...".to_vec()));
    assert!(name_is_hidden(&b"..a".to_vec()));
    assert!(name_is_hidden(&b".".to_vec()));
    assert!(name_is_hidden(&b"..".to_vec()));
    assert!(!name_is_hidden(&b"git".to_vec()));
    assert!(!name_is_hidden(&b"a.b".to_vec()));
    assert!(!name_is_hidden(&b"".to_vec()));
}

#[test]
fn an_entry_name_is_one_component() {
    assert!(EntryName::from_text("a").is_some());
    assert!(EntryName::from_text("a.txt").is_some());
    assert!(EntryName::from_text(".hidden").is_some());
    assert!(EntryName::from_text("...").is_some());
    assert!(EntryName::from_text("").is_none());
    assert!(EntryName::from_text("a/b").is_none());
    assert!(EntryName::from_text("/").is_none());
    assert!(EntryName::from_text("a/").is_none());
    assert!(EntryName::from_text(".").is_none());
    assert!(EntryName::from_text("..").is_none());
    assert!(EntryName::new(vec![0xFF, 0xFE]).is_some());
    assert!(EntryName::new(vec![b'a', SEPARATOR]).is_none());
}

#[test]
fn name_is_valid_agrees_with_entry_name() {
    assert!(name_is_valid(&b"a".to_vec()));
    assert!(name_is_valid(&b".a".to_vec()));
    assert!(name_is_valid(&b"..a".to_vec()));
    assert!(!name_is_valid(&b"".to_vec()));
    assert!(!name_is_valid(&b".".to_vec()));
    assert!(!name_is_valid(&b"..".to_vec()));
    assert!(!name_is_valid(&b"x/y".to_vec()));
}

#[test]
fn an_entry_name_keeps_its_bytes() {
    let entry = name("Foo.txt");
    assert_eq!(entry.as_bytes(), &b"Foo.txt".to_vec());
    assert_eq!(entry.clone(), entry);
    assert!(!entry.is_hidden());
    assert!(name(".cache").is_hidden());
}

#[test]
fn fold_byte_lowers_ascii_capitals_only() {
    assert_eq!(fold_byte(b'A'), b'a');
    assert_eq!(fold_byte(b'Z'), b'z');
    assert_eq!(fold_byte(b'M'), b'm');
    assert_eq!(fold_byte(b'a'), b'a');
    assert_eq!(fold_byte(b'@'), b'@');
    assert_eq!(fold_byte(b'['), b'[');
    assert_eq!(fold_byte(b'0'), b'0');
    assert_eq!(fold_byte(0xC9), 0xC9);
    assert_eq!(fold_byte(0), 0);
    assert_eq!(fold_byte(255), 255);
}

#[test]
fn fold_byte_agrees_with_the_standard_library() {
    for byte in 0..=255u8 {
        assert_eq!(fold_byte(byte), byte.to_ascii_lowercase());
    }
}

#[test]
fn bytes_equal_is_equality() {
    assert!(bytes_equal(&b"abc".to_vec(), &b"abc".to_vec()));
    assert!(bytes_equal(&Vec::new(), &Vec::new()));
    assert!(!bytes_equal(&b"abc".to_vec(), &b"abd".to_vec()));
    assert!(!bytes_equal(&b"abc".to_vec(), &b"ab".to_vec()));
    assert!(!bytes_equal(&b"Abc".to_vec(), &b"abc".to_vec()));
}

#[test]
fn case_is_ignored_for_ascii_letters_only() {
    assert!(bytes_equal_ignoring_ascii_case(&b"Foo.TXT".to_vec(), &b"fOO.txt".to_vec()));
    assert!(bytes_equal_ignoring_ascii_case(&Vec::new(), &Vec::new()));
    assert!(!bytes_equal_ignoring_ascii_case(&b"foo".to_vec(), &b"fo".to_vec()));
    assert!(!bytes_equal_ignoring_ascii_case(&b"foo".to_vec(), &b"fop".to_vec()));
    assert!(!bytes_equal_ignoring_ascii_case(&b"@".to_vec(), &b"`".to_vec()));
    assert!(!bytes_equal_ignoring_ascii_case(&b"[".to_vec(), &b"{".to_vec()));
    // U+00C9 and U+00E9, capital and small e with acute accent, in UTF-8
    assert!(!bytes_equal_ignoring_ascii_case(&vec![0xC3, 0x89], &vec![0xC3, 0xA9]));
    assert!(bytes_equal_ignoring_ascii_case(&vec![0xC3, 0x89, b'X'], &vec![0xC3, 0x89, b'x']));
}

#[test]
fn names_match_by_the_case_policy() {
    let upper = b"Foo.txt".to_vec();
    let lower = b"foo.txt".to_vec();
    assert!(base_names_match(&upper, &lower, false));
    assert!(!base_names_match(&upper, &lower, true));
    assert!(base_names_match(&upper, &upper, true));
    assert!(base_names_match(&upper, &upper, false));
    assert!(!base_names_match(&upper, &b"bar.txt".to_vec(), false));
}

#[test]
fn same_as_compares_byte_for_byte() {
    assert!(path("a/b").same_as(&path("a/b")));
    assert!(!path("a/b").same_as(&path("a/B")));
    assert!(!path("a/b").same_as(&path("a/b/")));
    assert!(!path("a/b").same_as(&path("./a/b")));
}

#[test]
fn copies_are_equal_to_what_they_copy() {
    assert_eq!(copy_bytes(&b"xyz".to_vec()), b"xyz".to_vec());
    assert_eq!(copy_bytes(&Vec::new()), Vec::<u8>::new());
    let model = path("./test/des/A/A.txt");
    assert_eq!(model.clone(), model);
}

#[test]
fn paths_are_ordered_by_their_bytes() {
    let mut paths = vec![path("b"), path("a/b"), path("A"), path("a")];
    paths.sort();
    assert_eq!(paths, vec![path("A"), path("a"), path("a/b"), path("b")]);
}
