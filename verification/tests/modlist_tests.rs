use plox::modlist::{contains_chars, is_archive_name, sort_names, text_le_chars};

fn strings(items: &[&str]) -> Vec<String> {
    items.iter().map(|e| (*e).to_owned()).collect()
}

fn chars(s: &str) -> Vec<char> {
    s.chars().collect()
}

#[test]
fn archives_are_known_by_their_extension() {
    assert!(is_archive_name("basegame_mod.archive"));
    assert!(is_archive_name("Mod.ARCHIVE"));
    assert!(is_archive_name("a.b.archive"));
    assert!(is_archive_name("a.xarchive2"));
    assert!(!is_archive_name("archive"));
    assert!(!is_archive_name(".archive"));
    assert!(!is_archive_name("a.archive.bak"));
    assert!(!is_archive_name("a.esp"));
    assert!(!is_archive_name("a."));
    assert!(!is_archive_name(""));
}

#[test]
fn names_are_sorted_by_their_characters() {
    let sorted = sort_names(strings(&["b.archive", "a.archive", "B.archive", "ab", "a", ""]));
    assert_eq!(
        strings(&["", "B.archive", "a", "a.archive", "ab", "b.archive"]),
        sorted
    );
    let mut expected = strings(&["z", "\u{e4}", "a", "z", "Z", "10", "9"]);
    let sorted = sort_names(expected.clone());
    expected.sort();
    assert_eq!(expected, sorted);
    assert!(sort_names(vec![]).is_empty());
}

#[test]
fn texts_compare_character_by_character() {
    assert!(text_le_chars(&chars("a"), &chars("b")));
    assert!(!text_le_chars(&chars("b"), &chars("a")));
    assert!(text_le_chars(&chars("a"), &chars("a")));
    assert!(text_le_chars(&chars("a"), &chars("ab")));
    assert!(!text_le_chars(&chars("ab"), &chars("a")));
    assert!(text_le_chars(&chars(""), &chars("")));
    assert!(text_le_chars(&chars("Z"), &chars("a")));
}

#[test]
fn a_text_occurs_in_another() {
    assert!(contains_chars(&chars("xarchive"), &chars("archive")));
    assert!(contains_chars(&chars("archive"), &chars("archive")));
    assert!(contains_chars(&chars("abc"), &chars("")));
    assert!(contains_chars(&chars(""), &chars("")));
    assert!(!contains_chars(&chars("archiv"), &chars("archive")));
    assert!(!contains_chars(&chars("arch ive"), &chars("archive")));
}
