use refolder::paths::{file_name, folder_label, join_path, split_path};
use refolder::text::{bytes_equal, bytes_less, chars_of, str_equal, str_less, string_of};

fn split(path: &str) -> (String, String) {
    split_path(path)
}

#[test]
fn split_path_cuts_at_the_last_separator() {
    assert_eq!(split("/a/b/c.txt"), ("/a/b".to_string(), "c.txt".to_string()));
    assert_eq!(split("a/b"), ("a".to_string(), "b".to_string()));
    assert_eq!(split("c.txt"), ("".to_string(), "c.txt".to_string()));
}

#[test]
fn split_path_under_the_root_has_the_root_as_folder() {
    assert_eq!(split("/c.txt"), ("/".to_string(), "c.txt".to_string()));
    assert_eq!(split("/"), ("/".to_string(), "".to_string()));
}

#[test]
fn split_path_of_a_trailing_separator_has_no_name() {
    assert_eq!(split("a/b/"), ("a/b".to_string(), "".to_string()));
    assert_eq!(split(""), ("".to_string(), "".to_string()));
}

#[test]
fn split_path_handles_characters_of_several_bytes() {
    assert_eq!(
        split("/d\u{e9}p\u{f4}t/\u{1f600}.txt"),
        ("/d\u{e9}p\u{f4}t".to_string(), "\u{1f600}.txt".to_string())
    );
}

#[test]
fn file_name_is_the_final_component() {
    assert_eq!(file_name("/a/b/c.txt"), Some("c.txt".to_string()));
    assert_eq!(file_name("c.txt"), Some("c.txt".to_string()));
    assert_eq!(file_name("/a/b/"), None);
    assert_eq!(file_name(""), None);
    assert_eq!(file_name("/"), None);
}

#[test]
fn folder_label_is_the_final_component_or_the_whole() {
    assert_eq!(folder_label("/base/pack-1"), "pack-1");
    assert_eq!(folder_label("pack-1"), "pack-1");
    assert_eq!(folder_label("/"), "/");
    assert_eq!(folder_label(""), "");
    assert_eq!(folder_label("/base/"), "/base/");
}

#[test]
fn join_path_puts_one_separator_between() {
    assert_eq!(join_path("/base", "pack-1"), "/base/pack-1");
    assert_eq!(join_path("/base/pack-1", "a.txt"), "/base/pack-1/a.txt");
    assert_eq!(join_path("/base/", "pack-1"), "/base/pack-1");
    assert_eq!(join_path("/", "pack-1"), "/pack-1");
    assert_eq!(join_path("", "pack-1"), "pack-1");
    assert_eq!(join_path("/base", ""), "/base/");
}

#[test]
fn join_path_with_an_absolute_name_is_that_name() {
    assert_eq!(join_path("/base", "/elsewhere/x"), "/elsewhere/x");
}

#[test]
fn joined_paths_split_into_their_parts() {
    for folder in ["/base/pack-1", "/", "", "relative/dir"] {
        for name in ["a.txt", "b", "\u{e9}.txt"] {
            let joined = join_path(folder, name);
            assert_eq!(split_path(&joined), (folder.to_string(), name.to_string()));
        }
    }
}

#[test]
fn chars_and_strings_convert_both_ways() {
    assert_eq!(chars_of("a\u{e9}\u{1f600}"), vec!['a', '\u{e9}', '\u{1f600}']);
    assert_eq!(chars_of(""), Vec::<char>::new());
    assert_eq!(string_of(&vec!['x', '/', '\u{e9}']), "x/\u{e9}");
    assert_eq!(string_of(&Vec::new()), "");
}

#[test]
fn strings_are_ordered_byte_by_byte() {
    assert!(str_less("a", "b"));
    assert!(!str_less("b", "a"));
    assert!(!str_less("a", "a"));
    assert!(str_less("", "a"));
    assert!(!str_less("a", ""));
    assert!(str_less("a", "ab"));
    assert!(str_less("pack-10", "pack-2"));
    assert!(str_less("Z", "a"));
    assert!(str_less("z", "\u{e9}"));
    assert!(bytes_less(&[1, 2], &[1, 3]));
    assert!(bytes_less(&[1, 2], &[1, 2, 0]));
    assert!(!bytes_less(&[2], &[1, 9]));
    assert!(!bytes_less(&[], &[]));
}

#[test]
fn string_order_agrees_with_the_standard_order() {
    let samples = ["", "a", "ab", "b", "B", "/x/1", "/x/10", "/x/2", "\u{e9}", "e\u{301}", "\u{1f600}", "zz"];
    for a in samples {
        for b in samples {
            assert_eq!(str_less(a, b), a < b);
            assert_eq!(str_equal(a, b), a == b);
            assert_eq!(bytes_equal(a.as_bytes(), b.as_bytes()), a == b);
        }
    }
}
