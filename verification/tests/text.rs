use zellij_core::json::{json_opt_string, json_string};
use zellij_core::path::{
    common_path_all, file_stem, join, parent, split_components, strip_prefix,
};
use zellij_core::text::{
    decimal_int_text, decimal_text, is_space_char, join_texts, pad_text, parse_u32, place_of,
    split_lines, starts_with_text, trim_text, Place,
};

const PATHS: [&str; 22] = [
    "", "/", "//", ".", "..", "./", "a", "a/", "/a", "/a/", "a/b", "/a/b/c", "a//b", "/a/./b",
    "./a", "a/.", "a/..", "../a", "/..", "/a/b.tar.gz", ".hidden", "a/b.",
];

#[test]
fn blanks_are_those_of_std() {
    for n in 0..=0x10ffffu32 {
        if let Some(c) = char::from_u32(n) {
            assert_eq!(is_space_char(c), c.is_whitespace());
        }
    }
}

#[test]
fn texts_are_trimmed_as_by_std() {
    for s in ["", " ", "a", " a ", "\t\na b\r\n", "\u{3000}x\u{85}", "a  b"] {
        assert_eq!(trim_text(s), s.trim());
    }
}

#[test]
fn lines_are_those_of_std() {
    for s in ["", "\n", "a", "a\n", "a\nb", "a\r\nb\r\n", "a\n\nb", "\r", "a\r", "a\r\r\n"] {
        let all: Vec<&str> = s.lines().collect();
        assert_eq!(split_lines(s), all);
    }
}

#[test]
fn numbers_are_written_as_by_std() {
    for n in [0, 1, 9, 10, 99, 100, 1234567890, u64::MAX] {
        assert_eq!(decimal_text(n), n.to_string());
    }
    for n in [0, 1, -1, 10, -10, i32::MAX, i32::MIN] {
        assert_eq!(decimal_int_text(n), n.to_string());
    }
}

#[test]
fn numbers_are_read_as_by_std() {
    for s in [
        "", "0", "1", "+1", "-1", "+", "00012", "4294967295", "4294967296", "99999999999999999999",
        " 1", "1 ", "1a", "++1", "+-1", "١",
    ] {
        assert_eq!(parse_u32(s), s.parse::<u32>().ok());
    }
}

#[test]
fn texts_are_joined_and_padded() {
    let parts = vec!["a".to_string(), "".to_string(), "c".to_string()];
    assert_eq!(join_texts(&parts, ", "), "a, , c");
    assert_eq!(join_texts(&Vec::new(), ", "), "");
    assert_eq!(pad_text("ab", 4), "ab  ");
    assert_eq!(pad_text("abcde", 4), "abcde");
    assert_eq!(pad_text("ü", 3), format!("{0: <3}", "ü"));
}

#[test]
fn texts_are_ordered_as_by_std() {
    let all = ["", "a", "aa", "ab", "b", "Z", "é", "\u{ffff}", "\u{10000}"];
    for a in all {
        for b in all {
            let place = match place_of(a, b) {
                Place::Before => -1,
                Place::Same => 0,
                Place::After => 1,
            };
            assert_eq!(place, a.cmp(b) as i32);
            assert_eq!(starts_with_text(a, b), a.starts_with(b));
        }
    }
}

#[test]
fn paths_are_split_as_by_std() {
    for p in PATHS {
        let all: Vec<String> = std::path::Path::new(p)
            .components()
            .map(|c| c.as_os_str().to_str().unwrap().to_string())
            .collect();
        assert_eq!(split_components(p), all);
    }
}

#[test]
fn paths_have_the_parent_and_stem_of_std() {
    for p in PATHS {
        let path = std::path::Path::new(p);
        assert_eq!(
            parent(p),
            path.parent().map(|d| d.to_str().unwrap().to_string())
        );
        assert_eq!(
            file_stem(p),
            path.file_stem().map(|d| d.to_str().unwrap().to_string())
        );
    }
}

#[test]
fn paths_are_joined_and_stripped_as_by_std() {
    for a in PATHS {
        for b in PATHS {
            assert_eq!(join(a, b), std::path::Path::new(a).join(b).to_str().unwrap());
            assert_eq!(
                strip_prefix(a, b),
                std::path::Path::new(a)
                    .strip_prefix(b)
                    .ok()
                    .map(|r| r.to_str().unwrap().to_string())
            );
        }
    }
}

#[test]
fn shared_directory_is_the_deepest() {
    let all = |paths: &[&str]| {
        common_path_all(&paths.iter().map(|p| p.to_string()).collect::<Vec<String>>())
    };
    assert_eq!(all(&[]), None);
    assert_eq!(all(&["/a/b"]), Some("/a/b".to_string()));
    assert_eq!(all(&["/a/b/c", "/a/b/d", "/a/b"]), Some("/a/b".to_string()));
    assert_eq!(all(&["/a/b", "/ab"]), Some("/".to_string()));
    assert_eq!(all(&["a/b", "/a/b"]), None);
    assert_eq!(all(&["a/x", "a/y"]), Some("a".to_string()));
}

#[test]
fn ancestor_and_rest_make_the_path_whole() {
    for (path, base) in [
        ("/home/u/a", "/home/u"),
        ("/home/u", "/home/u"),
        ("/home//u/./a/", "/home"),
        ("/x", "/"),
        ("a/b/c", "a"),
    ] {
        let rest = strip_prefix(path, base).unwrap();
        assert_eq!(split_components(&join(base, &rest)), split_components(path));
    }
}

#[test]
fn numbers_read_back() {
    for n in [0u32, 7, 10, 4_294_967_295] {
        assert_eq!(parse_u32(&decimal_text(u64::from(n))), Some(n));
    }
}

#[test]
fn json_strings_escape_what_would_end_them() {
    assert_eq!(json_string(""), "\"\"");
    assert_eq!(json_string("plain ü"), "\"plain ü\"");
    assert_eq!(json_string("a\"b"), "\"a\\\"b\"");
    assert_eq!(json_string("a\\b"), "\"a\\\\b\"");
    assert_eq!(json_string("a\\\"b"), "\"a\\\\\\\"b\"");
    assert_eq!(json_string("l1\nl2\r\tx"), "\"l1\\nl2\\r\\tx\"");
    assert_eq!(json_opt_string(&None), "null");
    assert_eq!(json_opt_string(&Some("null".to_string())), "\"null\"");
}
