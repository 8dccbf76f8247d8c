//! Paths and texts.

use std::path::Path;
use zccache::order::{sort_pairs, sort_texts};
use zccache::path::{
    ancestors, clean_path, extension, file_name, file_stem, is_absolute, is_under, join,
    normalize_for_key, path_parts, resolve, same_path, sort_paths, strip_root, NormalizedPath,
    PathStyle,
};
use zccache::text::{parse_u64, split_char, to_lower, trim};

const UNIX: PathStyle = PathStyle::Unix;
const WINDOWS: PathStyle = PathStyle::Windows;

#[test]
fn paths_are_cleaned() {
    for (given, shortest) in [
        ("/a//b/./c/", "/a/b/c"),
        ("./a/./b", "./a/b"),
        ("a/../b", "a/../b"),
        ("", ""),
        ("/", "/"),
        ("//a", "/a"),
        (".", "."),
        ("a\\b", "a\\b"),
    ] {
        assert_eq!(clean_path(UNIX, given), shortest, "{given}");
        assert_eq!(clean_path(UNIX, shortest), shortest);
    }
    assert_eq!(clean_path(WINDOWS, r"C:\A\.\b\\"), "C:/A/b");
    assert_eq!(clean_path(WINDOWS, r"\\srv\share\x"), "//srv/share/x");
    assert_eq!(normalize_for_key(WINDOWS, r"C:\A\B"), "c:/a/b");
    assert_eq!(normalize_for_key(UNIX, "/A//B"), "/A/B");
}

/// On Unix the parts are those of the standard library.
#[test]
fn unix_paths_agree_with_std() {
    let samples = [
        "", "/", "//", "a", "/a", "a/", "./a", "a/.", ".", "..", "/..", "a//b", "a/./b", "a/../b",
        "/a/b.tar.gz", ".bashrc", "a.", "/a/..", "///a/b/", "rustc.exe",
    ];
    for a in samples {
        let p = Path::new(a);
        assert_eq!(is_absolute(UNIX, a), p.is_absolute(), "{a}");
        let name = p.file_name().map(|n| n.to_str().unwrap().to_string());
        assert_eq!(file_name(UNIX, a), name, "{a}");
        let stem = p.file_stem().map(|n| n.to_str().unwrap().to_string());
        assert_eq!(file_stem(UNIX, a), stem, "{a}");
        let ext = p.extension().map(|n| n.to_str().unwrap().to_string());
        assert_eq!(extension(UNIX, a), ext, "{a}");
        let parts: Vec<String> = p
            .components()
            .map(|c| c.as_os_str().to_str().unwrap().to_string())
            .collect();
        assert_eq!(path_parts(UNIX, a), parts, "{a}");
        assert_eq!(ancestors(UNIX, a).len(), p.ancestors().count(), "{a}");
        for b in samples {
            let q = Path::new(b);
            assert_eq!(same_path(UNIX, a, b), p == q, "{a} {b}");
            assert_eq!(is_under(UNIX, a, b), p.starts_with(q), "{a} {b}");
            assert_eq!(join(UNIX, a, b), p.join(q).to_str().unwrap(), "{a} {b}");
            match (strip_root(UNIX, a, b), p.strip_prefix(q)) {
                (Some(rest), Ok(std_rest)) => assert_eq!(Path::new(&rest), std_rest, "{a} {b}"),
                (None, Err(_)) => {}
                other => panic!("{a} {b}: {other:?}"),
            }
            let mut sorted = vec![p, q];
            sorted.sort();
            let ours = sort_paths(
                UNIX,
                vec![NormalizedPath::new(UNIX, a), NormalizedPath::new(UNIX, b)],
            );
            assert_eq!(Path::new(ours[0].as_str()), sorted[0], "{a} {b}");
            assert_eq!(Path::new(ours[1].as_str()), sorted[1], "{a} {b}");
        }
    }
}

#[test]
fn windows_paths_have_drives_and_both_slashes() {
    assert!(is_absolute(WINDOWS, r"C:\a"));
    assert!(is_absolute(WINDOWS, "c:/a"));
    assert!(is_absolute(WINDOWS, r"\\srv\share"));
    assert!(!is_absolute(WINDOWS, r"\a"));
    assert!(!is_absolute(WINDOWS, "C:a"));
    assert!(same_path(WINDOWS, r"C:\a", "c:/a"));
    assert!(!same_path(WINDOWS, r"C:\A", "c:/a"));
    assert_eq!(strip_root(WINDOWS, r"C:\w\src\a.c", "c:/w"), Some("src/a.c".to_string()));
    assert_eq!(join(WINDOWS, r"C:\w", "a"), r"C:\w\a");
    assert_eq!(resolve(WINDOWS, r"C:\w", r"D:\x"), r"D:\x");
    assert_eq!(join(WINDOWS, r"C:\w", r"\x"), r"C:\x");
    assert_eq!(join(WINDOWS, r"C:\w", "D:x"), "D:x");
    assert_eq!(join(WINDOWS, "C:", "x"), "C:x");
    assert_eq!(file_name(WINDOWS, "C:x.exe"), Some("x.exe".to_string()));
    assert_eq!(file_stem(WINDOWS, "C:x.exe"), Some("x".to_string()));
    assert_eq!(file_name(WINDOWS, "C:"), None);
    assert_eq!(file_name(UNIX, "a/C:"), Some("C:".to_string()));
    assert_eq!(clean_path(WINDOWS, r"c:a\\b\.\"), "c:a/b");
    assert_eq!(clean_path(WINDOWS, r"c:.\a"), "c:./a");
    assert!(is_under(WINDOWS, r"C:\a", "c:"));
    assert!(is_under(WINDOWS, "C:a", "c:"));
    assert!(!same_path(WINDOWS, r"C:\a", "C:a"));
    assert_eq!(strip_root(WINDOWS, r"C:\a", "C:"), Some("/a".to_string()));
    assert_eq!(
        ancestors(WINDOWS, r"C:\a"),
        vec!["C:/a".to_string(), "C:/".to_string()]
    );
    assert_eq!(
        ancestors(WINDOWS, "C:a"),
        vec!["C:a".to_string(), "C:".to_string()]
    );
    assert_eq!(join(WINDOWS, r"\w", r"\x"), r"\x");
    assert_eq!(join(WINDOWS, "w/", "x"), "w/x");
}

#[test]
fn texts_are_read_like_std_reads_them() {
    for text in ["", " a b\t", "\u{a0}x\u{3000}", "\u{200b}y", "\u{85}", "é "] {
        assert_eq!(trim(text), text.trim(), "{text:?}");
    }
    for text in ["", "a", "a\nb", "\n", "a\n\nb\n"] {
        let pieces: Vec<String> = text.split('\n').map(|p| p.to_string()).collect();
        assert_eq!(split_char(text, '\n'), pieces, "{text:?}");
    }
    for text in [
        "", "+", "0", "007", "+1", "-1", "1 ", "18446744073709551615", "18446744073709551616",
        "99999999999999999999", "1a",
    ] {
        assert_eq!(parse_u64(text), text.parse::<u64>().ok(), "{text:?}");
    }
    assert_eq!(to_lower("AbÉZ@["), "AbÉZ@[".to_ascii_lowercase());
}

#[test]
fn sorting_agrees_with_std() {
    let list: Vec<String> = ["b", "", "ab", "é", "a", "b", "\u{10000}", "\u{ffff}"]
        .iter()
        .map(|t| t.to_string())
        .collect();
    let mut sorted = list.clone();
    sorted.sort();
    assert_eq!(sort_texts(list.clone()), sorted);
    let pairs: Vec<(String, String)> = list
        .iter()
        .flat_map(|a| list.iter().map(move |b| (a.clone(), b.clone())))
        .collect();
    let mut sorted = pairs.clone();
    sorted.sort();
    assert_eq!(sort_pairs(pairs), sorted);
}

#[test]
fn a_share_is_one_prefix() {
    let file = r"\\server\share\a\x.c";
    assert_eq!(
        path_parts(WINDOWS, file),
        vec![r"\//server/share", r"\", "a", "x.c"]
    );
    assert_eq!(clean_path(WINDOWS, file), "//server/share/a/x.c");
    assert_eq!(
        ancestors(WINDOWS, file),
        vec!["//server/share/a/x.c", "//server/share/a", "//server/share/"]
    );
    assert_eq!(file_name(WINDOWS, file), Some("x.c".to_string()));
    for share in [r"\\server\share", r"\\server\share\", "//server/share"] {
        assert!(is_absolute(WINDOWS, share), "{share}");
        assert_eq!(clean_path(WINDOWS, share), "//server/share/", "{share}");
        assert_eq!(ancestors(WINDOWS, share), vec!["//server/share/"], "{share}");
        assert_eq!(file_name(WINDOWS, share), None, "{share}");
        assert_eq!(
            strip_root(WINDOWS, file, share),
            Some("a/x.c".to_string()),
            "{share}"
        );
        assert!(same_path(WINDOWS, share, "//server/share"));
    }
    assert!(!is_under(WINDOWS, file, r"\\server"));
    assert!(!is_under(WINDOWS, file, r"\\server\other"));
    assert!(!same_path(WINDOWS, file, "//Server/share/a/x.c"));
    assert_eq!(join(WINDOWS, r"\\server\share", "x"), r"\\server\share\x");
    assert_eq!(join(WINDOWS, r"\\server\share\a", r"\x"), r"\\server\share\x");
    assert_eq!(join(WINDOWS, r"C:\a", file), file);
    assert_eq!(normalize_for_key(WINDOWS, file), "//server/share/a/x.c");

    // Without a share there is no prefix.
    assert!(!is_absolute(WINDOWS, r"\\server"));
    assert!(!is_absolute(WINDOWS, r"\\server\"));
    assert_eq!(path_parts(WINDOWS, r"\\server\"), vec![r"\", "server"]);
    assert_eq!(path_parts(WINDOWS, r"\\\share"), vec![r"\", "share"]);
    // Two slashes mean nothing more than one on Unix.
    assert_eq!(path_parts(UNIX, "//server/share"), vec!["/", "server", "share"]);
}

#[test]
fn a_device_is_one_prefix() {
    assert_eq!(path_parts(WINDOWS, r"\\.\COM1"), vec![r"\//./COM1", r"\"]);
    assert!(is_absolute(WINDOWS, r"\\.\COM1"));
    assert_eq!(file_name(WINDOWS, r"\\.\COM1"), None);
    assert_eq!(
        ancestors(WINDOWS, r"\\.\pipe\x"),
        vec!["//./pipe/x", "//./pipe/"]
    );
}

#[test]
fn verbatim_paths_are_read_as_they_are() {
    let file = r"\\?\C:\a/b\.\x";
    assert_eq!(
        path_parts(WINDOWS, file),
        vec![r"\\\?\C:", r"\", "a/b", ".", "x"]
    );
    assert_eq!(clean_path(WINDOWS, file), file);
    assert!(is_absolute(WINDOWS, file));
    assert!(is_absolute(WINDOWS, r"\\?\C:"));
    assert_eq!(
        ancestors(WINDOWS, r"\\?\C:\a"),
        vec![r"\\?\C:\a", r"\\?\C:\"]
    );
    assert_eq!(file_name(WINDOWS, r"\\?\C:\a"), Some("a".to_string()));
    assert_eq!(file_name(WINDOWS, r"\\?\C:\a\."), None);
    assert_eq!(file_name(WINDOWS, r"\\?\C:"), None);
    assert!(same_path(WINDOWS, r"\\?\C:\a", r"\\?\c:\a"));
    assert!(!same_path(WINDOWS, r"\\?\C:\a", r"C:\a"));
    assert_eq!(
        path_parts(WINDOWS, r"\\?\UNC\server\share\x"),
        vec![r"\\\?\UNC\server\share", r"\", "x"]
    );
    assert_eq!(
        ancestors(WINDOWS, r"\\?\UNC\server\share\x"),
        vec![r"\\?\UNC\server\share\x", r"\\?\UNC\server\share\"]
    );
    assert_eq!(
        path_parts(WINDOWS, r"\\?\Volume{1}\x"),
        vec![r"\\\?\Volume{1}", r"\", "x"]
    );
    // Only backslashes write such a prefix.
    assert_eq!(
        path_parts(WINDOWS, "//?/C:/x"),
        vec![r"\//?/C:", r"\", "x"]
    );

    // What is seen from such a path is worked out at once.
    assert_eq!(join(WINDOWS, r"\\?\C:\a\b", r"..\.\c/d"), r"\\?\C:\a\c\d");
    assert_eq!(join(WINDOWS, r"\\?\C:\a", r"..\..\..\b"), r"\\?\C:\b");
    assert_eq!(join(WINDOWS, r"\\?\C:\a", "/x"), r"\\?\C:\x");
    assert_eq!(join(WINDOWS, r"\\?\C:\a", ""), r"\\?\C:\a\");
    assert_eq!(join(WINDOWS, r"\\?\C:\a", "D:x"), "D:x");
    assert_eq!(
        strip_root(WINDOWS, r"\\?\C:\w\src\x.c", r"\\?\c:\w"),
        Some("src/x.c".to_string())
    );
}

#[test]
fn what_is_left_below_a_root_comes_back_under_it() {
    for (style, file, root) in [
        (UNIX, "/w/a/x.c", "/w"),
        (UNIX, "w/a/x.c", "w"),
        (UNIX, "./a/x.c", "."),
        (UNIX, "a/x.c", ""),
        (UNIX, "../a/x.c", ".."),
        (WINDOWS, "C:/w/x.c", "C:/w"),
        (WINDOWS, "C:/w/x.c", "C:"),
        (WINDOWS, "C:w/x.c", "C:"),
        (WINDOWS, "C:w/x.c", "C:w"),
        (WINDOWS, "w/x.c", "w"),
        (WINDOWS, "//server/share/w/x.c", "//server/share"),
        (WINDOWS, "//server/share/w/x.c", "//server/share/w"),
        (WINDOWS, "//./pipe/x", "//./pipe"),
        (WINDOWS, r"\\?\C:\w\x.c", r"\\?\C:"),
        (WINDOWS, r"\\?\C:\w\x.c", r"\\?\C:\w"),
    ] {
        let rest = strip_root(style, file, root).unwrap();
        let again = join(style, root, &rest);
        assert_eq!(clean_path(style, &again), clean_path(style, file), "{file} below {root}");
    }
    // A drive letter in another case writes the same path.
    let rest = strip_root(WINDOWS, "C:/w/x.c", "c:/w").unwrap();
    let again = join(WINDOWS, "c:/w", &rest);
    assert!(same_path(WINDOWS, &again, "C:/w/x.c"));
    assert_eq!(clean_path(WINDOWS, &again), "c:/w/x.c");
    // Some texts do not go together again.
    let rest = strip_root(WINDOWS, "C:/D:/x", "C:/").unwrap();
    assert_eq!(join(WINDOWS, "C:/", &rest), "D:/x");
    assert_eq!(strip_root(WINDOWS, "//server", "//"), Some("server".to_string()));
}
