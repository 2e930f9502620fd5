//! Texts, paths and output of programs.

use wt::paths;
use wt::process::{decode, git_output, nul_paths, run, with_context, Output};
use wt::text;

fn strings(list: &[&str]) -> Vec<String> {
    list.iter().map(|s| s.to_string()).collect()
}

#[test]
fn texts_are_taken_apart_like_the_standard_library_does() {
    let samples = ["", "a", " a b ", "a\nb\r\n", "\n\n", "a,b,,c", "über\u{2003}x", "\u{3000}ä\u{3000}"];
    for s in samples {
        assert_eq!(text::trim(s), s.trim(), "{s:?}");
        assert_eq!(text::trim_start(s), s.trim_start(), "{s:?}");
        assert_eq!(text::trim_end(s), s.trim_end(), "{s:?}");
        assert_eq!(text::lines_of(s), s.lines().collect::<Vec<_>>(), "{s:?}");
        assert_eq!(text::split_whitespace(s), s.split_whitespace().collect::<Vec<_>>(), "{s:?}");
        assert_eq!(text::split_text(s, ','), s.split(',').collect::<Vec<_>>(), "{s:?}");
        assert_eq!(text::split_terminator(s, '\n'), s.split_terminator('\n').collect::<Vec<_>>(), "{s:?}");
        assert_eq!(text::replace(s, "b", "xy"), s.replace("b", "xy"), "{s:?}");
        assert_eq!(text::to_ascii_lowercase(s), s.to_ascii_lowercase(), "{s:?}");
        assert_eq!(text::contains(s, "b"), s.contains("b"), "{s:?}");
        assert_eq!(text::strip_prefix(s, "a").as_deref(), s.strip_prefix("a"), "{s:?}");
        assert_eq!(text::strip_suffix(s, "\n").as_deref(), s.strip_suffix("\n"), "{s:?}");
        assert_eq!(text::trim_end_matches(s, "\n"), s.trim_end_matches('\n'), "{s:?}");
        assert_eq!(
            text::split_once(s, ","),
            s.split_once(',').map(|(a, b)| (a.to_owned(), b.to_owned())),
            "{s:?}"
        );
        assert_eq!(
            text::rsplit_once(s, ","),
            s.rsplit_once(',').map(|(a, b)| (a.to_owned(), b.to_owned())),
            "{s:?}"
        );
    }
}

#[test]
fn numbers_are_read_and_written() {
    for s in ["0", "42", "+7", "-1", "", "+", "65535", "65536", "00012", "18446744073709551615", "18446744073709551616", "1 "] {
        assert_eq!(text::parse_u64(s), s.parse().ok(), "{s:?}");
        assert_eq!(text::parse_u16(s), s.parse().ok(), "{s:?}");
    }
    for n in [0, 9, 10, 12345, u64::MAX] {
        assert_eq!(text::to_decimal(n), n.to_string());
    }
    assert_eq!(text::to_decimal_wide(u128::MAX), u128::MAX.to_string());
    assert_eq!(text::to_hexadecimal(0xabc, 16), "0000000000000abc");
}

#[test]
fn texts_are_sorted_by_their_characters() {
    let list = strings(&["b", "a", "ä", "", "ab", "a"]);
    let mut sorted = list.clone();
    sorted.sort();
    assert_eq!(text::sort(&list), sorted);
    sorted.dedup();
    assert_eq!(text::sort_unique(&list), sorted);
}

#[test]
fn paths_are_taken_apart_like_the_standard_library_does() {
    let samples = ["", "/", "a", "/a/b", "a/b/", "./a", "a/./b", "a//b", "../x", ".", "..", "a/..", ".env", "a.tar.gz", "/.x/"];
    for s in samples {
        let path = std::path::Path::new(s);
        let text = |part: Option<&std::path::Path>| part.map(|part| part.to_str().unwrap().to_owned());
        assert_eq!(paths::parent(s), text(path.parent()), "{s:?}");
        assert_eq!(
            paths::file_name(s).as_deref(),
            path.file_name().map(|name| name.to_str().unwrap()),
            "{s:?}"
        );
        assert_eq!(
            paths::extension(s).as_deref(),
            path.extension().map(|name| name.to_str().unwrap()),
            "{s:?}"
        );
        assert_eq!(paths::is_absolute(s), path.is_absolute(), "{s:?}");
        let parts: Vec<String> =
            path.components().map(|part| part.as_os_str().to_str().unwrap().to_owned()).collect();
        assert_eq!(paths::components_of(s), parts, "{s:?}");
        for other in samples {
            let second = std::path::Path::new(other);
            assert_eq!(paths::join(s, other), path.join(other).to_str().unwrap(), "{s:?} {other:?}");
            assert_eq!(paths::starts_with(s, other), path.starts_with(other), "{s:?} {other:?}");
            assert_eq!(paths::same(s, other), path == second, "{s:?} {other:?}");
            assert_eq!(paths::precedes(s, other), path < second, "{s:?} {other:?}");
            assert_eq!(
                paths::strip_prefix(s, other),
                text(path.strip_prefix(other).ok()),
                "{s:?} {other:?}"
            );
        }
        let above: Vec<String> = path
            .ancestors()
            .skip(1)
            .filter(|part| !part.as_os_str().is_empty())
            .map(|part| part.to_str().unwrap().to_owned())
            .collect();
        assert_eq!(paths::ancestors(s), above, "{s:?}");
    }
}

#[test]
fn output_of_programs_is_read() {
    let output = |code: Option<i32>, stdout: &[u8], stderr: &[u8]| Output {
        code,
        stdout: stdout.to_vec(),
        stderr: stderr.to_vec(),
    };
    assert_eq!(git_output(&output(Some(0), b" main \n", b"")).unwrap(), "main");
    assert!(run(&output(Some(1), b"", b"fatal: no\n")).err().unwrap().contains("fatal: no"));
    assert!(run(&output(None, b"", b"")).is_err());
    assert!(run(&output(Some(0), b"", b"noise")).is_ok());
    assert!(decode(&vec![0xff]).is_err());
    assert_eq!(decode(&"ü".as_bytes().to_vec()).unwrap(), "ü");
    assert_eq!(nul_paths(&b"a\0\0b c\0".to_vec()).unwrap(), ["a", "b c"]);
    assert!(nul_paths(&vec![0xff, 0]).is_err());
    assert_eq!(with_context("read", "denied"), "read: denied");
    assert_eq!(output(Some(1), b"", b" bad \xff\n").complaint_text(), "bad \u{fffd}");
}
