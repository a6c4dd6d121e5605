use blocker::lines::split_lines;
use blocker::region::{collapse_blank_runs, drop_trailing_space, remove_lines};
use blocker::text::{chars_of, is_whitespace, string_of, trim_bounds, trimmed_eq};

const START: &str = "# start block";
const END: &str = "# end block";

fn text_lines(text: &str) -> Vec<String> {
    split_lines(&chars_of(text)).iter().map(string_of).collect()
}

#[test]
fn one_result() {
    let hosts = "\
127.0.0.1	localhost
127.0.1.1	anders-ThinkPad-X240

# start block
127.0.0.1   www.facebook.com
127.0.0.1   www.twitter.com
# end block

# The following lines are desirable for IPv6 capable hosts
::1     ip6-localhost ip6-loopback";

    assert_eq!(
        String::from(
            "\
127.0.0.1	localhost
127.0.1.1	anders-ThinkPad-X240

# The following lines are desirable for IPv6 capable hosts
::1     ip6-localhost ip6-loopback"
        ),
        remove_lines(hosts, "# start block\n", "# end block\n")
    );
}

#[test]
fn text_without_start_marker_is_only_trimmed() {
    let text = "127.0.0.1\tlocalhost\n\n::1 ip6-localhost\n  \n";
    assert_eq!(remove_lines(text, START, END), "127.0.0.1\tlocalhost\n\n::1 ip6-localhost");
    assert_eq!(remove_lines(text, START, END), text.trim());
}

#[test]
fn removal_twice_changes_nothing_more() {
    let text = "a\n\n# start block\nx\ny\n# end block\n\nb\n";
    let once = remove_lines(text, START, END);
    assert_eq!(once, "a\n\nb");
    assert_eq!(remove_lines(&once, START, END), once);
}

#[test]
fn region_without_end_marker_reaches_to_the_end() {
    assert_eq!(remove_lines("a\nb\n# start block\nc\nd", START, END), "a\nb");
}

#[test]
fn end_marker_before_start_marker_removes_nothing() {
    let text = "a\n# end block\nb\n# start block\nc";
    assert_eq!(remove_lines(text, START, END), text);
}

#[test]
fn markers_are_compared_without_surrounding_whitespace() {
    assert_eq!(remove_lines("a\n  # start block \t\nx\n\t# end block\nb", START, END), "a\nb");
    assert_eq!(remove_lines("a\n# start block\nx\n# end block\nb", "  # start block\n", " # end block "), "a\nb");
}

#[test]
fn every_end_marker_after_the_region_is_dropped() {
    assert_eq!(
        remove_lines("a\n# start block\nx\n# end block\nb\n# end block\nc", START, END),
        "a\nb\nc"
    );
}

#[test]
fn start_marker_after_the_region_stays() {
    assert_eq!(
        remove_lines("a\n# start block\nx\n# end block\nb\n# start block\nc", START, END),
        "a\nb\n# start block\nc"
    );
}

#[test]
fn equal_markers_remove_the_marker_lines_and_the_rest() {
    assert_eq!(remove_lines("a\n#\nb\n#\nc", "#", "#"), "a\nb\nc");
}

#[test]
fn long_runs_of_blank_lines_become_one_blank_line() {
    assert_eq!(remove_lines("a\n\n\n\n\n\nb", START, END), "a\n\nb");
    assert_eq!(remove_lines("\n\n\n\na", START, END), "\n\na");
    assert_eq!(string_of(&collapse_blank_runs(&chars_of("a\n\n\nb\n\nc\n\n\n\n"))), "a\n\nb\n\nc\n\n");
}

#[test]
fn carriage_returns_before_newlines_are_dropped() {
    assert_eq!(remove_lines("a\r\n# start block\r\nx\r\n# end block\r\nb\r\n", START, END), "a\nb");
}

#[test]
fn empty_text_stays_empty() {
    assert_eq!(remove_lines("", START, END), "");
    assert_eq!(remove_lines(" \n\t\n", START, END), "");
}

#[test]
fn lines_are_split_as_the_standard_library_splits_them() {
    for text in ["", "a", "a\n", "a\n\n", "\n", "\n\na", "a\r\nb", "a\rb\n", "a\r", "a\r\n\r\n", "\r\n", "x\n y \n\nz"] {
        let expected: Vec<String> = text.lines().map(String::from).collect();
        assert_eq!(text_lines(text), expected, "{:?}", text);
    }
}

#[test]
fn whitespace_is_what_the_standard_library_calls_whitespace() {
    for n in 0u32..=0x10FFFF {
        if let Some(c) = char::from_u32(n) {
            assert_eq!(is_whitespace(c), c.is_whitespace(), "{:?}", c);
        }
    }
}

#[test]
fn trimming_agrees_with_the_standard_library() {
    for text in ["", " ", "a", "  a b \t", "\u{a0}x\u{3000}", "\n\nx", "x\r\n"] {
        let chars = chars_of(text);
        let (lo, hi) = trim_bounds(&chars);
        let inner: String = chars[lo..hi].iter().collect();
        assert_eq!(inner, text.trim(), "{:?}", text);
        assert_eq!(string_of(&drop_trailing_space(chars)), text.trim_end(), "{:?}", text);
    }
    assert!(trimmed_eq(&chars_of(" ab\n"), &chars_of("ab")));
    assert!(!trimmed_eq(&chars_of("a b"), &chars_of("ab")));
    assert!(!trimmed_eq(&chars_of("ab"), &chars_of("abc")));
}

#[test]
fn strings_and_characters_convert_both_ways() {
    for text in ["", "abc", "127.0.0.1\texample.com", "h\u{e9}llo \u{1f600}"] {
        let chars = chars_of(text);
        assert_eq!(chars, text.chars().collect::<Vec<char>>());
        assert_eq!(string_of(&chars), text);
    }
}
