use bivrost::text::{chars_of, decimal_string, replace_all, signed_decimal_string, split};

#[test]
fn decimal_of_small_and_large_numbers() {
    assert_eq!(decimal_string(0), "0");
    assert_eq!(decimal_string(9), "9");
    assert_eq!(decimal_string(10), "10");
    assert_eq!(decimal_string(1288), "1288");
    assert_eq!(decimal_string(u64::MAX), "18446744073709551615");
}

#[test]
fn decimal_agrees_with_the_standard_library() {
    for n in [0u64, 1, 7, 42, 99, 100, 101, 65535, 4294967296, u64::MAX - 1] {
        assert_eq!(decimal_string(n), n.to_string());
    }
}

#[test]
fn signed_decimal_carries_the_sign() {
    assert_eq!(signed_decimal_string(4000), "4000");
    assert_eq!(signed_decimal_string(0), "0");
    assert_eq!(signed_decimal_string(-1), "-1");
    assert_eq!(signed_decimal_string(i32::MIN), "-2147483648");
    assert_eq!(signed_decimal_string(i32::MAX), "2147483647");
}

#[test]
fn chars_of_keeps_every_character() {
    assert_eq!(chars_of("a\u{e6}\u{20a7}"), vec!['a', '\u{e6}', '\u{20a7}']);
    assert_eq!(chars_of(""), Vec::<char>::new());
}

#[test]
fn split_keeps_empty_pieces() {
    assert_eq!(split("a b  c", ' '), vec!["a", "b", "", "c"]);
    assert_eq!(split("", ' '), vec![""]);
    assert_eq!(split(" ", ' '), vec!["", ""]);
    assert_eq!(split("abc", ' '), vec!["abc"]);
    assert_eq!(split(" abc ", ' '), vec!["", "abc", ""]);
}

#[test]
fn split_agrees_with_the_standard_library() {
    for s in ["", " ", "  ", "a", "a b", "a  b ", " \u{e6} x", "one two three"] {
        let expected: Vec<String> = s.split(' ').map(|p| p.to_string()).collect();
        assert_eq!(split(s, ' '), expected);
    }
}

#[test]
fn joining_the_pieces_gives_the_text_back() {
    for s in ["", " ", "a  b ", "DOOR.EXE /D -N {fd}"] {
        assert_eq!(split(s, ' ').join(" "), s);
    }
}

#[test]
fn replace_all_works_from_the_left_without_overlap() {
    assert_eq!(replace_all("a{fd}b{fd}", "{fd}", "12"), "a12b12");
    assert_eq!(replace_all("aaa", "aa", "b"), "ba");
    assert_eq!(replace_all("aaaa", "aa", "a"), "aa");
    assert_eq!(replace_all("abc", "abcd", "x"), "abc");
    assert_eq!(replace_all("", "a", "x"), "");
    assert_eq!(replace_all("abc", "b", ""), "ac");
}

#[test]
fn replace_all_leaves_the_text_for_an_empty_pattern() {
    assert_eq!(replace_all("abc", "", "x"), "abc");
}

#[test]
fn replace_all_agrees_with_the_standard_library() {
    for s in ["", "{fd}", "{fd}{fd}", "{f{fd}d}", "x{fd", "fd}", "-N{fd}-", "{{fd}}"] {
        assert_eq!(replace_all(s, "{fd}", "1288"), s.replace("{fd}", "1288"));
    }
}

#[test]
fn numeral_reads_back_as_its_number() {
    for n in [0u64, 5, 10, 1288, 1 << 40, u64::MAX] {
        assert_eq!(decimal_string(n).parse::<u64>(), Ok(n));
    }
}
