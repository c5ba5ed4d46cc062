use sothr_lib::str_util::{is_palindrome, replace_char, replace_string, string_for_vector};

#[test]
fn test_string_for_vector() {
    let vec = vec![1, 2];
    assert_eq!("1,2", string_for_vector(vec));
}

#[test]
fn string_for_vector_edges() {
    assert_eq!("", string_for_vector(vec![]));
    assert_eq!("0", string_for_vector(vec![0]));
    assert_eq!("1,2,3", string_for_vector(vec![1, 2, 3]));
    assert_eq!("10,205,18446744073709551615", string_for_vector(vec![10, 205, u64::MAX]));
}

#[test]
fn palindromes() {
    assert!(is_palindrome("tenet"));
    assert!(!is_palindrome("iamnotapalindrome"));
    assert!(is_palindrome(""));
    assert!(is_palindrome("abba"));
    assert!(!is_palindrome("ab"));
}

#[test]
fn replace_char_examples() {
    assert_eq!("tast", replace_char("test", 'e', 'a'));
    assert_eq!("", replace_char("", 'e', 'a'));
    assert_eq!("xbxb", replace_char("abab", 'a', 'x'));
}

#[test]
fn replace_string_examples() {
    let s = "This is the string to replace stuff in";
    assert_eq!("This is the cow to replace stuff in", replace_string(s, "string", "cow"));
    assert_eq!("This is the string to replace stuff in", replace_string(s, "cow", "string"));
    assert_eq!("Thisisthestringtoreplacestuffin", replace_string(s, " ", ""));
    assert_eq!("bb", replace_string("aaaa", "aa", "b"));
    assert_eq!("bba", replace_string("aaaaa", "aa", "b"));
    assert_eq!("abc", replace_string("abc", "", "x"));
    assert_eq!("ab", replace_string("ab", "abc", "x"));
}
