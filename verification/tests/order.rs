use localize::order::str_lt;
use localize::order::strcmp;
use localize::table::find_idx;

/// `strcmp` is exact string equality.
#[test]
fn test_strcmp() {
    assert!(strcmp("", ""));
    assert!(strcmp("abc", "abc"));
    assert!(!strcmp("abc", "abd"));
    assert!(!strcmp("abc", "ab"));
    assert!(!strcmp("ab", "abc"));
    assert!(strcmp("Adiós", "Adiós"));
    assert!(!strcmp("Adiós", "Adios"));
}

/// `str_lt` is strict lexicographic order by Unicode scalar value; a proper
/// prefix sorts before its extensions.
#[test]
fn test_str_lt() {
    assert!(str_lt("", "a"));
    assert!(!str_lt("a", ""));
    assert!(!str_lt("a", "a"));
    assert!(str_lt("ab", "b"));
    assert!(str_lt("ab", "abc"));
    assert!(!str_lt("abc", "ab"));
    assert!(str_lt("_", "apple"));
    assert!(str_lt("Z", "a"));
}

/// `find_idx` returns the first exact match, and 0 when there is none.
#[test]
fn test_find_idx() {
    let axis = vec![String::from("_"), String::from("apple"), String::from("greeting")];
    assert_eq!(find_idx(&axis, "_"), 0);
    assert_eq!(find_idx(&axis, "apple"), 1);
    assert_eq!(find_idx(&axis, "greeting"), 2);
    assert_eq!(find_idx(&axis, "farewell"), 0);
    assert_eq!(find_idx(&Vec::new(), "apple"), 0);
}
