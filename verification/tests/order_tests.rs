// The order of strings and of names.

use conjure_core::ast::Name;
use conjure_core::text::str_lt;

#[test]
fn strings_are_ordered_as_the_standard_library_orders_them() {
    let samples = [
        "", "a", "A", "aa", "ab", "b", "ba", "sum", "sum_constants", "unwrap_sum", "z", "é", "ü",
        "日本", "a\u{10000}", "a\u{ffff}", "~", "_", "0", "10", "9",
    ];
    for a in samples {
        for b in samples {
            assert_eq!(str_lt(a, b), a < b, "{:?} < {:?}", a, b);
        }
    }
}

#[test]
fn a_prefix_comes_first() {
    assert!(str_lt("remove_trivial", "remove_trivial_and"));
    assert!(!str_lt("remove_trivial_and", "remove_trivial"));
    assert!(!str_lt("same", "same"));
    assert!(str_lt("", "x"));
    assert!(!str_lt("", ""));
}

fn names() -> Vec<Name> {
    vec![
        Name::UserName(String::new()),
        Name::UserName(String::from("a")),
        Name::UserName(String::from("ab")),
        Name::UserName(String::from("b")),
        Name::MachineName(i32::MIN),
        Name::MachineName(-1),
        Name::MachineName(0),
        Name::MachineName(17),
    ]
}

#[test]
fn names_are_totally_ordered() {
    let all = names();
    for (i, a) in all.iter().enumerate() {
        for (j, b) in all.iter().enumerate() {
            assert_eq!(a.precedes(b), i < j, "{:?} before {:?}", a, b);
            assert_eq!(a < b, i < j);
            assert_eq!(a > b, i > j);
            assert_eq!(a <= b, i <= j);
            assert_eq!(a == b, i == j);
            assert_eq!(a.cmp(b), i.cmp(&j));
            assert_eq!(a.partial_cmp(b), Some(i.cmp(&j)));
        }
    }
}

#[test]
fn user_names_come_before_machine_names() {
    assert!(Name::UserName(String::from("zzz")).precedes(&Name::MachineName(i32::MIN)));
    assert!(!Name::MachineName(i32::MIN).precedes(&Name::UserName(String::from("zzz"))));
}

#[test]
fn a_copy_of_a_name_equals_the_name() {
    for n in names() {
        assert_eq!(n.clone(), n);
    }
}
