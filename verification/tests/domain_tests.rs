// Domains and their canonical form.

use conjure_core::ast::{DecisionVariable, Domain, Range};

fn domain(ranges: &[Range<i32>]) -> Domain {
    Domain::IntDomain(ranges.to_vec())
}

#[test]
fn bounds_of_ranges() {
    assert_eq!(Range::Single(4).lower(), 4);
    assert_eq!(Range::Single(4).upper(), 4);
    assert_eq!(Range::Bounded(-2, 7).lower(), -2);
    assert_eq!(Range::Bounded(-2, 7).upper(), 7);
    assert!(Range::Single(1).same_as(&Range::Single(1)));
    assert!(!Range::Single(1).same_as(&Range::Bounded(1, 1)));
    assert!(!Range::Bounded(1, 2).same_as(&Range::Bounded(1, 3)));
}

#[test]
fn membership_in_a_domain() {
    let d = domain(&[Range::Bounded(1, 3), Range::Single(7)]);
    for v in [1, 2, 3, 7] {
        assert!(d.contains_int(v));
    }
    for v in [0, 4, 6, 8, i32::MIN, i32::MAX] {
        assert!(!d.contains_int(v));
    }
    assert!(!Domain::BoolDomain.contains_int(0));
    assert!(!domain(&[]).contains_int(0));
    assert!(!domain(&[Range::Bounded(3, 1)]).contains_int(2));
}

#[test]
fn canonical_domains() {
    assert!(Domain::BoolDomain.is_canonical());
    assert!(domain(&[Range::Single(1)]).is_canonical());
    assert!(domain(&[Range::Bounded(1, 3)]).is_canonical());
    assert!(domain(&[Range::Bounded(1, 3), Range::Single(5), Range::Bounded(7, 9)]).is_canonical());
    assert!(domain(&[Range::Single(i32::MIN), Range::Single(i32::MAX)]).is_canonical());
    // A closed pair of equal bounds holds one value, and there is nothing
    // to merge.
    assert!(domain(&[Range::Bounded(3, 3)]).is_canonical());
    assert!(domain(&[Range::Bounded(1, 1), Range::Bounded(3, 3)]).is_canonical());
    assert!(!domain(&[Range::Bounded(1, 1), Range::Bounded(2, 2)]).is_canonical());
}

#[test]
fn domains_that_are_not_canonical() {
    // empty
    assert!(!domain(&[]).is_canonical());
    // an interval of no value
    assert!(!domain(&[Range::Bounded(3, 1)]).is_canonical());
    assert!(!domain(&[Range::Single(0), Range::Bounded(3, 2)]).is_canonical());
    // adjacent
    assert!(!domain(&[Range::Bounded(1, 3), Range::Single(4)]).is_canonical());
    // overlapping
    assert!(!domain(&[Range::Bounded(1, 3), Range::Bounded(3, 5)]).is_canonical());
    // out of order
    assert!(!domain(&[Range::Single(5), Range::Single(1)]).is_canonical());
    // twice the same
    assert!(!domain(&[Range::Single(5), Range::Single(5)]).is_canonical());
}

#[test]
fn domains_compare_by_their_ranges() {
    assert_eq!(domain(&[Range::Bounded(1, 3)]), domain(&[Range::Bounded(1, 3)]));
    assert_ne!(domain(&[Range::Bounded(1, 3)]), domain(&[Range::Bounded(1, 4)]));
    assert_ne!(domain(&[Range::Single(1)]), domain(&[Range::Bounded(1, 1)]));
    assert_ne!(domain(&[]), Domain::BoolDomain);
    assert_eq!(Domain::BoolDomain, Domain::BoolDomain);
    let d = domain(&[Range::Bounded(1, 3), Range::Single(9)]);
    assert_eq!(d.clone(), d);
    let v = DecisionVariable::new(d.clone());
    assert_eq!(v.clone(), v);
    assert_eq!(v.domain, d);
}

#[test]
fn canonical_form_sorts_and_merges() {
    assert_eq!(
        domain(&[
            Range::Bounded(5, 9),
            Range::Bounded(1, 3),
            Range::Single(4),
            Range::Single(20),
            Range::Bounded(11, 10),
            Range::Bounded(7, 8),
        ])
        .canonical_form(),
        domain(&[Range::Bounded(1, 9), Range::Single(20)])
    );
}

#[test]
fn canonical_form_writes_single_values_as_such() {
    assert_eq!(
        domain(&[Range::Bounded(2, 2)]).canonical_form(),
        domain(&[Range::Single(2)])
    );
    assert_eq!(
        domain(&[Range::Single(2), Range::Single(3)]).canonical_form(),
        domain(&[Range::Bounded(2, 3)])
    );
    assert_eq!(
        domain(&[Range::Single(2), Range::Single(4)]).canonical_form(),
        domain(&[Range::Single(2), Range::Single(4)])
    );
    assert_eq!(
        domain(&[Range::Single(2), Range::Single(2)]).canonical_form(),
        domain(&[Range::Single(2)])
    );
}

#[test]
fn canonical_form_at_the_ends_of_the_integers() {
    assert_eq!(
        domain(&[
            Range::Single(i32::MAX),
            Range::Bounded(i32::MIN, -1),
            Range::Bounded(0, i32::MAX - 1)
        ])
        .canonical_form(),
        domain(&[Range::Bounded(i32::MIN, i32::MAX)])
    );
    assert_eq!(
        domain(&[Range::Single(i32::MAX), Range::Single(i32::MIN)]).canonical_form(),
        domain(&[Range::Single(i32::MIN), Range::Single(i32::MAX)])
    );
}

#[test]
fn canonical_form_of_nothing_is_empty() {
    assert_eq!(domain(&[]).canonical_form(), domain(&[]));
    assert_eq!(domain(&[Range::Bounded(3, 1)]).canonical_form(), domain(&[]));
    assert_eq!(Domain::BoolDomain.canonical_form(), Domain::BoolDomain);
}

#[test]
fn canonical_form_keeps_the_values_and_is_canonical() {
    let samples = [
        vec![Range::Bounded(1, 3), Range::Single(5), Range::Bounded(4, 4)],
        vec![Range::Bounded(10, 12), Range::Bounded(-3, 0), Range::Bounded(0, 9)],
        vec![Range::Single(7), Range::Single(5), Range::Single(3), Range::Single(6)],
        vec![Range::Bounded(1, 10), Range::Bounded(2, 3), Range::Bounded(12, 13)],
        vec![Range::Bounded(5, 1), Range::Single(2)],
    ];
    for ranges in samples {
        let given = domain(&ranges);
        let canonical = given.canonical_form();
        assert!(canonical.is_canonical(), "{:?}", canonical);
        for v in -5..16 {
            assert_eq!(canonical.contains_int(v), given.contains_int(v));
        }
        // Canonical already, so unchanged.
        assert_eq!(canonical.canonical_form(), canonical);
        // The order in which the ranges are given does not matter.
        let mut reversed = ranges.clone();
        reversed.reverse();
        assert_eq!(domain(&reversed).canonical_form(), canonical);
    }
}
