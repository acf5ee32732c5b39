use alpm::ComparisonResult;
use alpm::compare::compare_versions;

#[test]
fn vercmp_less() {
    assert_eq!(ComparisonResult::Less, compare_versions("1", "1.0-2"));
    assert_eq!(ComparisonResult::Less, compare_versions("1.1", "1.1.2"));
    assert_eq!(ComparisonResult::Less, compare_versions("1.1", "1.2"));
    assert_eq!(ComparisonResult::Less, compare_versions("1.9", "2"));
    assert_eq!(ComparisonResult::Less, compare_versions("1.1.10", "2"));
    assert_eq!(ComparisonResult::Less, compare_versions("1", "2"));
}

#[test]
fn vercmp_equal() {
    assert_eq!(ComparisonResult::Equal, compare_versions("1.0", "1.0-2"));
    assert_eq!(ComparisonResult::Equal, compare_versions("1:1-1", "1:1-1"));
}

#[test]
fn vercmp_greater() {
    assert_eq!(ComparisonResult::Greater, compare_versions("2.0-1", "1.0-1"));
}

#[test]
fn epoch_dominates() {
    assert_eq!(ComparisonResult::Greater, compare_versions("2:0-1", "1:9-9"));
    assert_eq!(ComparisonResult::Greater, compare_versions("2:1", "1:999"));
    assert_eq!(ComparisonResult::Less, compare_versions("0.9", "1:0.1"));
}

#[test]
fn missing_epoch_is_zero() {
    assert_eq!(ComparisonResult::Equal, compare_versions("0:1.0", "1.0"));
    assert_eq!(ComparisonResult::Greater, compare_versions("1:0.1", "0.9"));
}

#[test]
fn leading_zeros_compare_numerically() {
    assert_eq!(ComparisonResult::Equal, compare_versions("1.02", "1.2"));
    assert_eq!(ComparisonResult::Less, compare_versions("1.002", "1.10"));
    assert_eq!(ComparisonResult::Greater, compare_versions("1.010", "1.9"));
}

#[test]
fn alphabetic_suffix_is_older() {
    assert_eq!(ComparisonResult::Less, compare_versions("1.0a", "1.0"));
    assert_eq!(ComparisonResult::Greater, compare_versions("1.0", "1.0a"));
    assert_eq!(ComparisonResult::Less, compare_versions("1.0", "1.0.1"));
}

#[test]
fn digit_segment_outranks_letters() {
    assert_eq!(ComparisonResult::Greater, compare_versions("2", "a"));
    assert_eq!(ComparisonResult::Less, compare_versions("beta", "1"));
}

#[test]
fn non_numeric_epoch_falls_back_to_segments() {
    assert_eq!(ComparisonResult::Less, compare_versions("1.5:2", "2:1"));
    assert_eq!(ComparisonResult::Greater, compare_versions("10.1:0", "9.9:5"));
}

#[test]
fn empty_is_oldest() {
    assert_eq!(ComparisonResult::Less, compare_versions("", "1"));
    assert_eq!(ComparisonResult::Equal, compare_versions("", ""));
}

#[test]
fn release_breaks_tie_when_both_present() {
    assert_eq!(ComparisonResult::Less, compare_versions("1.0-1", "1.0-2"));
    assert_eq!(ComparisonResult::Equal, compare_versions("1.0-2", "1.0-2"));
    assert_eq!(ComparisonResult::Greater, compare_versions("1.0-10", "1.0-9"));
}

#[test]
fn comparison_is_antisymmetric_on_samples() {
    let samples = ["1", "1.0", "1.0-2", "2:1-1", "1.0a", "0.9.9", ""];
    for a in samples.iter() {
        for b in samples.iter() {
            let ab = compare_versions(a, b);
            let ba = compare_versions(b, a);
            match ab {
                ComparisonResult::Less => assert_eq!(ba, ComparisonResult::Greater),
                ComparisonResult::Equal => assert_eq!(ba, ComparisonResult::Equal),
                ComparisonResult::Greater => assert_eq!(ba, ComparisonResult::Less),
            }
        }
    }
}

#[test]
fn comparison_is_reflexive_on_samples() {
    let samples = ["", "1", "1.0-2", "3:2.1b-4", ":", "-"];
    for a in samples.iter() {
        assert_eq!(ComparisonResult::Equal, compare_versions(a, a));
    }
}
