use std::cmp::Ordering;
use aaf::write::names::{mangle, squeeze};

#[test]
fn mangles_names_as_pyaaf2_does() {
    assert_eq!(mangle("MetaDictionary", 1, 32), "MetaDictionary-1");
    assert_eq!(mangle("ClassDefinitions", 3, 22), "ClassDefinitions-3");
    // Too long: the ends are kept, a hyphen marks the cut.
    assert_eq!(
        mangle("ComponentAttributeList", 0xffc9, 22),
        "Componen-uteList-ffc9"
    );
    assert_eq!(mangle("MemberTypes", 0x1c, 32), "MemberTypes-1c");
}

#[test]
fn a_squeezed_name_is_exactly_as_long_as_asked() {
    assert_eq!(squeeze("abcdefgh", 5), "ab-gh");
    assert_eq!(squeeze("abcdefgh", 8), "abcdefgh");
    assert_eq!(squeeze("abcdefgh", 1), "-");
    assert_eq!(squeeze("abcdefgh", 0), "");
}

#[test]
fn shorter_names_sort_first_and_case_does_not_matter() {
    assert_eq!(aaf::cfb::names::cmp_names("zz", "aaa"), Ordering::Less);
    assert_eq!(aaf::cfb::names::cmp_names("Mobs", "mobs"), Ordering::Equal);
    assert_eq!(aaf::cfb::names::cmp_names("b", "A"), Ordering::Greater);
}
