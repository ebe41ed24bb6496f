use load_order::modname_cmp;
use std::cmp::Ordering;

#[test]
fn totality_plain_names() {
    assert_eq!(modname_cmp("Apple", "Apple"), Ordering::Equal);
    assert_eq!(modname_cmp("Apple", "Zebra"), Ordering::Less);
    assert_eq!(modname_cmp("Zebra", "Apple"), Ordering::Greater);
}

#[test]
fn totality_empty_strings() {
    assert_eq!(modname_cmp("", ""), Ordering::Equal);
    assert_eq!(modname_cmp("", "a"), Ordering::Less);
    assert_eq!(modname_cmp("a", ""), Ordering::Greater);
    assert_eq!(modname_cmp("", "!"), Ordering::Less);
    assert_eq!(modname_cmp("!", ""), Ordering::Greater);
}

#[test]
fn totality_symbol_only_strings() {
    assert_eq!(modname_cmp("!!!", "!!!"), Ordering::Equal);
    assert_eq!(modname_cmp("!", "~"), Ordering::Less);
    assert_eq!(modname_cmp("~", "!"), Ordering::Greater);
    assert_eq!(modname_cmp("***", "* *"), Ordering::Greater);
}

#[test]
fn prefix_grouping() {
    // An empty symbol prefix sorts before any non-empty one, so a name that
    // starts with an alphanumeric character comes first.
    assert_eq!(modname_cmp("Beta", "!Alpha"), Ordering::Less);
    assert_eq!(modname_cmp("!Alpha", "Beta"), Ordering::Greater);
}

#[test]
fn within_group_lexicographic() {
    // Prefixes "!" and "!!" differ, and "!" is a proper prefix of "!!".
    assert_eq!(modname_cmp("!Alpha", "!!Zeta"), Ordering::Less);
    assert_eq!(modname_cmp("!!Zeta", "!Alpha"), Ordering::Greater);
    // Equal prefixes fall back to full code-point order.
    assert_eq!(modname_cmp("!Alpha", "!Beta"), Ordering::Less);
    assert_eq!(modname_cmp("[B]mod", "[A]mod"), Ordering::Greater);
}

#[test]
fn antisymmetry_samples() {
    let pairs = [
        ("", "x"),
        ("a", "b"),
        ("!a", "a"),
        ("#Tagged", "Apple"),
        ("!Alpha", "!!Zeta"),
        ("same", "same"),
    ];
    for (a, b) in pairs {
        let ab = modname_cmp(a, b);
        let ba = modname_cmp(b, a);
        assert_eq!(ab == Ordering::Less, ba == Ordering::Greater);
        assert_eq!(ab == Ordering::Equal, ba == Ordering::Equal);
    }
}

#[test]
fn transitivity_sample() {
    assert_eq!(modname_cmp("Apple", "Beta"), Ordering::Less);
    assert_eq!(modname_cmp("Beta", "!Alpha"), Ordering::Less);
    assert_eq!(modname_cmp("Apple", "!Alpha"), Ordering::Less);
}

#[test]
fn equal_only_on_identical_strings() {
    assert_eq!(modname_cmp("! Mod", "! Mod"), Ordering::Equal);
    assert_ne!(modname_cmp("! Mod", "!Mod"), Ordering::Equal);
    assert_ne!(modname_cmp("mod", "Mod"), Ordering::Equal);
}

#[test]
fn unicode_alphanumeric_leads_to_empty_prefix() {
    // Letters and digits of any script count as alphanumeric, so these
    // names all carry the empty symbol prefix and sort by code point.
    assert_eq!(modname_cmp("0day", "Apple"), Ordering::Less);
    assert_eq!(modname_cmp("Éclair", "Ωmega"), Ordering::Less);
    assert_eq!(modname_cmp("Zebra", "é"), Ordering::Less);
}

#[test]
fn unicode_symbols_form_prefixes() {
    // An emoji is not alphanumeric: it forms a non-empty symbol prefix and
    // the name sorts after every empty-prefix name.
    assert_eq!(modname_cmp("Zebra", "\u{1F389}Party"), Ordering::Less);
    assert_eq!(modname_cmp("\u{1F389}Party", "Zebra"), Ordering::Greater);
    // Whitespace is not alphanumeric either.
    assert_eq!(modname_cmp(" space", "space"), Ordering::Greater);
}
