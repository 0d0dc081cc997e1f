use stobot::platforms::{eq_ignore_case, icon_for, platforms_match};

fn tags(v: &[&str]) -> Vec<String> {
    v.iter().map(|s| String::from(*s)).collect()
}

#[test]
fn match_is_case_insensitive() {
    assert!(platforms_match(&tags(&["PC"]), &tags(&["pc"])));
    assert!(platforms_match(&tags(&["pc"]), &tags(&["PC"])));
    assert!(platforms_match(&tags(&["Xbox", "ps"]), &tags(&["XBOX"])));
}

#[test]
fn match_is_symmetric() {
    let a = tags(&["pc", "ps"]);
    let b = tags(&["PS", "xbox"]);
    assert_eq!(platforms_match(&a, &b), platforms_match(&b, &a));
    let c = tags(&["wii"]);
    assert_eq!(platforms_match(&a, &c), platforms_match(&c, &a));
}

#[test]
fn disjoint_sets_do_not_match() {
    assert!(!platforms_match(&tags(&["xbox", "ps"]), &tags(&["pc"])));
    assert!(!platforms_match(&tags(&[]), &tags(&["pc"])));
    assert!(!platforms_match(&tags(&["pc"]), &tags(&[])));
}

#[test]
fn eq_ignore_case_basics() {
    assert!(eq_ignore_case("PlayStation", "playstation"));
    assert!(eq_ignore_case("", ""));
    assert!(!eq_ignore_case("pc", "ps"));
    assert!(!eq_ignore_case("pc", "pcc"));
}

#[test]
fn icon_paths() {
    assert_eq!(icon_for("pc"), "static/pc.png");
    assert_eq!(icon_for("PC"), "static/pc.png");
    assert_eq!(icon_for("ps"), "static/ps.png");
    assert_eq!(icon_for("PLAYSTATION"), "static/ps.png");
    assert_eq!(icon_for("xbox"), "static/xbox.png");
    assert_eq!(icon_for("wii"), "static/unknown.png");
}
