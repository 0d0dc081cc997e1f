use stobot::registry::{Registry, RegistryError};

fn tags(v: &[&str]) -> Vec<String> {
    v.iter().map(|s| String::from(*s)).collect()
}

fn sorted(mut v: Vec<String>) -> Vec<String> {
    v.sort();
    v
}

#[test]
fn register_gives_default_platforms() {
    let mut r = Registry::new();
    r.add_channel(42);
    assert!(r.has_channel(42));
    let ps = sorted(r.get_channel_platforms(42));
    assert_eq!(ps, tags(&["pc", "ps", "xbox"]));
}

#[test]
fn register_twice_is_idempotent() {
    let mut once = Registry::new();
    once.add_channel(42);
    let mut twice = Registry::new();
    twice.add_channel(42);
    twice.add_channel(42);
    assert_eq!(once.to_lines(), twice.to_lines());
    assert_eq!(twice.get_channels(), vec![42]);
}

#[test]
fn register_keeps_custom_platforms() {
    let mut r = Registry::new();
    r.add_channel(42);
    assert_eq!(r.update_channel_platforms(42, tags(&["pc"])), Ok(()));
    r.add_channel(42);
    assert_eq!(r.get_channel_platforms(42), tags(&["pc"]));
}

#[test]
fn empty_platform_list_is_invalid_input() {
    let mut r = Registry::new();
    r.add_channel(7);
    assert_eq!(r.update_channel_platforms(7, tags(&["ps"])), Ok(()));
    let before = r.to_lines();
    assert_eq!(r.update_channel_platforms(7, Vec::new()), Err(RegistryError::InvalidInput));
    // The prior platform set is untouched.
    assert_eq!(r.get_channel_platforms(7), tags(&["ps"]));
    assert_eq!(r.to_lines(), before);
}

#[test]
fn unregister_unknown_channel_is_noop() {
    let mut r = Registry::new();
    r.add_channel(1);
    r.add_channel(2);
    let before = r.to_lines();
    r.remove_channel(99);
    assert_eq!(r.to_lines(), before);
    assert_eq!(r.get_channels().len(), 2);
}

#[test]
fn unregister_removes_channel() {
    let mut r = Registry::new();
    r.add_channel(1);
    r.add_channel(2);
    r.remove_channel(1);
    assert!(!r.has_channel(1));
    assert!(r.has_channel(2));
    assert_eq!(r.get_channels(), vec![2]);
}

#[test]
fn unregistered_channel_falls_back_to_defaults() {
    let r = Registry::new();
    assert_eq!(sorted(r.get_channel_platforms(999)), tags(&["pc", "ps", "xbox"]));
}

#[test]
fn lines_use_the_documented_format() {
    let mut r = Registry::new();
    r.add_channel(123);
    assert_eq!(r.update_channel_platforms(123, tags(&["pc", "ps"])), Ok(()));
    assert_eq!(r.to_lines(), vec![String::from("channel:123|pc,ps")]);
}

#[test]
fn save_load_round_trip_preserves_mapping() {
    let mut x = Registry::new();
    x.add_channel(11);
    x.add_channel(22);
    assert_eq!(x.update_channel_platforms(22, tags(&["xbox", "pc"])), Ok(()));
    x.add_channel(33);
    assert_eq!(x.update_channel_platforms(33, tags(&["ps"])), Ok(()));

    // save(load(load(save(X))))
    let s1 = x.to_lines();
    let l1 = Registry::from_lines(&s1);
    let l2 = Registry::from_lines(&l1.to_lines());
    let s2 = l2.to_lines();

    let mut ids_before = x.get_channels();
    ids_before.sort();
    let mut ids_after = l2.get_channels();
    ids_after.sort();
    assert_eq!(ids_before, ids_after);
    for id in ids_before {
        assert_eq!(
            sorted(x.get_channel_platforms(id)),
            sorted(l2.get_channel_platforms(id))
        );
    }
    let mut s1s = s1.clone();
    s1s.sort();
    let mut s2s = s2.clone();
    s2s.sort();
    assert_eq!(s1s, s2s);
}

#[test]
fn loader_skips_malformed_lines() {
    let lines = vec![
        String::from("garbage"),
        String::from("channel:abc|pc"),
        String::from("channel:1|2|3"),
        String::from("channel:5|pc, ps"),
        String::from("channel:6|"),
        String::from("chan:7|pc"),
        String::from(""),
    ];
    let r = Registry::from_lines(&lines);
    let mut ids = r.get_channels();
    ids.sort();
    assert_eq!(ids, vec![5, 6]);
    assert_eq!(sorted(r.get_channel_platforms(5)), tags(&["pc", "ps"]));
    // An empty platform list on a valid line resolves to the defaults.
    assert_eq!(sorted(r.get_channel_platforms(6)), tags(&["pc", "ps", "xbox"]));
}

#[test]
fn later_line_overrides_earlier() {
    let lines = vec![
        String::from("channel:5|pc"),
        String::from("channel:5|xbox"),
    ];
    let r = Registry::from_lines(&lines);
    assert_eq!(r.get_channels(), vec![5]);
    assert_eq!(r.get_channel_platforms(5), tags(&["xbox"]));
}

#[test]
fn loader_deduplicates_platforms() {
    let lines = vec![String::from("channel:5|pc,pc, pc ,ps")];
    let r = Registry::from_lines(&lines);
    assert_eq!(sorted(r.get_channel_platforms(5)), tags(&["pc", "ps"]));
}

#[test]
fn parse_fields_trims_and_dedups() {
    let fields = stobot::text::parse_fields("pc, ps ,,PC,pc");
    assert_eq!(fields, tags(&["pc", "ps", "PC"]));
    assert!(stobot::text::parse_fields("  ,  , ").is_empty());
}

#[test]
fn largest_channel_id_round_trips() {
    let lines = vec![String::from("channel:18446744073709551615|pc")];
    let r = Registry::from_lines(&lines);
    assert!(r.has_channel(u64::MAX));
    assert_eq!(r.to_lines(), lines);
}

#[test]
fn overflowing_channel_id_is_skipped() {
    let lines = vec![String::from("channel:18446744073709551616|pc")];
    let r = Registry::from_lines(&lines);
    assert!(r.get_channels().is_empty());
}
