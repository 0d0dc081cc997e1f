use stobot::news::{News, NewsItem};

const EPOCH_2024_01_01: i64 = 1704096000;

fn tags(v: &[&str]) -> Vec<String> {
    v.iter().map(|s| String::from(*s)).collect()
}

fn item(id: u64, title: &str, platforms: &[&str]) -> NewsItem {
    NewsItem::new(
        id,
        String::from(title),
        String::from("summary"),
        tags(platforms),
        String::from("2024-01-01 00:00:00"),
        None,
    )
}

#[test]
fn getters_report_fields() {
    let it = NewsItem::new(
        7,
        String::from("Title"),
        String::from("Sum"),
        tags(&["pc"]),
        String::from("2024-01-01 00:00:00"),
        Some(String::from("http://example.invalid/t.png")),
    );
    assert_eq!(it.get_id(), 7);
    assert_eq!(it.get_title(), "Title");
    assert_eq!(it.get_thumbnail_url(), Some("http://example.invalid/t.png"));
    let none = item(8, "Title", &["pc"]);
    assert_eq!(none.get_thumbnail_url(), None);
}

#[test]
fn items_equal_by_id_alone() {
    let a = item(5, "One", &["pc"]);
    let b = item(5, "Another", &["xbox"]);
    let c = item(6, "One", &["pc"]);
    assert!(a == b);
    assert!(a != c);
}

#[test]
fn tag_read_from_title() {
    assert_eq!(item(1, "Patch Notes 10/1", &["pc"]).get_tag(), "patch-notes");
    assert_eq!(item(1, "A Patch Notes", &["pc"]).get_tag(), "patch-notes");
    assert_eq!(item(1, "Anniversary Event", &["pc"]).get_tag(), "star-trek-online");
    assert_eq!(item(1, "patch notes", &["pc"]).get_tag(), "star-trek-online");
}

#[test]
fn filter_drops_non_matching_item() {
    // Channel subscribed to pc only; item tagged xbox/ps disappears.
    let mut news = News::new(vec![item(1, "A", &["xbox", "ps"]), item(2, "B", &["PC"])]);
    let any = news.filter_news_by_platform(&tags(&["pc"]));
    assert!(any);
    let left = news.items();
    assert_eq!(left.len(), 1);
    assert_eq!(left[0].get_id(), 2);
}

#[test]
fn filter_reports_empty_result() {
    let mut news = News::new(vec![item(1, "A", &["xbox"])]);
    let any = news.filter_news_by_platform(&tags(&["pc"]));
    assert!(!any);
    assert_eq!(news.len(), 0);
}

#[test]
fn filtered_item_contributes_no_icons() {
    let it = item(1, "A", &["xbox", "ps"]);
    let (summary, icons) = it.format_with_platforms(&tags(&["pc"]));
    assert_eq!(summary, "summary");
    assert!(icons.is_empty());
}

#[test]
fn icons_follow_item_tag_order() {
    let it = item(1, "A", &["xbox", "PC", "ps"]);
    let (_, icons) = it.format_with_platforms(&tags(&["pc", "xbox"]));
    assert_eq!(icons, vec![String::from("static/xbox.png"), String::from("static/pc.png")]);
}

#[test]
fn dedup_decider_returns_unposted_in_order() {
    // Posted {100, 101}; fetched [100, 101, 102, 103], all fresh.
    let news = News::new(vec![
        item(100, "A", &["pc"]),
        item(101, "B", &["pc"]),
        item(102, "C", &["pc"]),
        item(103, "D", &["pc"]),
    ]);
    let posted = vec![100u64, 101u64];
    let picked = stobot::news::select_fresh_unposted(&news, &posted, EPOCH_2024_01_01, 120);
    let ids: Vec<u64> = picked.iter().map(|&i| news.items()[i].get_id()).collect();
    assert_eq!(ids, vec![102, 103]);
}

#[test]
fn stale_items_not_delivered() {
    let news = News::new(vec![item(1, "A", &["pc"])]);
    let posted: Vec<u64> = vec![];
    let much_later = EPOCH_2024_01_01 + 3600;
    let picked = stobot::news::select_fresh_unposted(&news, &posted, much_later, 120);
    assert!(picked.is_empty());
}

#[test]
fn on_demand_respects_window_exclusion_and_limit() {
    let news = News::new(vec![
        item(1, "News one", &["pc"]),
        item(2, "Patch Notes 1", &["pc"]),
        item(3, "News two", &["pc"]),
        item(4, "News three", &["pc"]),
    ]);
    let now = EPOCH_2024_01_01 + 3 * 24 * 3600;
    let excluded = tags(&["patch-notes"]);
    let picked = stobot::news::select_on_demand(&news, now, 1, &excluded, 20);
    let ids: Vec<u64> = picked.iter().map(|&i| news.items()[i].get_id()).collect();
    assert_eq!(ids, vec![1, 3, 4]);

    let capped = stobot::news::select_on_demand(&news, now, 1, &excluded, 2);
    let ids: Vec<u64> = capped.iter().map(|&i| news.items()[i].get_id()).collect();
    assert_eq!(ids, vec![1, 3]);

    let none_excluded: Vec<String> = vec![];
    let all = stobot::news::select_on_demand(&news, now, 1, &none_excluded, 20);
    assert_eq!(all.len(), 4);

    // Ten days later only a two-week window reaches the items.
    let later = EPOCH_2024_01_01 + 10 * 24 * 3600;
    assert!(stobot::news::select_on_demand(&news, later, 1, &excluded, 20).is_empty());
    assert_eq!(stobot::news::select_on_demand(&news, later, 2, &excluded, 20).len(), 3);
}
