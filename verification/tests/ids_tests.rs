use stobot::ids::{get_ids_from_messages, PostedMessage};

fn msg(urls: &[&str], content: &str) -> PostedMessage {
    PostedMessage::new(
        urls.iter().map(|s| String::from(*s)).collect(),
        String::from(content),
    )
}

#[test]
fn id_from_embed_url() {
    let m = msg(
        &["https://playstartrekonline.com/en/news/article/11590044-some-title"],
        "",
    );
    let ids = get_ids_from_messages(&vec![m]);
    assert_eq!(ids, vec![11590044]);
}

#[test]
fn id_from_content_marker() {
    let m = msg(&[], "Loaded channel ID:123 Platforms");
    let ids = get_ids_from_messages(&vec![m]);
    assert_eq!(ids, vec![123]);
}

#[test]
fn first_embed_with_id_wins() {
    let m = msg(
        &[
            "https://example.invalid/nothing",
            "https://playstartrekonline.com/en/news/article/777",
            "https://playstartrekonline.com/en/news/article/888",
        ],
        "",
    );
    let ids = get_ids_from_messages(&vec![m]);
    assert_eq!(ids, vec![777]);
}

#[test]
fn embed_and_content_both_counted() {
    let m = msg(
        &["https://playstartrekonline.com/en/news/article/10"],
        "see also ID:11",
    );
    let mut ids = get_ids_from_messages(&vec![m]);
    ids.sort();
    assert_eq!(ids, vec![10, 11]);
}

#[test]
fn ids_are_deduplicated_across_messages() {
    let a = msg(&["https://playstartrekonline.com/en/news/article/10"], "ID:10");
    let b = msg(&["https://playstartrekonline.com/en/news/article/10"], "");
    let c = msg(&[], "ID:12");
    let mut ids = get_ids_from_messages(&vec![a, b, c]);
    ids.sort();
    assert_eq!(ids, vec![10, 12]);
}

#[test]
fn marker_without_digits_yields_nothing() {
    let m = msg(
        &["https://playstartrekonline.com/en/news/article/none"],
        "ID:x and no number",
    );
    assert!(get_ids_from_messages(&vec![m]).is_empty());
}

#[test]
fn overflowing_digit_run_is_ignored() {
    let m = msg(&[], "ID:99999999999999999999999999");
    assert!(get_ids_from_messages(&vec![m]).is_empty());
}

#[test]
fn later_marker_with_digits_found() {
    // The first marker occurrence has no digits after it; the match
    // moves on to one that does.
    let m = msg(&[], "ID:x then ID:42");
    assert_eq!(get_ids_from_messages(&vec![m]), vec![42]);
}
