use stobot::api::build_news_url;

#[test]
fn url_with_all_query_parts() {
    let url = build_news_url(
        Some("star-trek-online"),
        Some(20),
        Some(0),
        None,
        &["images.img_microsite_thumbnail", "platforms", "updated"],
    );
    assert_eq!(
        url,
        "https://api.arcgames.com/v1.0/games/sto/news?tag=star-trek-online&limit=20&offset=0&\
         field%5B%5D=images.img_microsite_thumbnail&field%5B%5D=platforms&field%5B%5D=updated"
    );
}

#[test]
fn url_with_no_parts_keeps_no_separator() {
    let url = build_news_url(None, None, None, None, &[]);
    assert_eq!(url, "https://api.arcgames.com/v1.0/games/sto/news?");
}

#[test]
fn url_with_platform_only() {
    let url = build_news_url(None, None, None, Some("xbox"), &[]);
    assert_eq!(url, "https://api.arcgames.com/v1.0/games/sto/news?platform=xbox");
}

#[test]
fn url_with_tag_only() {
    let url = build_news_url(Some("patch-notes"), None, None, None, &[]);
    assert_eq!(url, "https://api.arcgames.com/v1.0/games/sto/news?tag=patch-notes");
}
