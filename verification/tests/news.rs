use moba_launcher_core::news::{
    check_news_response, load_news, news_url, valid_date, valid_slug, validate_text, web_locale,
    NewsFeed, NewsItem, MAX_NEWS_SIZE,
};
use serde_json::Value;

fn article(locale: &str) -> Value {
    let mut map = serde_json::Map::new();
    map.insert("slug".into(), Value::from("le-seuil-est-ouvert"));
    map.insert("locale".into(), Value::from(locale));
    map.insert("title".into(), Value::from("The Threshold is open"));
    map.insert("summary".into(), Value::from("Join the playtest."));
    map.insert("coverImageUrl".into(), Value::from("/art/map/playtest.webp"));
    map.insert("authorName".into(), Value::from("Rivals Beyond"));
    map.insert("publishedAt".into(), Value::from("2026-09-12T07:00:00+00:00"));
    map.insert("updatedAt".into(), Value::from("2026-09-12T08:00:00+00:00"));
    Value::Object(map)
}

fn page(items: Vec<Value>) -> Value {
    let mut map = serde_json::Map::new();
    map.insert("items".into(), Value::Array(items));
    Value::Object(map)
}

// Decodes a news page as the website client does: `items` holds articles whose camelCase
// fields are all required; other fields are ignored.
fn decode(document: &[u8]) -> Result<NewsFeed, String> {
    let value: Value = serde_json::from_slice(document).map_err(|e| e.to_string())?;
    let items = value
        .get("items")
        .and_then(Value::as_array)
        .ok_or_else(|| "missing field `items`".to_string())?;
    let mut out = Vec::new();
    for item in items {
        let text = |key: &str| {
            item.get(key)
                .and_then(Value::as_str)
                .map(str::to_owned)
                .ok_or_else(|| format!("missing field `{key}`"))
        };
        out.push(NewsItem {
            slug: text("slug")?,
            locale: text("locale")?,
            title: text("title")?,
            summary: text("summary")?,
            published_at: text("publishedAt")?,
        });
    }
    Ok(NewsFeed { items: out })
}

fn load(document: &[u8], locale: &str) -> Result<NewsFeed, String> {
    load_news(document.len() as u64, locale, decode(document))
}

#[test]
fn articles_request_the_selected_language_from_the_website_backend() {
    for (locale, expected) in [("frFR", "fr"), ("enUS", "en")] {
        let url = url::Url::parse(&news_url(locale).unwrap()).unwrap();
        assert_eq!(url.origin().ascii_serialization(), "https://api.rivalsbeyond.com");
        assert_eq!(url.path(), "/api/v1/news");
        assert_eq!(url.query().unwrap(), format!("locale={expected}&page=1&pageSize=3"));
    }
    assert!(news_url("deDE").is_err());
}

#[test]
fn backend_articles_preserve_localized_text_and_allow_empty_results() {
    let mut p = page(vec![article("en")]);
    p["totalCount"] = Value::from(27);
    p["page"] = Value::from(1);
    p["pageSize"] = Value::from(3);
    let bytes = serde_json::to_vec(&p).unwrap();
    let feed = load(&bytes, "enUS").unwrap();
    assert_eq!(feed.items[0].title, "The Threshold is open");
    assert_eq!(feed.items[0].published_at, "2026-09-12T07:00:00+00:00");
    assert!(load(br#"{"items":[]}"#, "frFR").unwrap().items.is_empty());
    assert!(load(&bytes, "frFR").is_err());
}

#[test]
fn invalid_or_oversized_articles_never_reach_the_interface() {
    for (field, value) in [
        ("slug", "../register"),
        ("title", ""),
        ("publishedAt", "yesterday"),
        ("summary", "bad\ntext"),
    ] {
        let mut item = article("en");
        item[field] = Value::from(value);
        let p = serde_json::to_vec(&page(vec![item])).unwrap();
        assert!(load(&p, "enUS").is_err(), "{field}");
    }
    assert!(load(&vec![b' '; MAX_NEWS_SIZE as usize + 1], "enUS").is_err());
    let p = serde_json::to_vec(&page(vec![article("en"); 4])).unwrap();
    assert!(load(&p, "enUS").is_err());
}

#[test]
fn news_errors_name_the_refused_part() {
    assert_eq!(web_locale("frFR").unwrap(), "fr");
    assert_eq!(web_locale("xx").unwrap_err(), "Unsupported news language.");
    let mut item = article("en");
    item["slug"] = Value::from("a--b");
    let p = serde_json::to_vec(&page(vec![item])).unwrap();
    assert_eq!(load(&p, "enUS").unwrap_err(), "Invalid news language or article slug.");
    let p = serde_json::to_vec(&page(vec![article("en"); 4])).unwrap();
    assert_eq!(load(&p, "enUS").unwrap_err(), "Too many news articles.");
    assert!(load(b"{", "enUS").unwrap_err().starts_with("Invalid news response: "));
    assert_eq!(
        load(&vec![b' '; MAX_NEWS_SIZE as usize + 1], "enUS").unwrap_err(),
        "News response is too large."
    );
    assert!(validate_text("  ", 10).is_err());
    assert!(validate_text("ok", 10).is_ok());
    assert!(validate_text("éé", 2).is_ok());
    assert!(validate_text("ééé", 2).is_err());
    assert!(valid_date(b"2026-09-12"));
    assert!(!valid_date(b"2026/09/12"));
    assert!(valid_slug("a-b-1"));
    assert!(!valid_slug("-a"));
    assert!(!valid_slug("A"));
    assert_eq!(check_news_response(503, "503 Service Unavailable", None).unwrap_err(), "News unavailable (503 Service Unavailable).");
    assert!(check_news_response(200, "200 OK", Some(MAX_NEWS_SIZE + 1)).is_err());
    assert!(check_news_response(200, "200 OK", Some(10)).is_ok());
}
