use lw_core::import::{import_tweets, Tweet};

fn tweet(id: &str, text: &str) -> Tweet {
    Tweet {
        id: id.to_string(),
        full_text: text.to_string(),
        screen_name: "alice".to_string(),
        name: "Alice".to_string(),
        created_at: "2024-01-01".to_string(),
        url: "https://x.com/alice/status/1".to_string(),
        favorite_count: 10,
        bookmark_count: 2,
        views_count: 300,
        retweet_count: 0,
        quote_count: 0,
        reply_count: 0,
    }
}

#[test]
fn imports_long_enough_tweets_as_pages() {
    let ts = vec![
        tweet("1", "Attention is all you need, a classic paper"),
        tweet("2", "too short"),
        tweet("3", "!!!!!!!!!!!!!!!!!!!!!!!!"),
    ];
    let pages = import_tweets(&ts, None);
    assert_eq!(pages.len(), 2);
    assert_eq!(pages[0].title, "Attention is all you need, a classic paper");
    assert_eq!(pages[0].slug, "attention-is-all-you-need-a-classic-paper");
    assert_eq!(pages[0].source_id, "1");
    assert_eq!(pages[0].page.decay, Some("fast".to_string()));
    assert_eq!(pages[0].page.sources, vec!["twitter-import".to_string()]);
    assert_eq!(pages[0].page.author, Some("alice".to_string()));
    assert_eq!(pages[0].page.generator, Some("lw-import".to_string()));
    assert!(pages[0].page.body.ends_with(
        "\n\n---\nSource: https://x.com/alice/status/1\nAuthor: @alice (Alice)\nDate: 2024-01-01\nEngagement: likes:10 bookmarks:2 views:300\n"
    ));
    assert_eq!(pages[1].slug, "tweet-3");
}

#[test]
fn import_respects_limit_and_title_length() {
    let long = "x".repeat(100) + "\nmore";
    let ts = vec![tweet("1", &long), tweet("2", "another tweet that is long enough")];
    let pages = import_tweets(&ts, Some(1));
    assert_eq!(pages.len(), 1);
    assert_eq!(pages[0].title.chars().count(), 60);
}

#[test]
fn import_title_turns_newlines_into_spaces() {
    let pages = import_tweets(&vec![tweet("9", "line one\nline two is here")], None);
    assert_eq!(pages[0].title, "line one line two is here");
}

use lw_core::import::ImportedPage;

/// An export as the tool reads it: a JSON array of posts, turned into
/// pages by the library.
fn parse_twitter_json(json: &str, limit: Option<usize>) -> Result<Vec<ImportedPage>, String> {
    let v: serde_json::Value = serde_json::from_str(json).map_err(|e| e.to_string())?;
    let arr = v.as_array().ok_or("expected an array")?;
    let text = |o: &serde_json::Value, k: &str| o[k].as_str().unwrap_or_default().to_string();
    let num = |o: &serde_json::Value, k: &str| o[k].as_u64().unwrap_or(0);
    let tweets: Vec<Tweet> = arr
        .iter()
        .map(|o| Tweet {
            id: text(o, "id"),
            full_text: text(o, "full_text"),
            screen_name: text(o, "screen_name"),
            name: text(o, "name"),
            created_at: text(o, "created_at"),
            url: text(o, "url"),
            favorite_count: num(o, "favorite_count"),
            bookmark_count: num(o, "bookmark_count"),
            views_count: num(o, "views_count"),
            retweet_count: num(o, "retweet_count"),
            quote_count: num(o, "quote_count"),
            reply_count: num(o, "reply_count"),
        })
        .collect();
    Ok(import_tweets(&tweets, limit))
}

#[test]
fn parse_twitter_json_basic() {
    let json = r#"[
        {
            "id": "123",
            "full_text": "This is a test tweet about AI agents and their capabilities.",
            "screen_name": "testuser",
            "name": "Test User",
            "created_at": "2025-12-05 13:24:28",
            "url": "https://twitter.com/testuser/status/123",
            "favorite_count": 100,
            "bookmark_count": 50,
            "views_count": 5000,
            "retweet_count": 10,
            "quote_count": 5,
            "reply_count": 3
        }
    ]"#;
    let pages = parse_twitter_json(json, None).unwrap();
    assert_eq!(pages.len(), 1);
    assert!(!pages[0].title.is_empty());
    assert!(pages[0].page.body.contains("AI agents"));
    assert_eq!(pages[0].source_id, "123");
}

#[test]
fn parse_twitter_json_with_limit() {
    let json = r#"[
        {"id":"1","full_text":"Tweet one about testing software.","screen_name":"a","name":"A","created_at":"2025-01-01 00:00:00","url":"","favorite_count":0,"bookmark_count":0,"views_count":0,"retweet_count":0,"quote_count":0,"reply_count":0},
        {"id":"2","full_text":"Tweet two about coding in Rust.","screen_name":"b","name":"B","created_at":"2025-01-02 00:00:00","url":"","favorite_count":0,"bookmark_count":0,"views_count":0,"retweet_count":0,"quote_count":0,"reply_count":0},
        {"id":"3","full_text":"Tweet three about system design.","screen_name":"c","name":"C","created_at":"2025-01-03 00:00:00","url":"","favorite_count":0,"bookmark_count":0,"views_count":0,"retweet_count":0,"quote_count":0,"reply_count":0}
    ]"#;
    let pages = parse_twitter_json(json, Some(2)).unwrap();
    assert_eq!(pages.len(), 2);
}

#[test]
fn parse_twitter_json_skips_short_tweets() {
    let json = r#"[
        {"id":"1","full_text":"Too short","screen_name":"a","name":"A","created_at":"2025-01-01 00:00:00","url":"","favorite_count":0,"bookmark_count":0,"views_count":0,"retweet_count":0,"quote_count":0,"reply_count":0},
        {"id":"2","full_text":"This tweet is long enough to be meaningful content for a wiki page.","screen_name":"b","name":"B","created_at":"2025-01-02 00:00:00","url":"","favorite_count":0,"bookmark_count":0,"views_count":0,"retweet_count":0,"quote_count":0,"reply_count":0}
    ]"#;
    let pages = parse_twitter_json(json, None).unwrap();
    assert_eq!(pages.len(), 1); // short tweet skipped
}

#[test]
fn parse_twitter_json_preserves_engagement_data() {
    let json = r#"[
        {
            "id": "456",
            "full_text": "A substantive tweet about transformer architecture and self-attention mechanisms.",
            "screen_name": "mlresearcher",
            "name": "ML Researcher",
            "created_at": "2025-06-15 09:30:00",
            "url": "https://twitter.com/mlresearcher/status/456",
            "favorite_count": 250,
            "bookmark_count": 120,
            "views_count": 15000,
            "retweet_count": 45,
            "quote_count": 12,
            "reply_count": 8
        }
    ]"#;
    let pages = parse_twitter_json(json, None).unwrap();
    assert_eq!(pages.len(), 1);
    let page = &pages[0];
    assert!(page.page.body.contains("likes:250"));
    assert!(page.page.body.contains("bookmarks:120"));
    assert!(page.page.body.contains("views:15000"));
    assert!(page.page.body.contains("@mlresearcher"));
}

#[test]
fn parse_twitter_json_generates_slug() {
    let json = r#"[
        {
            "id": "789",
            "full_text": "Understanding the Role of Attention in Neural Networks for NLP tasks.",
            "screen_name": "airesearch",
            "name": "AI Research",
            "created_at": "2025-03-20 14:00:00",
            "url": "",
            "favorite_count": 0,
            "bookmark_count": 0,
            "views_count": 0,
            "retweet_count": 0,
            "quote_count": 0,
            "reply_count": 0
        }
    ]"#;
    let pages = parse_twitter_json(json, None).unwrap();
    assert_eq!(pages.len(), 1);
    assert!(!pages[0].slug.is_empty());
    // Slug should be lowercase and hyphen-separated
    assert!(
        pages[0]
            .slug
            .chars()
            .all(|c| c.is_alphanumeric() || c == '-')
    );
}

#[test]
fn parse_twitter_json_page_has_correct_metadata() {
    let json = r#"[
        {
            "id": "999",
            "full_text": "Exploring the intersection of reinforcement learning and language models.",
            "screen_name": "deeplearner",
            "name": "Deep Learner",
            "created_at": "2025-08-10 16:45:00",
            "url": "https://twitter.com/deeplearner/status/999",
            "favorite_count": 50,
            "bookmark_count": 25,
            "views_count": 3000,
            "retweet_count": 8,
            "quote_count": 2,
            "reply_count": 1
        }
    ]"#;
    let pages = parse_twitter_json(json, None).unwrap();
    let page = &pages[0].page;
    assert!(page.tags.is_empty()); // classification is agent's job
    assert_eq!(page.decay.as_deref(), Some("fast"));
    assert!(page.sources.contains(&"twitter-import".to_string()));
    assert_eq!(page.author.as_deref(), Some("deeplearner"));
    assert_eq!(page.generator.as_deref(), Some("lw-import"));
}

#[test]
fn parse_twitter_json_empty_array() {
    let json = "[]";
    let pages = parse_twitter_json(json, None).unwrap();
    assert!(pages.is_empty());
}

#[test]
fn parse_twitter_json_invalid_json() {
    let result = parse_twitter_json("not json at all", None);
    assert!(result.is_err());
}
