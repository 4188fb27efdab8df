use discord_influx::discord::{
    channel_messages_url, guild_channels_url, is_exported, minute_of, next_page,
    next_round, parse_guild_input, parse_reset, Attempt, Author, Channel, Message, Overwrite, OverwriteType, RangeParam,
    RetryAction, RetryPolicy, READ_MESSAGE_HISTORY, VIEW_CHANNEL,
};

fn channel(kind: i32, overwrites: Option<Vec<Overwrite>>) -> Channel {
    Channel {
        id: "10".to_string(),
        channel_type: kind,
        name: "general".to_string(),
        last_message_id: None,
        permission_overwrites: overwrites,
    }
}

fn deny(id: &str, deny: u64) -> Overwrite {
    Overwrite { id: id.to_string(), overwrite_type: OverwriteType::Role, allow: 0, deny }
}

fn message(id: &str) -> Message {
    Message {
        id: id.to_string(),
        channel_id: "10".to_string(),
        timestamp: 0,
        content: String::new(),
        author: Author { id: "1".to_string(), username: "u".to_string() },
    }
}

#[test]
fn guild_input_splits_at_first_slash() {
    assert_eq!(parse_guild_input("guild1/1337"), Some(("guild1".to_string(), "1337".to_string())));
    assert_eq!(parse_guild_input("a/b/c"), Some(("a".to_string(), "b/c".to_string())));
    assert_eq!(parse_guild_input("/x"), Some((String::new(), "x".to_string())));
    assert_eq!(parse_guild_input("noslash"), None);
    assert_eq!(parse_guild_input(""), None);
}

#[test]
fn channel_filter() {
    assert!(is_exported(&channel(0, None), &"42".to_string(), false));
    assert!(!is_exported(&channel(2, None), &"42".to_string(), true));
    let hidden = channel(0, Some(vec![deny("7", 0), deny("42", VIEW_CHANNEL)]));
    assert!(!is_exported(&hidden, &"42".to_string(), false));
    assert!(is_exported(&hidden, &"42".to_string(), true));
    let history = channel(0, Some(vec![deny("42", READ_MESSAGE_HISTORY)]));
    assert!(!is_exported(&history, &"42".to_string(), false));
    let other_bits = channel(0, Some(vec![deny("42", 1), deny("43", VIEW_CHANNEL)]));
    assert!(is_exported(&other_bits, &"42".to_string(), false));
}

#[test]
fn urls_escape_their_segment() {
    assert_eq!(guild_channels_url("123"), "https://discordapp.com/api/v6/guilds/123/channels");
    assert_eq!(
        channel_messages_url("a b/\u{fc}"),
        "https://discordapp.com/api/v6/channels/a%20b%2F%C3%BC/messages"
    );
}

#[test]
fn page_is_reversed_with_cursor_after_newest() {
    let page = vec![message("3"), message("2"), message("1")];
    let (msgs, cursor) = next_page(page).unwrap();
    let ids: Vec<&str> = msgs.iter().map(|m| m.id.as_str()).collect();
    assert_eq!(ids, vec!["1", "2", "3"]);
    match cursor {
        RangeParam::After(id) => assert_eq!(id, "3"),
        _ => panic!("cursor must point after the newest message"),
    }
    assert!(next_page(Vec::new()).is_none());
}

#[test]
fn query_pair_names_the_direction() {
    let id = "9".to_string();
    assert_eq!(RangeParam::After(id.clone()).query_pair(), ("after", &id));
    assert_eq!(RangeParam::Before(id.clone()).query_pair(), ("before", &id));
    assert_eq!(RangeParam::Around(id.clone()).query_pair(), ("around", &id));
}

#[test]
fn minute_buckets() {
    assert_eq!(minute_of(0), 0);
    assert_eq!(minute_of(125), 2);
    assert_eq!(minute_of(1_600_000_000), 26_666_666);
    assert_eq!(minute_of(-61), -1);
}

#[test]
fn retry_policy_decisions() {
    let mut p = RetryPolicy::standard();
    assert_eq!(p.max_retries(), 50);
    assert_eq!(p.on_outcome(Attempt::Success, 0), RetryAction::Return);
    assert_eq!(p.on_outcome(Attempt::Failed, 0), RetryAction::Retry { wait_ms: 1000 });
    assert_eq!(
        p.on_outcome(Attempt::RateLimited { reset: Some(10) }, 4_000),
        RetryAction::Retry { wait_ms: 6_000 }
    );
    assert_eq!(p.on_outcome(Attempt::Failed, 5_000), RetryAction::Retry { wait_ms: 5_000 });
    assert_eq!(p.on_outcome(Attempt::Failed, 12_000), RetryAction::Retry { wait_ms: 0 });
    assert_eq!(
        p.on_outcome(Attempt::RateLimited { reset: Some(1) }, 12_000),
        RetryAction::Retry { wait_ms: 1000 }
    );
    assert_eq!(
        p.on_outcome(Attempt::RateLimited { reset: Some(u64::MAX) }, 0),
        RetryAction::Retry { wait_ms: 1000 }
    );
}

#[test]
fn retry_policy_gives_up_after_max_attempts() {
    let mut p = RetryPolicy::new(3, 10);
    assert_eq!(p.on_outcome(Attempt::Failed, 0), RetryAction::Retry { wait_ms: 10 });
    assert_eq!(p.on_outcome(Attempt::RateLimited { reset: None }, 0), RetryAction::Retry { wait_ms: 10 });
    assert_eq!(p.on_outcome(Attempt::Failed, 0), RetryAction::GiveUp);
}

#[test]
fn reset_header_parses_like_u64() {
    assert_eq!(parse_reset("1600000000"), Some(1_600_000_000));
    assert_eq!(parse_reset("+42"), Some(42));
    assert_eq!(parse_reset("007"), Some(7));
    assert_eq!(parse_reset("18446744073709551615"), Some(u64::MAX));
    assert_eq!(parse_reset("18446744073709551616"), None);
    assert_eq!(parse_reset(""), None);
    assert_eq!(parse_reset("+"), None);
    assert_eq!(parse_reset("-1"), None);
    assert_eq!(parse_reset("12a"), None);
    assert_eq!(parse_reset("1.5"), None);
    for s in ["0", "+0", "99999999999999999999", "12 ", "++1", "1e3"] {
        assert_eq!(parse_reset(s), s.parse::<u64>().ok());
    }
}

#[test]
fn polling_rounds_wait_and_resume_after_last_seen() {
    let start = RangeParam::After("5".to_string());
    let (wait, pos) = next_round(&start, None, true);
    assert!(!wait);
    assert!(matches!(pos, RangeParam::After(ref id) if id == "5"));
    let seen = "9".to_string();
    let (wait, pos) = next_round(&start, Some(&seen), false);
    assert!(wait);
    assert!(matches!(pos, RangeParam::After(ref id) if id == "9"));
    let (_, pos) = next_round(&RangeParam::Before("3".to_string()), None, false);
    assert!(matches!(pos, RangeParam::Before(ref id) if id == "3"));
}
