use minimalchat::json::JsonValue;
use minimalchat::mattermost::{
    check_status, error_text, first_team_id, messages_from_reply, read_channel_messages,
    read_first_team_id, read_json_reply, trim_trailing_slashes_of, user_id_of, ClientError,
    MattermostClient, ChannelsFetch, ChannelsStep,
};

fn client(base: &str) -> MattermostClient {
    match MattermostClient::new(base.to_string(), "secret".to_string()) {
        Ok(c) => c,
        Err(_) => panic!("token refused"),
    }
}

fn json(bytes: &[u8]) -> Option<JsonValue> {
    read_json_reply(200, bytes).ok()
}

#[test]
fn new_trims_trailing_slashes() {
    let c = client("https://chat.example.com///");
    assert_eq!(c.base_url(), "https://chat.example.com");
    assert_eq!(c.token(), "secret");
    assert_eq!(c.auth_header(), "Bearer secret");
}

#[test]
fn trim_only_touches_the_end() {
    assert_eq!(trim_trailing_slashes_of("a/b//"), "a/b");
    assert_eq!(trim_trailing_slashes_of("////"), "");
    assert_eq!(trim_trailing_slashes_of(""), "");
    assert_eq!(trim_trailing_slashes_of("x"), "x");
    assert_eq!(trim_trailing_slashes_of(&trim_trailing_slashes_of("q//")), "q");
}

#[test]
fn tokens_that_cannot_be_header_values_are_refused() {
    for bad in ["a\nb", "a\rb", "x\u{7f}", "\u{0}"] {
        assert!(matches!(
            MattermostClient::new("https://h".to_string(), bad.to_string()),
            Err(ClientError::InvalidAuthToken)
        ));
    }
    for good in ["plain", "with space", "tab\there", "ünïcode", ""] {
        assert!(MattermostClient::new("https://h".to_string(), good.to_string()).is_ok());
    }
}

#[test]
fn urls_are_built_from_the_base() {
    let c = client("https://h/");
    assert_eq!(c.user_info_url(), "https://h/api/v4/users/me");
    assert_eq!(c.teams_url("u1"), "https://h/api/v4/users/u1/teams");
    assert_eq!(c.channels_url("u1", "t9"), "https://h/api/v4/users/u1/teams/t9/channels");
    assert_eq!(c.posts_url("c7", 100, None), "https://h/api/v4/channels/c7/posts?per_page=100");
    assert_eq!(c.posts_url("c7", -3, None), "https://h/api/v4/channels/c7/posts?per_page=-3");
    assert_eq!(
        c.posts_url("c7", 50, Some(1700000000123)),
        "https://h/api/v4/channels/c7/posts?per_page=50&since=1700000000123"
    );
    assert_eq!(
        c.posts_url("c7", 50, Some(i64::MIN)),
        "https://h/api/v4/channels/c7/posts?per_page=50&since=-9223372036854775808"
    );
    assert_eq!(c.send_url(), "https://h/api/v4/posts");
}

#[test]
fn status_checks() {
    assert!(check_status(200).is_ok());
    assert!(check_status(204).is_ok());
    assert!(check_status(299).is_ok());
    assert!(matches!(check_status(300), Err(ClientError::HttpStatus(300))));
    assert!(matches!(check_status(199), Err(ClientError::HttpStatus(199))));
    assert!(matches!(check_status(401), Err(ClientError::HttpStatus(401))));
}

#[test]
fn json_reply_needs_success_and_json() {
    assert!(matches!(read_json_reply(500, b"{}"), Err(ClientError::HttpStatus(500))));
    assert!(matches!(read_json_reply(200, b"not json"), Err(ClientError::UndecodableBody)));
    assert!(matches!(read_json_reply(200, b"{\"id\": 1} trailing"), Err(ClientError::UndecodableBody)));
    match read_json_reply(200, b" {\"id\":\"abc\"} ") {
        Ok(v) => assert_eq!(user_id_of(&v).ok(), Some("abc".to_string())),
        Err(_) => panic!("expected a document"),
    }
}

#[test]
fn user_id_must_be_a_string() {
    let v = json(b"{\"id\": 5}").unwrap();
    assert!(matches!(user_id_of(&v), Err(ClientError::NoUserId)));
    let v = json(b"[\"id\"]").unwrap();
    assert!(matches!(user_id_of(&v), Err(ClientError::NoUserId)));
    let v = json(b"{\"name\": \"x\", \"id\": \"u7\"}").unwrap();
    assert_eq!(user_id_of(&v).ok(), Some("u7".to_string()));
}

#[test]
fn first_team_cases() {
    assert!(matches!(read_first_team_id(b"[]"), Ok(None)));
    assert_eq!(read_first_team_id(b"[{\"id\":\"t1\"},{\"id\":\"t2\"}]").ok(), Some(Some("t1".to_string())));
    assert!(matches!(read_first_team_id(b"[{\"name\":\"x\"}]"), Err(ClientError::NoTeamId)));
    assert!(matches!(read_first_team_id(b"[7]"), Err(ClientError::NoTeamId)));
    assert!(matches!(read_first_team_id(b"{\"id\":\"t\"}"), Err(ClientError::UndecodableBody)));
    assert!(matches!(read_first_team_id(b"oops"), Err(ClientError::UndecodableBody)));
    assert!(matches!(first_team_id(&JsonValue::Null), Err(ClientError::UndecodableBody)));
}

#[test]
fn posts_become_messages_newest_first() {
    let body = br#"{
        "order": ["b", "a"],
        "posts": {
            "b": {"id": "b", "channel_id": "c", "user_id": "u", "message": "second", "create_at": 200},
            "a": {"id": "a", "channel_id": "c", "user_id": "u", "message": "first", "create_at": 100},
            "z": {"id": "z", "channel_id": "c", "user_id": "u", "message": "late", "create_at": 300},
            "bad1": {"id": "bad1", "channel_id": "c", "user_id": "u", "create_at": 400},
            "bad2": {"id": "bad2", "channel_id": "c", "user_id": "u", "message": "f", "create_at": 1.5},
            "bad3": {"id": "bad3", "channel_id": "c", "user_id": "u", "message": "big", "create_at": 18446744073709551615}
        }
    }"#;
    let ms = read_channel_messages(200, body).ok().unwrap();
    let ids: Vec<&str> = ms.iter().map(|m| m.id.as_str()).collect();
    assert_eq!(ids, vec!["z", "b", "a"]);
    assert_eq!(ms[1].message, "second");
    assert_eq!(ms[1].create_at, 200);
    assert_eq!(ms[1].username, "");
}

#[test]
fn equal_times_follow_key_order() {
    let body = br#"{"posts": {
        "k2": {"id": "2", "channel_id": "c", "user_id": "u", "message": "m", "create_at": 5},
        "k1": {"id": "1", "channel_id": "c", "user_id": "u", "message": "m", "create_at": 5}
    }}"#;
    let ms = read_channel_messages(200, body).ok().unwrap();
    let ids: Vec<&str> = ms.iter().map(|m| m.id.as_str()).collect();
    assert_eq!(ids, vec!["1", "2"]);
}

#[test]
fn replies_without_posts_give_no_messages() {
    assert!(read_channel_messages(200, b"{}").ok().unwrap().is_empty());
    assert!(read_channel_messages(200, b"{\"posts\": []}").ok().unwrap().is_empty());
    assert!(messages_from_reply(&JsonValue::Null).is_empty());
    assert!(matches!(read_channel_messages(404, b"{}"), Err(ClientError::HttpStatus(404))));
    assert!(matches!(read_channel_messages(200, b""), Err(ClientError::UndecodableBody)));
}

#[test]
fn post_body_is_the_json_object() {
    let (url, body) = client("https://h").new_post("c1", "hi \"you\"");
    assert_eq!(url, "https://h/api/v4/posts");
    let body = body.unwrap();
    assert_eq!(String::from_utf8(body).unwrap(), r#"{"channel_id":"c1","message":"hi \"you\""}"#);
}

#[test]
fn parsed_values_keep_their_shape() {
    let v = json(br#"{"b": [1, -2, true, null, "s", 2.5, {"x": 1}], "a": 9223372036854775808}"#).unwrap();
    match &v {
        JsonValue::Object(entries) => {
            assert_eq!(entries.len(), 2);
            assert_eq!(entries[0].0, "a");
            assert!(matches!(entries[0].1, JsonValue::Number(None)));
            match &entries[1].1 {
                JsonValue::Array(items) => {
                    assert_eq!(items.len(), 7);
                    assert!(matches!(items[0], JsonValue::Number(Some(1))));
                    assert!(matches!(items[1], JsonValue::Number(Some(-2))));
                    assert!(matches!(items[2], JsonValue::Bool(true)));
                    assert!(matches!(items[3], JsonValue::Null));
                    assert!(matches!(&items[4], JsonValue::Str(s) if s == "s"));
                    assert!(matches!(items[5], JsonValue::Number(None)));
                    assert!(matches!(items[6], JsonValue::Object(_)));
                }
                _ => panic!("expected an array"),
            }
        }
        _ => panic!("expected an object"),
    }
    assert_eq!(v.get_i64("a"), None);
    assert!(v.get("missing").is_none());
}

fn expect_get(step: ChannelsStep) -> (String, ChannelsFetch) {
    match step {
        ChannelsStep::Get { url, next } => (url, next),
        _ => panic!("expected a request"),
    }
}

#[test]
fn channel_list_request_steps() {
    let c = client("https://h");
    let (url, next) = expect_get(c.start_channels_fetch());
    assert_eq!(url, "https://h/api/v4/users/me");
    let (url, next) = expect_get(c.channels_fetch_reply(next, 200, b"{\"id\":\"u1\"}"));
    assert_eq!(url, "https://h/api/v4/users/u1/teams");
    // The teams reply's status is not checked.
    let (url, next) = expect_get(c.channels_fetch_reply(next, 500, b"[{\"id\":\"t1\"}]"));
    assert_eq!(url, "https://h/api/v4/users/u1/teams/t1/channels");
    assert!(matches!(c.channels_fetch_reply(next, 200, b"[]"), ChannelsStep::DecodeChannels));
}

#[test]
fn channel_list_request_ends_early() {
    let c = client("https://h");
    let (_, next) = expect_get(c.start_channels_fetch());
    assert!(matches!(
        c.channels_fetch_reply(next, 401, b"{}"),
        ChannelsStep::Fail(ClientError::HttpStatus(401))
    ));
    let (_, next) = expect_get(c.start_channels_fetch());
    assert!(matches!(c.channels_fetch_reply(next, 200, b"{}"), ChannelsStep::Fail(ClientError::NoUserId)));
    let (_, next) = expect_get(c.start_channels_fetch());
    let (_, next) = expect_get(c.channels_fetch_reply(next, 200, b"{\"id\":\"u\"}"));
    assert!(matches!(c.channels_fetch_reply(next, 200, b"[]"), ChannelsStep::NoChannels));
    let (_, next) = expect_get(c.start_channels_fetch());
    let (_, next) = expect_get(c.channels_fetch_reply(next, 200, b"{\"id\":\"u\"}"));
    let (_, next) = expect_get(c.channels_fetch_reply(next, 200, b"[{\"id\":\"t\"}]"));
    assert!(matches!(
        c.channels_fetch_reply(next, 403, b"[]"),
        ChannelsStep::Fail(ClientError::HttpStatus(403))
    ));
}

#[test]
fn error_texts() {
    assert_eq!(error_text(&ClientError::HttpStatus(404)), "HTTP error: 404 Not Found");
    assert_eq!(
        error_text(&ClientError::HttpStatus(500)),
        "HTTP error: 500 Internal Server Error"
    );
    assert_eq!(error_text(&ClientError::HttpStatus(599)), "HTTP error: 599 <unknown status code>");
    assert_eq!(error_text(&ClientError::HttpStatus(42)), "HTTP error: 42 <unknown status code>");
    assert_eq!(error_text(&ClientError::InvalidAuthToken), "failed to parse header value");
    assert_eq!(error_text(&ClientError::UndecodableBody), "error decoding response body");
    assert_eq!(error_text(&ClientError::NoUserId), "No user ID found");
    assert_eq!(error_text(&ClientError::NoTeamId), "No team ID found");
}
