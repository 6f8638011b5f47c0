use minimalchat::cache::Database;
use minimalchat::mattermost::{error_text, ClientError, MattermostClient};
use minimalchat::models::{Channel, Message, Settings};
use minimalchat::session::{AppState, SendError, SendOutcome, SyncRun, SyncStep};

fn client() -> MattermostClient {
    MattermostClient::new("https://h".to_string(), "t".to_string()).ok().unwrap()
}

fn message(id: &str, create_at: i64) -> Message {
    Message {
        id: id.to_string(),
        channel_id: "c".to_string(),
        user_id: "u".to_string(),
        username: String::new(),
        message: format!("text {}", id),
        create_at,
    }
}

/// Runs a synchronisation where the server accepts the first `accepted`
/// messages and refuses the next one.
fn run_sync(state: &mut AppState, accepted: usize) -> (i32, Vec<i64>) {
    let mut run = SyncRun::start(state);
    let mut tried = Vec::new();
    loop {
        match run.next_step() {
            SyncStep::Send { id, .. } => {
                tried.push(id);
                if tried.len() <= accepted {
                    run.message_sent(state);
                } else {
                    run.message_failed();
                }
            }
            SyncStep::Finished(n) => return (n, tried),
        }
    }
}

#[test]
fn start_reads_settings_from_the_cache() {
    let mut db = Database::new();
    let s = Settings {
        server_url: "https://h".to_string(),
        auth_token: "t".to_string(),
        sync_interval_seconds: 12,
        max_messages_per_channel: 50,
    };
    db.save_settings(&s);
    let state = AppState::new(db);
    assert!(!state.is_online());
    let got = state.get_settings();
    assert_eq!(got.sync_interval_seconds, 12);
    assert_eq!(got.max_messages_per_channel, 50);
    assert_eq!(got.server_url, "https://h");
}

#[test]
fn connect_saves_url_and_token() {
    let mut state = AppState::new(Database::new());
    let text = state.connect(client(), "https://h/".to_string(), "tok".to_string());
    assert_eq!(text, "Connected successfully");
    assert!(state.is_online());
    let stored = state.db.get_settings();
    assert_eq!(stored.server_url, "https://h/");
    assert_eq!(stored.auth_token, "tok");
    assert_eq!(stored.sync_interval_seconds, 5);
}

#[test]
fn fetched_channels_are_cached_and_returned() {
    let mut state = AppState::new(Database::new());
    let chans = vec![Channel {
        id: "c1".to_string(),
        name: "town".to_string(),
        display_name: "Town".to_string(),
        team_id: "t".to_string(),
        channel_type: "O".to_string(),
    }];
    let back = state.channels_fetched(chans);
    assert_eq!(back.len(), 1);
    let cached = state.cached_channels();
    assert_eq!(cached.len(), 1);
    assert_eq!(cached[0].display_name, "Town");
}

#[test]
fn messages_come_from_the_cache_after_a_fetch() {
    let mut state = AppState::new(Database::new());
    let got = state.messages_fetched(Some(vec![message("a", 1), message("b", 2)]), "c", 10);
    let ids: Vec<&str> = got.iter().map(|m| m.id.as_str()).collect();
    assert_eq!(ids, vec!["b", "a"]);
    // Only new posts come with the next fetch; the answer holds all.
    let got = state.messages_fetched(Some(vec![message("n", 3)]), "c", 2);
    let ids: Vec<&str> = got.iter().map(|m| m.id.as_str()).collect();
    assert_eq!(ids, vec!["n", "b"]);
    let fallback = state.messages_fetched(None, "c", 10);
    let ids: Vec<&str> = fallback.iter().map(|m| m.id.as_str()).collect();
    assert_eq!(ids, vec!["n", "b", "a"]);
    assert_eq!(state.cached_messages("c", 1).len(), 1);
}

#[test]
fn messages_request_asks_only_for_new_posts() {
    let mut state = AppState::new(Database::new());
    assert!(state.messages_request("c", 100).is_none());
    state.connect(client(), "https://h".to_string(), "t".to_string());
    assert_eq!(
        state.messages_request("c", 100).unwrap(),
        "https://h/api/v4/channels/c/posts?per_page=100"
    );
    state.messages_fetched(Some(vec![message("a", 1700), message("b", 900)]), "c", 10);
    assert_eq!(
        state.messages_request("c", 100).unwrap(),
        "https://h/api/v4/channels/c/posts?per_page=100&since=1700"
    );
    assert_eq!(
        state.messages_request("other", 5).unwrap(),
        "https://h/api/v4/channels/other/posts?per_page=5"
    );
}

#[test]
fn unreachable_send_is_queued_and_delivered_is_not() {
    let mut state = AppState::new(Database::new());
    let (text, queued) = state.send_finished("c", "hi", SendOutcome::Answered(201)).ok().unwrap();
    assert_eq!(text, "Message sent");
    assert!(queued.is_none());
    assert!(state.db.get_queued_messages().is_empty());
    let (text, queued) = state.send_finished("c", "again", SendOutcome::Unreachable).ok().unwrap();
    assert_eq!(text, "Message queued (offline)");
    assert_eq!(queued.unwrap().id, 1);
    assert_eq!(state.db.get_queued_messages(), vec![(1, "c".to_string(), "again".to_string())]);
}

#[test]
fn refused_send_is_an_error_and_is_not_queued() {
    let mut state = AppState::new(Database::new());
    match state.send_finished("c", "hi", SendOutcome::Answered(403)) {
        Err(SendError::Refused(e)) => {
            assert!(matches!(e, ClientError::HttpStatus(403)));
            assert_eq!(error_text(&e), "HTTP error: 403 Forbidden");
        }
        _ => panic!("a refused message must give the server's error"),
    }
    assert!(state.db.get_queued_messages().is_empty());
}

#[test]
fn offline_send_is_queued() {
    let mut state = AppState::new(Database::new());
    let (text, entry) = state.queue_offline("c", "hello").ok().unwrap();
    assert_eq!(text, "Message queued (offline)");
    assert_eq!(entry.id, 1);
    assert_eq!(entry.message, "hello");
    assert_eq!(state.db.get_queued_messages(), vec![(1, "c".to_string(), "hello".to_string())]);
}

#[test]
fn save_settings_replaces_settings() {
    let mut state = AppState::new(Database::new());
    let s = Settings {
        server_url: "u".to_string(),
        auth_token: "a".to_string(),
        sync_interval_seconds: 60,
        max_messages_per_channel: 10,
    };
    assert_eq!(state.save_settings(s), "Settings saved");
    assert_eq!(state.get_settings().sync_interval_seconds, 60);
    assert_eq!(state.db.get_settings().max_messages_per_channel, 10);
}

#[test]
fn sync_offline_sends_nothing() {
    let mut state = AppState::new(Database::new());
    state.queue_offline("c", "x").ok();
    let (n, tried) = run_sync(&mut state, 10);
    assert_eq!(n, 0);
    assert!(tried.is_empty());
    assert_eq!(state.db.get_queued_messages().len(), 1);
}

#[test]
fn sync_sends_oldest_first_and_removes_sent() {
    let mut state = AppState::new(Database::new());
    state.db.queue_message_at("c", "late", 30).ok();
    state.db.queue_message_at("c", "early", 10).ok();
    state.db.queue_message_at("c", "mid", 20).ok();
    state.connect(client(), "https://h".to_string(), "t".to_string());
    let (n, tried) = run_sync(&mut state, 10);
    assert_eq!(n, 3);
    assert_eq!(tried, vec![2, 3, 1]);
    assert!(state.db.get_queued_messages().is_empty());
}

#[test]
fn sync_stops_at_first_failure() {
    let mut state = AppState::new(Database::new());
    for (i, t) in [5i64, 6, 7].iter().enumerate() {
        state.db.queue_message_at("c", &format!("m{}", i), *t).ok();
    }
    state.connect(client(), "https://h".to_string(), "t".to_string());
    let (n, tried) = run_sync(&mut state, 1);
    assert_eq!(n, 1);
    assert_eq!(tried, vec![1, 2]);
    let left: Vec<i64> = state.db.get_queued_messages().iter().map(|e| e.0).collect();
    assert_eq!(left, vec![2, 3]);
}
