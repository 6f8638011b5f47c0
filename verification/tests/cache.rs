use minimalchat::cache::{CacheError, Database, QueuedMessage, SettingRow};
use minimalchat::models::{Channel, Message, Settings};

fn channel(id: &str, name: &str) -> Channel {
    Channel {
        id: id.to_string(),
        name: name.to_string(),
        display_name: name.to_uppercase(),
        team_id: "team".to_string(),
        channel_type: "O".to_string(),
    }
}

fn message(id: &str, channel_id: &str, text: &str, create_at: i64) -> Message {
    Message {
        id: id.to_string(),
        channel_id: channel_id.to_string(),
        user_id: "u1".to_string(),
        username: String::new(),
        message: text.to_string(),
        create_at,
    }
}

fn ids(ms: &[Message]) -> Vec<String> {
    ms.iter().map(|m| m.id.clone()).collect()
}

#[test]
fn new_cache_is_empty() {
    let db = Database::new();
    assert!(db.get_channels().is_empty());
    assert!(db.get_messages("c", -1).is_empty());
    assert!(db.get_queued_messages().is_empty());
}

#[test]
fn saved_channel_replaces_same_id_and_moves_last() {
    let mut db = Database::new();
    db.save_channel(&channel("a", "alpha"));
    db.save_channel(&channel("b", "beta"));
    db.save_channel(&channel("a", "again"));
    let cs = db.get_channels();
    assert_eq!(cs.len(), 2);
    assert_eq!(cs[0].id, "b");
    assert_eq!(cs[1].id, "a");
    assert_eq!(cs[1].name, "again");
    assert_eq!(cs[1].display_name, "AGAIN");
}

#[test]
fn messages_of_channel_newest_first_with_limit() {
    let mut db = Database::new();
    db.save_message(&message("m1", "c1", "one", 10));
    db.save_message(&message("m2", "c2", "other", 50));
    db.save_message(&message("m3", "c1", "three", 30));
    db.save_message(&message("m4", "c1", "four", 20));
    assert_eq!(ids(&db.get_messages("c1", 100)), vec!["m3", "m4", "m1"]);
    assert_eq!(ids(&db.get_messages("c1", 2)), vec!["m3", "m4"]);
    assert_eq!(ids(&db.get_messages("c1", 0)), Vec::<String>::new());
    assert_eq!(ids(&db.get_messages("c1", -1)), vec!["m3", "m4", "m1"]);
    assert_eq!(ids(&db.get_messages("c2", 10)), vec!["m2"]);
    assert!(db.get_messages("none", 10).is_empty());
}

#[test]
fn equal_times_keep_storage_order() {
    let mut db = Database::new();
    db.save_message(&message("x", "c", "x", 5));
    db.save_message(&message("y", "c", "y", 5));
    db.save_message(&message("z", "c", "z", 7));
    assert_eq!(ids(&db.get_messages("c", -1)), vec!["z", "x", "y"]);
}

#[test]
fn saved_message_replaces_same_id() {
    let mut db = Database::new();
    db.save_message(&message("m1", "c", "old", 1));
    db.save_message(&message("m1", "c", "new", 2));
    let ms = db.get_messages("c", -1);
    assert_eq!(ms.len(), 1);
    assert_eq!(ms[0].message, "new");
    assert_eq!(ms[0].create_at, 2);
}

#[test]
fn settings_default_when_nothing_saved() {
    let db = Database::new();
    let s = db.get_settings();
    assert_eq!(s.server_url, "");
    assert_eq!(s.auth_token, "");
    assert_eq!(s.sync_interval_seconds, 5);
    assert_eq!(s.max_messages_per_channel, 100);
    let d = Settings::default();
    assert_eq!(d.sync_interval_seconds, 5);
    assert_eq!(d.max_messages_per_channel, 100);
}

#[test]
fn settings_round_trip() {
    let mut db = Database::new();
    let s = Settings {
        server_url: "https://chat.example.com".to_string(),
        auth_token: "tok".to_string(),
        sync_interval_seconds: 30,
        max_messages_per_channel: -7,
    };
    db.save_settings(&s);
    let r = db.get_settings();
    assert_eq!(r.server_url, s.server_url);
    assert_eq!(r.auth_token, s.auth_token);
    assert_eq!(r.sync_interval_seconds, 30);
    assert_eq!(r.max_messages_per_channel, -7);
    let s2 = Settings { sync_interval_seconds: u64::MAX, max_messages_per_channel: i32::MIN, ..s };
    db.save_settings(&s2);
    let r2 = db.get_settings();
    assert_eq!(r2.sync_interval_seconds, u64::MAX);
    assert_eq!(r2.max_messages_per_channel, i32::MIN);
}

#[test]
fn unreadable_numbers_fall_back_to_defaults() {
    let mut db = Database::new();
    db.put_setting("sync_interval_seconds".to_string(), "soon".to_string());
    db.put_setting("max_messages_per_channel".to_string(), "99999999999".to_string());
    db.put_setting("unknown".to_string(), "x".to_string());
    db.put_setting("server_url".to_string(), "s".to_string());
    let r = db.get_settings();
    assert_eq!(r.sync_interval_seconds, 5);
    assert_eq!(r.max_messages_per_channel, 100);
    assert_eq!(r.server_url, "s");
}

#[test]
fn queue_is_fifo_by_time_and_ids_increase() {
    let mut db = Database::new();
    let a = db.queue_message_at("c1", "first", 100);
    let b = db.queue_message_at("c2", "second", 50);
    let c = db.queue_message_at("c1", "third", 100);
    assert_eq!(a.ok().map(|e| (e.id, e.created_at)), Some((1, 100)));
    assert_eq!((b).ok().map(|e| e.id), Some(2));
    assert_eq!((c).ok().map(|e| e.id), Some(3));
    let q = db.get_queued_messages();
    assert_eq!(q, vec![
        (2, "c2".to_string(), "second".to_string()),
        (1, "c1".to_string(), "first".to_string()),
        (3, "c1".to_string(), "third".to_string()),
    ]);
}

#[test]
fn queue_message_uses_clock() {
    let mut db = Database::new();
    let before = chrono_free_now_millis();
    let entry = db.queue_message("c", "hello").ok().unwrap();
    assert_eq!(entry.id, 1);
    assert!(entry.created_at >= before);
    let q = db.get_queued_messages();
    assert_eq!(q, vec![(1, "c".to_string(), "hello".to_string())]);
    // A later message stamped by hand with an earlier time goes first.
    assert_eq!((db.queue_message_at("c", "earlier", before - 1_000_000)).ok().map(|e| e.id), Some(2));
    assert_eq!(db.get_queued_messages()[0].0, 2);
}

fn chrono_free_now_millis() -> i64 {
    std::time::SystemTime::now()
        .duration_since(std::time::UNIX_EPOCH)
        .unwrap()
        .as_millis() as i64
}

#[test]
fn removed_queued_message_is_gone_and_ids_not_reused() {
    let mut db = Database::new();
    db.queue_message_at("c", "a", 1).ok();
    db.queue_message_at("c", "b", 2).ok();
    db.remove_queued_message(1);
    db.remove_queued_message(42);
    assert_eq!(db.get_queued_messages(), vec![(2, "c".to_string(), "b".to_string())]);
    db.remove_queued_message(2);
    assert_eq!((db.queue_message_at("c", "c", 3)).ok().map(|e| e.id), Some(3));
}

#[test]
fn queue_ids_exhausted_is_an_error() {
    let mut db = Database::new();
    db.restore_last_queue_id(i64::MAX);
    assert!(matches!(db.queue_message_at("c", "x", 1), Err(CacheError::QueueIdsExhausted)));
    assert!(db.get_queued_messages().is_empty());
}

#[test]
fn restore_keeps_ids_increasing() {
    let mut db = Database::new();
    let q = |id: i64| QueuedMessage {
        id,
        channel_id: "c".to_string(),
        message: format!("m{}", id),
        created_at: id,
    };
    assert!(db.restore_queued_message(q(4)));
    assert!(!db.restore_queued_message(q(2)));
    assert!(db.restore_queued_message(q(9)));
    db.restore_last_queue_id(20);
    db.restore_last_queue_id(3);
    assert_eq!((db.queue_message_at("c", "new", 0)).ok().map(|e| e.id), Some(21));
    let ids: Vec<i64> = db.get_queued_messages().iter().map(|e| e.0).collect();
    assert_eq!(ids, vec![21, 4, 9]);
}

#[test]
fn newest_message_time_per_channel() {
    let mut db = Database::new();
    assert_eq!(db.newest_message_time("c"), None);
    db.save_message(&message("a", "c", "x", 40));
    db.save_message(&message("b", "c", "y", 90));
    db.save_message(&message("z", "d", "y", 500));
    db.save_message(&message("e", "c", "y", -3));
    assert_eq!(db.newest_message_time("c"), Some(90));
    assert_eq!(db.newest_message_time("d"), Some(500));
    assert_eq!(db.newest_message_time("x"), None);
}

#[test]
fn rows_reload_into_the_same_cache() {
    let settings = Settings {
        server_url: "https://h".to_string(),
        auth_token: String::new(),
        sync_interval_seconds: u64::MAX,
        max_messages_per_channel: -5,
    };
    let mut db = Database::new();
    db.save_settings(&settings);
    db.save_channel(&channel("a", "alpha"));
    db.save_message(&message("m", "a", "hi", 3));
    // The rows as the file keeps them.
    let rows = vec![
        SettingRow { key: "server_url".to_string(), value: "https://h".to_string() },
        SettingRow { key: "auth_token".to_string(), value: String::new() },
        SettingRow { key: "sync_interval_seconds".to_string(), value: u64::MAX.to_string() },
        SettingRow { key: "max_messages_per_channel".to_string(), value: "-5".to_string() },
    ];
    let queue = vec![
        QueuedMessage { id: 2, channel_id: "a".to_string(), message: "q2".to_string(), created_at: 9 },
        QueuedMessage { id: 5, channel_id: "a".to_string(), message: "q5".to_string(), created_at: 1 },
    ];
    let again = Database::from_rows(
        vec![channel("a", "alpha")],
        vec![message("m", "a", "hi", 3)],
        rows,
        queue,
        7,
    );
    let s = again.get_settings();
    assert_eq!(s.server_url, "https://h");
    assert_eq!(s.auth_token, "");
    assert_eq!(s.sync_interval_seconds, u64::MAX);
    assert_eq!(s.max_messages_per_channel, -5);
    assert_eq!(again.get_channels()[0].name, "alpha");
    assert_eq!(again.get_messages("a", -1)[0].message, "hi");
    let ids: Vec<i64> = again.get_queued_messages().iter().map(|e| e.0).collect();
    assert_eq!(ids, vec![5, 2]);
    let mut again = again;
    assert_eq!(again.queue_message_at("a", "next", 0).ok().map(|e| e.id), Some(8));
}
