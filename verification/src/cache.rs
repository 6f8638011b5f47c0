//! The local cache: channels, messages, settings and the queue of
//! messages written while offline, with the semantics of the tables that
//! the client persists (a row written under an existing key replaces the
//! old row; queued messages get increasing ids).

use vstd::prelude::*;
use crate::decimal::{
    i32_to_text, parse_i32, parse_i32_spec, parse_u64, parse_u64_spec, u64_to_text, decimal,
    signed_decimal, lemma_parse_u64_decimal, lemma_parse_i32_signed_decimal,
};
use crate::models::{
    Channel, ChannelView, Message, MessageView, Settings, SettingsView, default_settings,
    DEFAULT_MAX_MESSAGES_PER_CHANNEL, DEFAULT_SYNC_INTERVAL_SECONDS,
};
use crate::table::{
    Keyed, KeyedRow, has_key, rows_of, upsert_row, remove_row, lookup, unique_keys, upsert, upsert_all, without_key, lemma_lookup_upsert,
    lemma_upsert_unique, lemma_without_absent, lemma_without_at, lemma_without_rows,
};
use crate::timeline::{Ranked, RankedRow, by_rank, contents, sort_by_rank, lemma_by_rank};

verus! {

impl Keyed<Seq<char>> for ChannelView {
    open spec fn key(&self) -> Seq<char> {
        self.id
    }
}

impl Keyed<Seq<char>> for MessageView {
    open spec fn key(&self) -> Seq<char> {
        self.id
    }
}

/// One row of the settings table.
pub struct SettingRow {
    pub key: String,
    pub value: String,
}

/// The contents of a [`SettingRow`].
pub struct SettingRowView {
    pub key: Seq<char>,
    pub value: Seq<char>,
}

impl View for SettingRow {
    type V = SettingRowView;

    open spec fn view(&self) -> SettingRowView {
        SettingRowView { key: self.key@, value: self.value@ }
    }
}

impl Keyed<Seq<char>> for SettingRowView {
    open spec fn key(&self) -> Seq<char> {
        self.key
    }
}

/// A message written while offline, waiting to be sent.
pub struct QueuedMessage {
    pub id: i64,
    pub channel_id: String,
    pub message: String,
    pub created_at: i64,
}

/// The contents of a [`QueuedMessage`].
pub struct QueuedView {
    pub id: i64,
    pub channel_id: Seq<char>,
    pub message: Seq<char>,
    pub created_at: i64,
}

impl View for QueuedMessage {
    type V = QueuedView;

    open spec fn view(&self) -> QueuedView {
        QueuedView {
            id: self.id,
            channel_id: self.channel_id@,
            message: self.message@,
            created_at: self.created_at,
        }
    }
}

impl Keyed<i64> for QueuedView {
    open spec fn key(&self) -> i64 {
        self.id
    }
}

impl KeyedRow for Channel {
    type Key = Seq<char>;
    type Row = ChannelView;
    type KeyText = String;

    open spec fn row(&self) -> ChannelView {
        self@
    }

    open spec fn key_of(k: &String) -> Seq<char> {
        k@
    }

    fn key_is(&self, key: &String) -> (b: bool) {
        self.id == *key
    }
}

impl KeyedRow for Message {
    type Key = Seq<char>;
    type Row = MessageView;
    type KeyText = String;

    open spec fn row(&self) -> MessageView {
        self@
    }

    open spec fn key_of(k: &String) -> Seq<char> {
        k@
    }

    fn key_is(&self, key: &String) -> (b: bool) {
        self.id == *key
    }
}

impl KeyedRow for SettingRow {
    type Key = Seq<char>;
    type Row = SettingRowView;
    type KeyText = String;

    open spec fn row(&self) -> SettingRowView {
        self@
    }

    open spec fn key_of(k: &String) -> Seq<char> {
        k@
    }

    fn key_is(&self, key: &String) -> (b: bool) {
        self.key == *key
    }
}

impl KeyedRow for QueuedMessage {
    type Key = i64;
    type Row = QueuedView;
    type KeyText = i64;

    open spec fn row(&self) -> QueuedView {
        self@
    }

    open spec fn key_of(k: &i64) -> i64 {
        *k
    }

    fn key_is(&self, key: &i64) -> (b: bool) {
        self.id == *key
    }
}

/// Queued messages go out oldest first: the earlier, the higher the rank.
impl Ranked for QueuedView {
    open spec fn rank(&self) -> int {
        -(self.created_at as int)
    }
}

impl RankedRow for QueuedMessage {
    type Content = QueuedView;

    open spec fn content(&self) -> QueuedView {
        self@
    }

    fn ranks_below(&self, other: &Self) -> (b: bool) {
        self.created_at > other.created_at
    }
}

/// Why the cache refused a write.
pub enum CacheError {
    /// Every queue id up to `i64::MAX` has been used.
    QueueIdsExhausted,
}

/// The cache.
pub struct Database {
    channels: Vec<Channel>,
    messages: Vec<Message>,
    settings: Vec<SettingRow>,
    queue: Vec<QueuedMessage>,
    last_queue_id: i64,
}

/// The contents of the cache.
pub struct DatabaseView {
    pub channels: Seq<ChannelView>,
    pub messages: Seq<MessageView>,
    pub settings: Seq<SettingRowView>,
    pub queue: Seq<QueuedView>,
    /// The largest queue id ever handed out (0 before the first).
    pub last_queue_id: i64,
}

/// The contents of a sequence of channels.
pub open spec fn channel_views(s: Seq<Channel>) -> Seq<ChannelView> {
    s.map_values(|c: Channel| c@)
}

/// The contents of a sequence of setting rows.
pub open spec fn setting_views(s: Seq<SettingRow>) -> Seq<SettingRowView> {
    s.map_values(|r: SettingRow| r@)
}

impl Database {
    /// Every cache keeps the invariant of its contents.
    #[verifier::type_invariant]
    pub(crate) open spec fn inv(&self) -> bool {
        self@.wf()
    }
}

impl View for Database {
    type V = DatabaseView;

    closed spec fn view(&self) -> DatabaseView {
        DatabaseView {
            channels: channel_views(self.channels@),
            messages: contents(self.messages@),
            settings: setting_views(self.settings@),
            queue: contents(self.queue@),
            last_queue_id: self.last_queue_id,
        }
    }
}

/// Queue ids are positive, increase along the queue, and none exceeds the
/// last one handed out.
pub open spec fn queue_ids_increasing(q: Seq<QueuedView>, last: i64) -> bool {
    &&& forall|i: int, j: int| 0 <= i < j < q.len() ==> q[i].id < q[j].id
    &&& forall|i: int| 0 <= i < q.len() ==> 1 <= #[trigger] q[i].id <= last
    &&& last >= 0
}

impl DatabaseView {
    /// The invariant of the cache: keys are unique in each table, and queue
    /// ids increase.
    pub open spec fn wf(self) -> bool {
        &&& unique_keys(self.channels)
        &&& unique_keys(self.messages)
        &&& unique_keys(self.settings)
        &&& queue_ids_increasing(self.queue, self.last_queue_id)
    }
}

// ---------------------------------------------------------------------
// Settings as rows of text.

/// The key of the row of the server address.
pub open spec fn server_url_key() -> Seq<char> {
    "server_url"@
}

/// The key of the row of the token.
pub open spec fn auth_token_key() -> Seq<char> {
    "auth_token"@
}

/// The key of the row of the synchronisation interval.
pub open spec fn sync_interval_key() -> Seq<char> {
    "sync_interval_seconds"@
}

/// The key of the row of the number of messages per channel.
pub open spec fn max_messages_key() -> Seq<char> {
    "max_messages_per_channel"@
}

/// What reading one settings row does to the settings read so far: the
/// four known keys set their field (a number that does not read as one
/// gives the default), any other key is ignored.
pub open spec fn apply_setting(cur: SettingsView, row: SettingRowView) -> SettingsView {
    if row.key == server_url_key() {
        SettingsView { server_url: row.value, ..cur }
    } else if row.key == auth_token_key() {
        SettingsView { auth_token: row.value, ..cur }
    } else if row.key == sync_interval_key() {
        SettingsView {
            sync_interval_seconds: match parse_u64_spec(row.value) {
                Some(v) => v,
                None => DEFAULT_SYNC_INTERVAL_SECONDS,
            },
            ..cur
        }
    } else if row.key == max_messages_key() {
        SettingsView {
            max_messages_per_channel: match parse_i32_spec(row.value) {
                Some(v) => v,
                None => DEFAULT_MAX_MESSAGES_PER_CHANNEL,
            },
            ..cur
        }
    } else {
        cur
    }
}

/// The settings that the rows give, read in order from the defaults.
pub open spec fn settings_from_rows(rows: Seq<SettingRowView>) -> SettingsView
    decreases rows.len(),
{
    if rows.len() == 0 {
        default_settings()
    } else {
        apply_setting(settings_from_rows(rows.drop_last()), rows.last())
    }
}

/// The rows after writing `s`: one row per field, the numbers in decimal.
pub open spec fn rows_after_saving(rows: Seq<SettingRowView>, s: SettingsView) -> Seq<
    SettingRowView,
> {
    let r1 = upsert(rows, SettingRowView { key: server_url_key(), value: s.server_url });
    let r2 = upsert(r1, SettingRowView { key: auth_token_key(), value: s.auth_token });
    let r3 = upsert(
        r2,
        SettingRowView { key: sync_interval_key(), value: decimal(s.sync_interval_seconds as nat) },
    );
    upsert(
        r3,
        SettingRowView {
            key: max_messages_key(),
            value: signed_decimal(s.max_messages_per_channel as int),
        },
    )
}

/// The value of a settings row found by key, or the text a missing row
/// stands for.
pub open spec fn value_or_empty(r: Option<SettingRowView>) -> Seq<char> {
    match r {
        Some(row) => row.value,
        None => Seq::empty(),
    }
}

/// The four keys of the settings table differ from each other.
pub proof fn lemma_setting_keys_distinct()
    ensures
        server_url_key() != auth_token_key(),
        server_url_key() != sync_interval_key(),
        server_url_key() != max_messages_key(),
        auth_token_key() != sync_interval_key(),
        auth_token_key() != max_messages_key(),
        sync_interval_key() != max_messages_key(),
{
    reveal_strlit("server_url");
    reveal_strlit("auth_token");
    reveal_strlit("sync_interval_seconds");
    reveal_strlit("max_messages_per_channel");
    assert(server_url_key()[0] == 's' && auth_token_key()[0] == 'a');
    assert(sync_interval_key()[1] == 'y' && max_messages_key()[0] == 'm');
}

/// With unique keys, the settings are what the last row of each known
/// key says.
pub proof fn lemma_settings_from_unique_rows(rows: Seq<SettingRowView>)
    requires
        unique_keys(rows),
    ensures
        settings_from_rows(rows) == (SettingsView {
            server_url: value_or_empty(lookup(rows, server_url_key())),
            auth_token: value_or_empty(lookup(rows, auth_token_key())),
            sync_interval_seconds: match lookup(rows, sync_interval_key()) {
                Some(row) => match parse_u64_spec(row.value) {
                    Some(v) => v,
                    None => DEFAULT_SYNC_INTERVAL_SECONDS,
                },
                None => DEFAULT_SYNC_INTERVAL_SECONDS,
            },
            max_messages_per_channel: match lookup(rows, max_messages_key()) {
                Some(row) => match parse_i32_spec(row.value) {
                    Some(v) => v,
                    None => DEFAULT_MAX_MESSAGES_PER_CHANNEL,
                },
                None => DEFAULT_MAX_MESSAGES_PER_CHANNEL,
            },
        }),
    decreases rows.len(),
{
    if rows.len() > 0 {
        let t = rows.drop_last();
        assert(unique_keys(t)) by {
            assert forall|a: int, b: int| 0 <= a < b < t.len() implies t[a].key() != t[b].key() by {
                assert(t[a] == rows[a] && t[b] == rows[b]);
            }
        }
        lemma_settings_from_unique_rows(t);
        lemma_setting_keys_distinct();
    }
}

/// Reading the settings back after saving them gives exactly what was
/// saved: text fields as they were, numbers through their decimal text.
pub proof fn law_settings_round_trip(rows: Seq<SettingRowView>, s: SettingsView)
    requires
        unique_keys(rows),
    ensures
        settings_from_rows(rows_after_saving(rows, s)) == s,
        unique_keys(rows_after_saving(rows, s)),
{
    let x1 = SettingRowView { key: server_url_key(), value: s.server_url };
    let x2 = SettingRowView { key: auth_token_key(), value: s.auth_token };
    let x3 = SettingRowView {
        key: sync_interval_key(),
        value: decimal(s.sync_interval_seconds as nat),
    };
    let x4 = SettingRowView {
        key: max_messages_key(),
        value: signed_decimal(s.max_messages_per_channel as int),
    };
    lemma_setting_keys_distinct();
    let r1 = upsert(rows, x1);
    let r2 = upsert(r1, x2);
    let r3 = upsert(r2, x3);
    let r4 = upsert(r3, x4);
    lemma_upsert_unique(rows, x1);
    lemma_upsert_unique(r1, x2);
    lemma_upsert_unique(r2, x3);
    lemma_upsert_unique(r3, x4);
    lemma_lookup_upsert(r3, x4, server_url_key());
    lemma_lookup_upsert(r2, x3, server_url_key());
    lemma_lookup_upsert(r1, x2, server_url_key());
    lemma_lookup_upsert(rows, x1, server_url_key());
    lemma_lookup_upsert(r3, x4, auth_token_key());
    lemma_lookup_upsert(r2, x3, auth_token_key());
    lemma_lookup_upsert(r1, x2, auth_token_key());
    lemma_lookup_upsert(r3, x4, sync_interval_key());
    lemma_lookup_upsert(r2, x3, sync_interval_key());
    lemma_lookup_upsert(r3, x4, max_messages_key());
    lemma_settings_from_unique_rows(r4);
    lemma_parse_u64_decimal(s.sync_interval_seconds);
    lemma_parse_i32_signed_decimal(s.max_messages_per_channel);
}

// ---------------------------------------------------------------------
// Messages of a channel.

/// The messages of `s` that belong to the channel `channel`, in order.
pub open spec fn messages_in_channel(s: Seq<MessageView>, channel: Seq<char>) -> Seq<MessageView>
    decreases s.len(),
{
    if s.len() == 0 {
        s
    } else {
        let rest = messages_in_channel(s.drop_last(), channel);
        if s.last().channel_id == channel {
            rest.push(s.last())
        } else {
            rest
        }
    }
}

/// What the cache answers for the messages of a channel: newest first, at
/// most `limit` of them when `limit` is not negative (a negative limit
/// means no limit).
pub open spec fn latest_messages(s: Seq<MessageView>, channel: Seq<char>, limit: i32) -> Seq<
    MessageView,
> {
    let sorted = by_rank(messages_in_channel(s, channel));
    if limit < 0 || limit >= sorted.len() {
        sorted
    } else {
        sorted.take(limit as int)
    }
}

/// The latest time stamp among the messages of `s` in the channel
/// `channel`; `None` when the cache has no message of that channel.
pub open spec fn newest_create_at(s: Seq<MessageView>, channel: Seq<char>) -> Option<i64>
    decreases s.len(),
{
    if s.len() == 0 {
        None
    } else {
        let rest = newest_create_at(s.drop_last(), channel);
        if s.last().channel_id == channel {
            match rest {
                Some(t) => Some(if s.last().create_at > t { s.last().create_at } else { t }),
                None => Some(s.last().create_at),
            }
        } else {
            rest
        }
    }
}

/// The queue, oldest first, as `get_queued_messages` answers it.
pub open spec fn queue_in_order(q: Seq<QueuedView>) -> Seq<QueuedView> {
    by_rank(q)
}

/// Taking back stored queue rows one after another: a row is kept when its
/// id is above every id kept before it. Gives the rows kept and the
/// largest id among them (0 when none is kept).
pub open spec fn restored_queue(q: Seq<QueuedView>) -> (Seq<QueuedView>, i64)
    decreases q.len(),
{
    if q.len() == 0 {
        (Seq::empty(), 0)
    } else {
        let (kept, last) = restored_queue(q.drop_last());
        if q.last().id > last {
            (kept.push(q.last()), q.last().id)
        } else {
            (kept, last)
        }
    }
}

/// The cache that stored rows give back: channels, messages and settings
/// rows written in their order, queue rows taken back in theirs, and the
/// stored last queue id, or the largest restored one if that is larger.
pub open spec fn reloaded(
    channels: Seq<ChannelView>,
    messages: Seq<MessageView>,
    settings: Seq<SettingRowView>,
    queue: Seq<QueuedView>,
    last_queue_id: i64,
) -> DatabaseView {
    let (kept, last) = restored_queue(queue);
    DatabaseView {
        channels: upsert_all(Seq::empty(), channels),
        messages: upsert_all(Seq::empty(), messages),
        settings: upsert_all(Seq::empty(), settings),
        queue: kept,
        last_queue_id: if last_queue_id > last {
            last_queue_id
        } else {
            last
        },
    }
}

/// A time that a clock reading can give, in milliseconds since the Unix
/// epoch: one within chrono's range of dates, about 262,000 years either
/// side of the epoch, which is within 10^16 milliseconds of it.
pub open spec fn clock_reading_in_range(t: i64) -> bool {
    -10_000_000_000_000_000 < t < 10_000_000_000_000_000
}

/// The time now, in milliseconds since the Unix epoch (negative before
/// it).
///
/// Converts `std::time::SystemTime::now()` with chrono's
/// `DateTime::<Utc>::from` and reads `timestamp_millis`; a clock before the
/// epoch gives a negative value. The conversion unwraps chrono's range check
/// (`Utc.timestamp_opt(..).unwrap()`), so a clock beyond chrono's dates
/// (January 1, 262143 BCE to December 31, 262142 CE) would panic; claimed is
/// only that the value returned lies within those dates. Which time within
/// them is not stated: it depends on the clock.
#[verifier::external_body]
fn current_time_millis() -> (r: i64)
    ensures
        clock_reading_in_range(r),
{
    chrono::DateTime::<chrono::Utc>::from(std::time::SystemTime::now()).timestamp_millis()
}

impl Database {
    /// An empty cache.
    pub fn new() -> (db: Database)
        ensures
            db@.wf(),
            db@.channels == Seq::<ChannelView>::empty(),
            db@.messages == Seq::<MessageView>::empty(),
            db@.settings == Seq::<SettingRowView>::empty(),
            db@.queue == Seq::<QueuedView>::empty(),
            db@.last_queue_id == 0,
    {
        let db = Database {
            channels: Vec::new(),
            messages: Vec::new(),
            settings: Vec::new(),
            queue: Vec::new(),
            last_queue_id: 0,
        };
        assert(db@.channels =~= Seq::<ChannelView>::empty());
        assert(db@.messages =~= Seq::<MessageView>::empty());
        assert(db@.settings =~= Seq::<SettingRowView>::empty());
        assert(db@.queue =~= Seq::<QueuedView>::empty());
        db
    }

    /// The cache that stored rows give back, as at the start of a session:
    /// see `reloaded`. The rows of a cache give that cache back
    /// (`law_reload_gives_back`).
    pub fn from_rows(
        channels: Vec<Channel>,
        messages: Vec<Message>,
        settings: Vec<SettingRow>,
        queue: Vec<QueuedMessage>,
        last_queue_id: i64,
    ) -> (db: Database)
        ensures
            db@.wf(),
            db@ == reloaded(
                channel_views(channels@),
                contents(messages@),
                setting_views(settings@),
                contents(queue@),
                last_queue_id,
            ),
    {
        let mut db = Database::new();
        let ghost cs = channel_views(channels@);
        let mut i: usize = 0;
        assert(cs.take(0) =~= Seq::<ChannelView>::empty());
        while i < channels.len()
            invariant
                i <= channels.len(),
                cs == channel_views(channels@),
                db@.wf(),
                db@.channels == upsert_all(Seq::<ChannelView>::empty(), cs.take(i as int)),
                db@.messages == Seq::<MessageView>::empty(),
                db@.settings == Seq::<SettingRowView>::empty(),
                db@.queue == Seq::<QueuedView>::empty(),
                db@.last_queue_id == 0,
            decreases channels.len() - i,
        {
            db.save_channel(&channels[i]);
            assert(cs.take(i + 1).drop_last() =~= cs.take(i as int));
            assert(cs.take(i + 1).last() == channels@[i as int]@);
            i = i + 1;
        }
        assert(cs.take(i as int) =~= cs);
        let ghost ms = contents(messages@);
        let mut i: usize = 0;
        assert(ms.take(0) =~= Seq::<MessageView>::empty());
        while i < messages.len()
            invariant
                i <= messages.len(),
                ms == contents(messages@),
                db@.wf(),
                db@.channels == upsert_all(Seq::<ChannelView>::empty(), cs),
                db@.messages == upsert_all(Seq::<MessageView>::empty(), ms.take(i as int)),
                db@.settings == Seq::<SettingRowView>::empty(),
                db@.queue == Seq::<QueuedView>::empty(),
                db@.last_queue_id == 0,
            decreases messages.len() - i,
        {
            db.save_message(&messages[i]);
            assert(ms.take(i + 1).drop_last() =~= ms.take(i as int));
            assert(ms.take(i + 1).last() == messages@[i as int]@);
            i = i + 1;
        }
        assert(ms.take(i as int) =~= ms);
        let ghost ss = setting_views(settings@);
        let mut rest = settings;
        let ghost mut done: int = 0;
        assert(ss.take(0) =~= Seq::<SettingRowView>::empty());
        while rest.len() > 0
            invariant
                0 <= done <= ss.len(),
                rest@.len() == ss.len() - done,
                forall|k: int| 0 <= k < rest@.len() ==> #[trigger] rest@[k]@ == ss[done + k],
                db@.wf(),
                db@.channels == upsert_all(Seq::<ChannelView>::empty(), cs),
                db@.messages == upsert_all(Seq::<MessageView>::empty(), ms),
                db@.settings == upsert_all(Seq::<SettingRowView>::empty(), ss.take(done)),
                db@.queue == Seq::<QueuedView>::empty(),
                db@.last_queue_id == 0,
            decreases rest.len(),
        {
            let ghost old_rest = rest@;
            let row = rest.remove(0);
            proof {
                assert(row@ == ss[done]);
                assert forall|k: int| 0 <= k < rest@.len() implies #[trigger] rest@[k]@
                    == ss[done + 1 + k] by {
                    assert(rest@[k] == old_rest[k + 1]);
                }
                assert(ss.take(done + 1).drop_last() =~= ss.take(done));
                assert(ss.take(done + 1).last() == ss[done]);
            }
            db.put_setting(row.key, row.value);
            proof {
                done = done + 1;
            }
        }
        assert(ss.take(done) =~= ss);
        let ghost qs = contents(queue@);
        let mut rest = queue;
        let ghost mut done: int = 0;
        assert(qs.take(0) =~= Seq::<QueuedView>::empty());
        while rest.len() > 0
            invariant
                0 <= done <= qs.len(),
                rest@.len() == qs.len() - done,
                forall|k: int| 0 <= k < rest@.len() ==> #[trigger] rest@[k]@ == qs[done + k],
                db@.wf(),
                db@.channels == upsert_all(Seq::<ChannelView>::empty(), cs),
                db@.messages == upsert_all(Seq::<MessageView>::empty(), ms),
                db@.settings == upsert_all(Seq::<SettingRowView>::empty(), ss),
                (db@.queue, db@.last_queue_id) == restored_queue(qs.take(done)),
            decreases rest.len(),
        {
            let ghost old_rest = rest@;
            let entry = rest.remove(0);
            proof {
                assert(entry@ == qs[done]);
                assert forall|k: int| 0 <= k < rest@.len() implies #[trigger] rest@[k]@
                    == qs[done + 1 + k] by {
                    assert(rest@[k] == old_rest[k + 1]);
                }
                assert(qs.take(done + 1).drop_last() =~= qs.take(done));
                assert(qs.take(done + 1).last() == qs[done]);
            }
            db.restore_queued_message(entry);
            proof {
                done = done + 1;
            }
        }
        assert(qs.take(done) =~= qs);
        db.restore_last_queue_id(last_queue_id);
        db
    }

    /// Writes a channel: a cached channel with the same id is replaced and
    /// the written one comes last.
    pub fn save_channel(&mut self, channel: &Channel)
        ensures
            final(self)@.wf(),
            final(self)@.channels == upsert(old(self)@.channels, channel@),
            final(self)@.messages == old(self)@.messages,
            final(self)@.settings == old(self)@.settings,
            final(self)@.queue == old(self)@.queue,
            final(self)@.last_queue_id == old(self)@.last_queue_id,
    {
        proof {
            use_type_invariant(&*self);
        }
        let mut table = Vec::new();
        std::mem::swap(&mut table, &mut self.channels);
        assert(rows_of(table@) =~= channel_views(table@));
        upsert_row(&mut table, &channel.id, channel.duplicate());
        assert(channel_views(table@) =~= rows_of(table@));
        std::mem::swap(&mut table, &mut self.channels);
    }

    /// All cached channels.
    pub fn get_channels(&self) -> (r: Vec<Channel>)
        ensures
            channel_views(r@) == self@.channels,
    {
        let mut r: Vec<Channel> = Vec::new();
        let mut i: usize = 0;
        while i < self.channels.len()
            invariant
                i <= self.channels.len(),
                r@.len() == i,
                channel_views(r@) == channel_views(self.channels@).take(i as int),
            decreases self.channels.len() - i,
        {
            let ghost pre = r@;
            r.push(self.channels[i].duplicate());
            assert forall|k: int| 0 <= k < r@.len() implies channel_views(r@)[k] == channel_views(
                self.channels@,
            ).take(i + 1)[k] by {
                if k < i {
                    assert(channel_views(pre)[k] == pre[k]@);
                    assert(pre[k] == r@[k]);
                }
            }
            assert(channel_views(r@) =~= channel_views(self.channels@).take(i + 1));
            i = i + 1;
        }
        assert(channel_views(self.channels@).take(i as int) =~= channel_views(self.channels@));
        r
    }

    /// Writes a message: a cached message with the same id is replaced and
    /// the written one comes last.
    pub fn save_message(&mut self, message: &Message)
        ensures
            final(self)@.wf(),
            final(self)@.messages == upsert(old(self)@.messages, message@),
            final(self)@.channels == old(self)@.channels,
            final(self)@.settings == old(self)@.settings,
            final(self)@.queue == old(self)@.queue,
            final(self)@.last_queue_id == old(self)@.last_queue_id,
    {
        proof {
            use_type_invariant(&*self);
        }
        let mut table = Vec::new();
        std::mem::swap(&mut table, &mut self.messages);
        assert(rows_of(table@) =~= contents(table@));
        upsert_row(&mut table, &message.id, message.duplicate());
        assert(contents(table@) =~= rows_of(table@));
        std::mem::swap(&mut table, &mut self.messages);
    }

    /// The cached messages of a channel, newest first, at most `limit` of
    /// them (all of them when `limit` is negative).
    pub fn get_messages(&self, channel_id: &str, limit: i32) -> (r: Vec<Message>)
        ensures
            contents(r@) == latest_messages(self@.messages, channel_id@, limit),
    {
        let channel = String::from_str(channel_id);
        let ghost all = self@.messages;
        let mut found: Vec<Message> = Vec::new();
        let mut i: usize = 0;
        while i < self.messages.len()
            invariant
                i <= self.messages.len(),
                all == contents(self.messages@),
                channel@ == channel_id@,
                contents(found@) == messages_in_channel(all.take(i as int), channel_id@),
            decreases self.messages.len() - i,
        {
            let ghost pre = found@;
            assert(all.take(i + 1).drop_last() =~= all.take(i as int));
            assert(all.take(i + 1).last() == self.messages@[i as int]@);
            if self.messages[i].channel_id == channel {
                found.push(self.messages[i].duplicate());
                assert(contents(found@) =~= contents(pre).push(self.messages@[i as int]@));
            }
            i = i + 1;
        }
        assert(all.take(i as int) =~= all);
        let mut sorted = sort_by_rank(found);
        if limit >= 0 && (limit as usize) < sorted.len() {
            let ghost pre = sorted@;
            sorted.truncate(limit as usize);
            assert(contents(sorted@) =~= contents(pre).take(limit as int));
        }
        sorted
    }

    /// The latest time stamp among the cached messages of a channel.
    pub fn newest_message_time(&self, channel_id: &str) -> (r: Option<i64>)
        ensures
            r == newest_create_at(self@.messages, channel_id@),
    {
        let channel = String::from_str(channel_id);
        let ghost all = self@.messages;
        let mut newest: Option<i64> = None;
        let mut i: usize = 0;
        while i < self.messages.len()
            invariant
                i <= self.messages.len(),
                all == contents(self.messages@),
                channel@ == channel_id@,
                newest == newest_create_at(all.take(i as int), channel_id@),
            decreases self.messages.len() - i,
        {
            assert(all.take(i + 1).drop_last() =~= all.take(i as int));
            assert(all.take(i + 1).last() == self.messages@[i as int]@);
            if self.messages[i].channel_id == channel {
                let t = self.messages[i].create_at;
                newest = match newest {
                    Some(n) => Some(if t > n { t } else { n }),
                    None => Some(t),
                };
            }
            i = i + 1;
        }
        assert(all.take(i as int) =~= all);
        newest
    }

    /// Writes one settings row: a row with the same key is replaced.
    pub fn put_setting(&mut self, key: String, value: String)
        ensures
            final(self)@.wf(),
            final(self)@.settings == upsert(
                old(self)@.settings,
                SettingRowView { key: key@, value: value@ },
            ),
            final(self)@.channels == old(self)@.channels,
            final(self)@.messages == old(self)@.messages,
            final(self)@.queue == old(self)@.queue,
            final(self)@.last_queue_id == old(self)@.last_queue_id,
    {
        proof {
            use_type_invariant(&*self);
        }
        let mut table = Vec::new();
        std::mem::swap(&mut table, &mut self.settings);
        assert(rows_of(table@) =~= setting_views(table@));
        let k = key.clone();
        upsert_row(&mut table, &k, SettingRow { key, value });
        assert(setting_views(table@) =~= rows_of(table@));
        std::mem::swap(&mut table, &mut self.settings);
    }

    /// Writes the settings, one row per field, the numbers in decimal.
    /// Reading them back gives the same settings.
    pub fn save_settings(&mut self, settings: &Settings)
        ensures
            final(self)@.wf(),
            final(self)@.settings == rows_after_saving(old(self)@.settings, settings@),
            settings_from_rows(final(self)@.settings) == settings@,
            final(self)@.channels == old(self)@.channels,
            final(self)@.messages == old(self)@.messages,
            final(self)@.queue == old(self)@.queue,
            final(self)@.last_queue_id == old(self)@.last_queue_id,
    {
        proof {
            use_type_invariant(&*self);
        }
        proof {
            law_settings_round_trip(self@.settings, settings@);
        }
        self.put_setting(String::from_str("server_url"), settings.server_url.clone());
        self.put_setting(String::from_str("auth_token"), settings.auth_token.clone());
        self.put_setting(
            String::from_str("sync_interval_seconds"),
            u64_to_text(settings.sync_interval_seconds),
        );
        self.put_setting(
            String::from_str("max_messages_per_channel"),
            i32_to_text(settings.max_messages_per_channel),
        );
    }

    /// Reads the settings from the rows, starting from the defaults.
    pub fn get_settings(&self) -> (r: Settings)
        ensures
            r@ == settings_from_rows(self@.settings),
    {
        let url_key = String::from_str("server_url");
        let token_key = String::from_str("auth_token");
        let sync_key = String::from_str("sync_interval_seconds");
        let max_key = String::from_str("max_messages_per_channel");
        let ghost rows = self@.settings;
        let mut settings = Settings::default();
        let mut i: usize = 0;
        while i < self.settings.len()
            invariant
                i <= self.settings.len(),
                rows == setting_views(self.settings@),
                url_key@ == server_url_key(),
                token_key@ == auth_token_key(),
                sync_key@ == sync_interval_key(),
                max_key@ == max_messages_key(),
                settings@ == settings_from_rows(rows.take(i as int)),
            decreases self.settings.len() - i,
        {
            let row = &self.settings[i];
            assert(rows.take(i + 1).drop_last() =~= rows.take(i as int));
            assert(rows.take(i + 1).last() == row@);
            if row.key == url_key {
                settings.server_url = row.value.clone();
            } else if row.key == token_key {
                settings.auth_token = row.value.clone();
            } else if row.key == sync_key {
                settings.sync_interval_seconds = match parse_u64(row.value.as_str()) {
                    Some(v) => v,
                    None => DEFAULT_SYNC_INTERVAL_SECONDS,
                };
            } else if row.key == max_key {
                settings.max_messages_per_channel = match parse_i32(row.value.as_str()) {
                    Some(v) => v,
                    None => DEFAULT_MAX_MESSAGES_PER_CHANNEL,
                };
            }
            i = i + 1;
        }
        assert(rows.take(i as int) =~= rows);
        settings
    }

    /// Puts a message in the queue under the next id, stamped with the
    /// time now; answers the row as stored.
    pub fn queue_message(&mut self, channel_id: &str, message: &str) -> (r: Result<
        QueuedMessage,
        CacheError,
    >)
        ensures
            final(self)@.wf(),
            match r {
                Ok(e) => old(self)@.last_queue_id < i64::MAX && e.id == old(self)@.last_queue_id + 1
                    && e.channel_id@ == channel_id@ && e.message@ == message@
                    && clock_reading_in_range(e.created_at)
                    && final(self)@.last_queue_id == e.id && final(self)@.queue == old(
                    self,
                )@.queue.push(e@),
                Err(CacheError::QueueIdsExhausted) => old(self)@.last_queue_id == i64::MAX
                    && final(self)@ == old(self)@,
            },
            final(self)@.channels == old(self)@.channels,
            final(self)@.messages == old(self)@.messages,
            final(self)@.settings == old(self)@.settings,
    {
        proof {
            use_type_invariant(&*self);
        }
        let now = current_time_millis();
        self.queue_message_at(channel_id, message, now)
    }

    /// Puts a message in the queue under the next id, stamped `created_at`;
    /// answers the row as stored. Fails only when every id has been used.
    pub fn queue_message_at(&mut self, channel_id: &str, message: &str, created_at: i64) -> (r:
        Result<QueuedMessage, CacheError>)
        ensures
            final(self)@.wf(),
            match r {
                Ok(e) => old(self)@.last_queue_id < i64::MAX && e@ == (QueuedView {
                    id: (old(self)@.last_queue_id + 1) as i64,
                    channel_id: channel_id@,
                    message: message@,
                    created_at,
                }) && final(self)@.last_queue_id == e.id && final(self)@.queue == old(
                    self,
                )@.queue.push(e@),
                Err(CacheError::QueueIdsExhausted) => old(self)@.last_queue_id == i64::MAX
                    && final(self)@ == old(self)@,
            },
            final(self)@.channels == old(self)@.channels,
            final(self)@.messages == old(self)@.messages,
            final(self)@.settings == old(self)@.settings,
    {
        proof {
            use_type_invariant(&*self);
        }
        if self.last_queue_id == i64::MAX {
            return Err(CacheError::QueueIdsExhausted);
        }
        let id = self.last_queue_id + 1;
        let entry = QueuedMessage {
            id,
            channel_id: String::from_str(channel_id),
            message: String::from_str(message),
            created_at,
        };
        let stored = QueuedMessage {
            id,
            channel_id: entry.channel_id.clone(),
            message: entry.message.clone(),
            created_at,
        };
        let mut table = Vec::new();
        std::mem::swap(&mut table, &mut self.queue);
        let ghost pre = table@;
        table.push(entry);
        assert(contents(table@) =~= contents(pre).push(stored@));
        self.last_queue_id = id;
        std::mem::swap(&mut table, &mut self.queue);
        Ok(stored)
    }

    /// The queued messages as (id, channel, text), oldest first; messages
    /// queued at the same time keep the order of their ids.
    pub fn get_queued_messages(&self) -> (r: Vec<(i64, String, String)>)
        ensures
            r@.len() == queue_in_order(self@.queue).len(),
            forall|i: int|
                0 <= i < r@.len() ==> {
                    let q = #[trigger] queue_in_order(self@.queue)[i];
                    &&& r@[i].0 == q.id
                    &&& r@[i].1@ == q.channel_id
                    &&& r@[i].2@ == q.message
                },
    {
        let mut copies: Vec<QueuedMessage> = Vec::new();
        let mut i: usize = 0;
        while i < self.queue.len()
            invariant
                i <= self.queue.len(),
                copies@.len() == i,
                contents(copies@) == contents(self.queue@).take(i as int),
            decreases self.queue.len() - i,
        {
            let q = &self.queue[i];
            let ghost pre = copies@;
            copies.push(
                QueuedMessage {
                    id: q.id,
                    channel_id: q.channel_id.clone(),
                    message: q.message.clone(),
                    created_at: q.created_at,
                },
            );
            assert forall|k: int| 0 <= k < copies@.len() implies contents(copies@)[k] == contents(
                self.queue@,
            ).take(i + 1)[k] by {
                if k < i {
                    assert(contents(pre)[k] == pre[k]@);
                    assert(pre[k] == copies@[k]);
                }
            }
            assert(contents(copies@) =~= contents(self.queue@).take(i + 1));
            i = i + 1;
        }
        assert(contents(self.queue@).take(i as int) =~= contents(self.queue@));
        let sorted = sort_by_rank(copies);
        let ghost order = contents(sorted@);
        let mut rest = sorted;
        let mut r: Vec<(i64, String, String)> = Vec::new();
        while rest.len() > 0
            invariant
                r@.len() + rest@.len() == order.len(),
                forall|k: int| 0 <= k < rest@.len() ==> #[trigger] rest@[k]@ == order[r@.len() + k],
                forall|k: int|
                    0 <= k < r@.len() ==> {
                        &&& (#[trigger] r@[k]).0 == order[k].id
                        &&& r@[k].1@ == order[k].channel_id
                        &&& r@[k].2@ == order[k].message
                    },
            decreases rest.len(),
        {
            let ghost old_rest = rest@;
            let q = rest.remove(0);
            assert(q@ == order[r@.len() as int]);
            proof {
                assert forall|k: int| 0 <= k < rest@.len() implies #[trigger] rest@[k]@ == order[r@.len() + 1 + k] by {
                    assert(rest@[k] == old_rest[k + 1]);
                }
            }
            r.push((q.id, q.channel_id, q.message));
        }
        r
    }

    /// Takes back a queued message kept from an earlier session. It is
    /// accepted only when its id is above every id handed out so far, so
    /// that ids keep increasing; it then becomes the last one handed out.
    pub fn restore_queued_message(&mut self, entry: QueuedMessage) -> (r: bool)
        ensures
            final(self)@.wf(),
            r == (entry.id > old(self)@.last_queue_id),
            r ==> final(self)@.queue == old(self)@.queue.push(entry@) && final(self)@.last_queue_id
                == entry.id,
            !r ==> final(self)@ == old(self)@,
            final(self)@.channels == old(self)@.channels,
            final(self)@.messages == old(self)@.messages,
            final(self)@.settings == old(self)@.settings,
    {
        proof {
            use_type_invariant(&*self);
        }
        if entry.id <= self.last_queue_id {
            return false;
        }
        let id = entry.id;
        let ghost e = entry@;
        let mut table = Vec::new();
        std::mem::swap(&mut table, &mut self.queue);
        let ghost pre = table@;
        table.push(entry);
        assert(contents(table@) =~= contents(pre).push(e));
        self.last_queue_id = id;
        std::mem::swap(&mut table, &mut self.queue);
        true
    }

    /// Takes note that ids up to `last` were handed out in an earlier
    /// session, so that none of them is handed out again.
    pub fn restore_last_queue_id(&mut self, last: i64)
        ensures
            final(self)@.wf(),
            final(self)@.last_queue_id == if last > old(self)@.last_queue_id {
                last
            } else {
                old(self)@.last_queue_id
            },
            final(self)@.queue == old(self)@.queue,
            final(self)@.channels == old(self)@.channels,
            final(self)@.messages == old(self)@.messages,
            final(self)@.settings == old(self)@.settings,
    {
        proof {
            use_type_invariant(&*self);
        }
        if last > self.last_queue_id {
            self.last_queue_id = last;
        }
    }

    /// Deletes the queued message with this id, if there is one.
    pub fn remove_queued_message(&mut self, id: i64)
        ensures
            final(self)@.wf(),
            final(self)@.queue == without_key(old(self)@.queue, id),
            final(self)@.last_queue_id == old(self)@.last_queue_id,
            final(self)@.channels == old(self)@.channels,
            final(self)@.messages == old(self)@.messages,
            final(self)@.settings == old(self)@.settings,
    {
        proof {
            use_type_invariant(&*self);
        }
        let ghost before = self@.queue;
        proof {
            assert(unique_keys(before)) by {
                assert forall|a: int, b: int| 0 <= a < b < before.len() implies before[a].key()
                    != before[b].key() by {}
            }
            // Removing a row keeps the ids increasing.
            if has_key(before, id) {
                let j = choose|j: int| 0 <= j < before.len() && before[j].key() == id;
                lemma_without_at(before, j);
            } else {
                lemma_without_absent(before, id);
            }
        }
        let mut table = Vec::new();
        std::mem::swap(&mut table, &mut self.queue);
        assert(rows_of(table@) =~= contents(table@));
        remove_row(&mut table, &id);
        assert(contents(table@) =~= rows_of(table@));
        std::mem::swap(&mut table, &mut self.queue);
    }
}

// ---------------------------------------------------------------------
// Laws of the cache.

/// Every message of `messages_in_channel(s, c)` is a message of `s` in the
/// channel `c`, and every such message is there.
pub proof fn lemma_messages_in_channel(s: Seq<MessageView>, c: Seq<char>)
    ensures
        forall|x: MessageView|
            #[trigger] messages_in_channel(s, c).contains(x) <==> (s.contains(x) && x.channel_id
                == c),
    decreases s.len(),
{
    if s.len() > 0 {
        let t = s.drop_last();
        lemma_messages_in_channel(t, c);
        let r = messages_in_channel(s, c);
        let rest = messages_in_channel(t, c);
        assert forall|x: MessageView| r.contains(x) <==> (s.contains(x) && x.channel_id == c) by {
            if r.contains(x) {
                let m = choose|m: int| 0 <= m < r.len() && r[m] == x;
                if m < rest.len() {
                    assert(r[m] == rest[m]);
                    assert(rest.contains(x));
                    assert(t.contains(x) && x.channel_id == c);
                    let i = choose|i: int| 0 <= i < t.len() && t[i] == x;
                    assert(s[i] == t[i]);
                    assert(s.contains(x));
                } else {
                    assert(s.last().channel_id == c);
                    assert(x == s.last());
                    assert(s[s.len() - 1] == x);
                }
            }
            if s.contains(x) && x.channel_id == c {
                let i = choose|i: int| 0 <= i < s.len() && s[i] == x;
                if i < t.len() {
                    assert(t[i] == x);
                    assert(t.contains(x));
                    assert(rest.contains(x));
                    let m = choose|m: int| 0 <= m < rest.len() && rest[m] == x;
                    if s.last().channel_id == c {
                        assert(r[m] == x);
                    }
                } else {
                    assert(r[r.len() - 1] == x);
                }
            }
        }
    }
}

/// A written channel is listed; it is the only one with its id; the other
/// channels stay, and nothing else is added.
pub proof fn law_saved_channel_is_listed(db: DatabaseView, c: ChannelView)
    requires
        db.wf(),
    ensures
        upsert(db.channels, c).contains(c),
        unique_keys(upsert(db.channels, c)),
        forall|x: ChannelView|
            upsert(db.channels, c).contains(x) <==> (x == c || (db.channels.contains(x) && x.id
                != c.id)),
{
    lemma_upsert_unique(db.channels, c);
    let u = upsert(db.channels, c);
    assert(u[u.len() - 1] == c);
}

/// Every message the cache holds is among the messages of its channel that
/// the cache answers when no limit is given.
pub proof fn law_cached_message_is_read(s: Seq<MessageView>, m: MessageView)
    requires
        s.contains(m),
    ensures
        latest_messages(s, m.channel_id, -1i32).contains(m),
{
    broadcast use vstd::seq_lib::group_to_multiset_ensures;

    lemma_messages_in_channel(s, m.channel_id);
    let f = messages_in_channel(s, m.channel_id);
    lemma_by_rank(f);
    assert(f.contains(m));
    assert(f.to_multiset().count(m) > 0);
    assert(by_rank(f).to_multiset().count(m) > 0);
}

/// A written message is among the messages of its channel that the cache
/// answers when no limit is given.
pub proof fn law_saved_message_is_read(db: DatabaseView, m: MessageView)
    requires
        db.wf(),
    ensures
        latest_messages(upsert(db.messages, m), m.channel_id, -1i32).contains(m),
{
    let u = upsert(db.messages, m);
    lemma_upsert_unique(db.messages, m);
    assert(u[u.len() - 1] == m);
    law_cached_message_is_read(u, m);
}

/// What the cache answers for a channel is newest first, holds only
/// messages of that channel that the cache has, holds at most `limit` of
/// them when `limit` is not negative, and all of them when it is.
pub proof fn law_latest_messages(s: Seq<MessageView>, c: Seq<char>, limit: i32)
    ensures
        forall|i: int, j: int|
            0 <= i < j < latest_messages(s, c, limit).len() ==> latest_messages(s, c, limit)[i].create_at
                >= latest_messages(s, c, limit)[j].create_at,
        forall|x: MessageView|
            latest_messages(s, c, limit).contains(x) ==> s.contains(x) && x.channel_id == c,
        limit >= 0 ==> latest_messages(s, c, limit).len() <= limit,
        limit < 0 ==> latest_messages(s, c, limit).to_multiset() == messages_in_channel(
            s,
            c,
        ).to_multiset(),
{
    broadcast use vstd::seq_lib::group_to_multiset_ensures;

    let f = messages_in_channel(s, c);
    let sorted = by_rank(f);
    let r = latest_messages(s, c, limit);
    lemma_by_rank(f);
    lemma_messages_in_channel(s, c);
    assert forall|i: int, j: int| 0 <= i < j < r.len() implies r[i].create_at >= r[j].create_at by {
        assert(r[i] == sorted[i] && r[j] == sorted[j]);
        assert(sorted[i].rank() >= sorted[j].rank());
    }
    assert forall|x: MessageView| r.contains(x) implies s.contains(x) && x.channel_id == c by {
        let k = choose|k: int| 0 <= k < r.len() && r[k] == x;
        assert(sorted[k] == x);
        assert(sorted.contains(x));
        assert(sorted.to_multiset().count(x) > 0);
        assert(f.contains(x));
    }
}

/// Messages with time stamps that do not increase along the sequence.
pub open spec fn newest_first(t: Seq<MessageView>) -> bool {
    forall|i: int, j: int| 0 <= i < j < t.len() ==> t[i].create_at >= t[j].create_at
}

/// The messages of a channel are those that `filter` keeps.
proof fn lemma_messages_in_channel_filter(s: Seq<MessageView>, c: Seq<char>)
    ensures
        messages_in_channel(s, c) == s.filter(|m: MessageView| m.channel_id == c),
    decreases s.len(),
{
    reveal(Seq::filter);
    if s.len() > 0 {
        lemma_messages_in_channel_filter(s.drop_last(), c);
    }
}

/// What the cache answers for a channel is a newest-first list of all the
/// channel's cached messages, cut after `limit` of them: it has exactly
/// `limit` messages when the channel has more, all of them otherwise (and
/// always all of them when `limit` is negative), and it begins a
/// newest-first arrangement of every cached message of the channel, so no
/// message left out is newer than one given.
pub proof fn law_latest_messages_are_the_newest(s: Seq<MessageView>, c: Seq<char>, limit: i32)
    ensures
        ({
            let all = s.filter(|m: MessageView| m.channel_id == c);
            let r = latest_messages(s, c, limit);
            &&& r.len() == (if 0 <= limit && (limit as int) < all.len() {
                limit as int
            } else {
                all.len() as int
            })
            &&& exists|t: Seq<MessageView>|
                #[trigger] t.to_multiset() == all.to_multiset() && newest_first(t) && r == t.take(
                    r.len() as int,
                )
        }),
{
    let all = s.filter(|m: MessageView| m.channel_id == c);
    let f = messages_in_channel(s, c);
    lemma_messages_in_channel_filter(s, c);
    let sorted = by_rank(f);
    lemma_by_rank(f);
    let r = latest_messages(s, c, limit);
    assert(newest_first(sorted)) by {
        assert forall|i: int, j: int| 0 <= i < j < sorted.len() implies sorted[i].create_at
            >= sorted[j].create_at by {
            assert(sorted[i].rank() >= sorted[j].rank());
        }
    }
    if limit < 0 || limit >= sorted.len() {
        assert(sorted.take(sorted.len() as int) =~= sorted);
    }
    assert(r == sorted.take(r.len() as int));
    assert(sorted.to_multiset() == all.to_multiset());
}

/// Queued messages are handed out oldest first, and all of them.
pub proof fn law_queue_in_order(q: Seq<QueuedView>)
    ensures
        forall|i: int, j: int|
            0 <= i < j < queue_in_order(q).len() ==> queue_in_order(q)[i].created_at
                <= queue_in_order(q)[j].created_at,
        queue_in_order(q).to_multiset() == q.to_multiset(),
{
    lemma_by_rank(q);
    let r = queue_in_order(q);
    assert forall|i: int, j: int| 0 <= i < j < r.len() implies r[i].created_at <= r[j].created_at by {
        assert(r[i].rank() >= r[j].rank());
    }
}

/// Removing a queued message by id leaves no message with that id and
/// keeps every other one.
pub proof fn law_removed_from_queue(q: Seq<QueuedView>, id: i64)
    ensures
        forall|x: QueuedView| without_key(q, id).contains(x) <==> (q.contains(x) && x.id != id),
{
    lemma_without_rows(q, id);
    assert forall|x: QueuedView| without_key(q, id).contains(x) implies x.id != id by {
        let r = without_key(q, id);
        let k = choose|k: int| 0 <= k < r.len() && r[k] == x;
        if x.id == id {
            assert(has_key(r, id));
        }
    }
}

/// The latest time stamp of a channel is the time stamp of one of its
/// cached messages, and no cached message of the channel is later; there
/// is none exactly when the channel has no cached message.
pub proof fn law_newest_create_at(s: Seq<MessageView>, c: Seq<char>)
    ensures
        newest_create_at(s, c) is None <==> messages_in_channel(s, c).len() == 0,
        newest_create_at(s, c) matches Some(t) ==> (exists|m: MessageView|
            #[trigger] s.contains(m) && m.channel_id == c && m.create_at == t),
        newest_create_at(s, c) matches Some(t) ==> (forall|m: MessageView|
            #[trigger] s.contains(m) && m.channel_id == c ==> m.create_at <= t),
    decreases s.len(),
{
    if s.len() > 0 {
        let d = s.drop_last();
        law_newest_create_at(d, c);
        let x = s.last();
        assert(s[s.len() - 1] == x);
        assert forall|m: MessageView| #[trigger] d.contains(m) implies s.contains(m) by {
            let i = choose|i: int| 0 <= i < d.len() && d[i] == m;
            assert(s[i] == m);
        }
        assert forall|m: MessageView| #[trigger] s.contains(m) implies d.contains(m) || m == x by {
            let i = choose|i: int| 0 <= i < s.len() && s[i] == m;
            if i < d.len() {
                assert(d[i] == m);
            }
        }
        match newest_create_at(d, c) {
            Some(t) => {
                let w = choose|m: MessageView|
                    #[trigger] d.contains(m) && m.channel_id == c && m.create_at == t;
                assert(s.contains(w));
            },
            None => {},
        }
        assert(s.contains(x));
        match newest_create_at(s, c) {
            Some(t) => {
                assert forall|m: MessageView| #[trigger] s.contains(m) && m.channel_id == c implies m.create_at
                    <= t by {
                    if m != x {
                        assert(d.contains(m));
                        lemma_messages_in_channel(d, c);
                        assert(messages_in_channel(d, c).contains(m));
                        assert(messages_in_channel(d, c).len() > 0);
                        let td = newest_create_at(d, c)->Some_0;
                        assert(m.create_at <= td);
                    }
                }
            },
            None => {},
        }
    }
}

/// Stored rows with unique keys, written one after another into an empty
/// table, give the same table.
pub proof fn lemma_upsert_all_into_empty<K, T: Keyed<K>>(s: Seq<T>)
    requires
        unique_keys(s),
    ensures
        upsert_all(Seq::empty(), s) == s,
    decreases s.len(),
{
    if s.len() > 0 {
        let d = s.drop_last();
        assert(unique_keys(d)) by {
            assert forall|a: int, b: int| 0 <= a < b < d.len() implies d[a].key() != d[b].key() by {
                assert(d[a] == s[a] && d[b] == s[b]);
            }
        }
        lemma_upsert_all_into_empty(d);
        assert(!has_key(d, s.last().key())) by {
            if has_key(d, s.last().key()) {
                let i = choose|i: int| 0 <= i < d.len() && d[i].key() == s.last().key();
                assert(s[i] == d[i]);
                assert(s[s.len() - 1] == s.last());
            }
        }
        lemma_without_absent(d, s.last().key());
        assert(d.push(s.last()) =~= s);
    }
}

/// Queue rows with positive increasing ids are all taken back, and the
/// largest id among them is the last one.
pub proof fn lemma_restored_queue(q: Seq<QueuedView>, last: i64)
    requires
        queue_ids_increasing(q, last),
    ensures
        restored_queue(q).0 == q,
        restored_queue(q).1 == if q.len() == 0 {
            0
        } else {
            q.last().id
        },
        restored_queue(q).1 <= last,
    decreases q.len(),
{
    if q.len() > 0 {
        let d = q.drop_last();
        assert(queue_ids_increasing(d, last)) by {
            assert forall|a: int, b: int| 0 <= a < b < d.len() implies d[a].id < d[b].id by {
                assert(d[a] == q[a] && d[b] == q[b]);
            }
            assert forall|a: int| 0 <= a < d.len() implies 1 <= #[trigger] d[a].id <= last by {
                assert(d[a] == q[a]);
            }
        }
        lemma_restored_queue(d, last);
        assert(q[q.len() - 1] == q.last());
        if d.len() > 0 {
            assert(d.last() == q[d.len() - 1]);
        }
        assert(d.push(q.last()) =~= q);
    }
}

/// Taking a cache's rows back gives that cache: what was saved is what a
/// new session reads, the settings included.
pub proof fn law_reload_gives_back(db: DatabaseView)
    requires
        db.wf(),
    ensures
        reloaded(db.channels, db.messages, db.settings, db.queue, db.last_queue_id) == db,
        settings_from_rows(
            reloaded(db.channels, db.messages, db.settings, db.queue, db.last_queue_id).settings,
        ) == settings_from_rows(db.settings),
{
    lemma_upsert_all_into_empty(db.channels);
    lemma_upsert_all_into_empty(db.messages);
    lemma_upsert_all_into_empty(db.settings);
    lemma_restored_queue(db.queue, db.last_queue_id);
}

} // verus!
