//! What the client's commands decide, between the requests that the
//! application sends: what to show when the server answers and when it
//! does not, what to keep in the cache, and how queued messages are sent
//! once a connection exists.

use vstd::prelude::*;
use crate::cache::{
    CacheError, Database, DatabaseView, QueuedMessage, QueuedView, latest_messages, queue_in_order,
    rows_after_saving, settings_from_rows, channel_views, law_cached_message_is_read,
    newest_create_at,
};
use crate::mattermost::{ClientError, MattermostClient, check_status, is_success, posts_url};
use crate::models::{Channel, ChannelView, Message, MessageView, Settings, SettingsView};
use crate::table::{unique_keys, upsert_all, without_key, lemma_upsert_all, lemma_without_rows, has_key};
use crate::timeline::contents;

verus! {

/// `q` without the rows whose ids are in `ids`, removed one after another.
pub open spec fn without_ids(q: Seq<QueuedView>, ids: Seq<i64>) -> Seq<QueuedView>
    decreases ids.len(),
{
    if ids.len() == 0 {
        q
    } else {
        without_key(without_ids(q, ids.drop_last()), ids.last())
    }
}

/// How a send of a message over the connection ended.
pub enum SendOutcome {
    /// The server answered with this status.
    Answered(u16),
    /// The server could not be reached: there is no connection, or the
    /// request failed on the way.
    Unreachable,
}

/// Why the send command failed.
pub enum SendError {
    /// The server refused the message, with this error.
    Refused(ClientError),
    /// The message could not be queued.
    Queue(CacheError),
}

/// The state the commands share: the connection (when there is one), the
/// cache and the settings in use.
pub struct AppState {
    pub client: Option<MattermostClient>,
    pub db: Database,
    pub settings: Settings,
}

impl AppState {
    /// The state at start: no connection, the given cache, and the settings
    /// that the cache holds.
    pub fn new(db: Database) -> (r: AppState)
        ensures
            r.client is None,
            r.db@ == db@,
            r.settings@ == settings_from_rows(db@.settings),
    {
        let settings = db.get_settings();
        AppState { client: None, db, settings }
    }

    /// Whether the client is connected to a server.
    pub fn is_online(&self) -> (r: bool)
        ensures
            r == self.client is Some,
    {
        self.client.is_some()
    }

    /// After the server accepted the connection: keep it, take the server
    /// address and token into the settings and save them.
    pub fn connect(&mut self, client: MattermostClient, server_url: String, token: String) -> (r:
        String)
        ensures
            final(self).db@.wf(),
            final(self).client == Some(client),
            final(self).settings@ == (SettingsView {
                server_url: server_url@,
                auth_token: token@,
                ..old(self).settings@
            }),
            final(self).db@.settings == rows_after_saving(
                old(self).db@.settings,
                final(self).settings@,
            ),
            settings_from_rows(final(self).db@.settings) == final(self).settings@,
            final(self).db@.channels == old(self).db@.channels,
            final(self).db@.messages == old(self).db@.messages,
            final(self).db@.queue == old(self).db@.queue,
            r@ == "Connected successfully"@,
    {
        proof {
            use_type_invariant(&self.db);
        }
        self.client = Some(client);
        self.settings.server_url = server_url;
        self.settings.auth_token = token;
        self.db.save_settings(&self.settings);
        String::from_str("Connected successfully")
    }

    /// The channels the server listed: each is written to the cache, and
    /// they are what the command answers.
    pub fn channels_fetched(&mut self, channels: Vec<Channel>) -> (r: Vec<Channel>)
        ensures
            final(self).db@.wf(),
            r@ == channels@,
            final(self).db@.channels == upsert_all(
                old(self).db@.channels,
                channel_views(channels@),
            ),
            final(self).db@.messages == old(self).db@.messages,
            final(self).db@.settings == old(self).db@.settings,
            final(self).db@.queue == old(self).db@.queue,
            final(self).db@.last_queue_id == old(self).db@.last_queue_id,
            final(self).client == old(self).client,
            final(self).settings == old(self).settings,
    {
        proof {
            use_type_invariant(&self.db);
        }
        let mut i: usize = 0;
        while i < channels.len()
            invariant
                i <= channels.len(),
                self.db@.wf(),
                self.db@.channels == upsert_all(
                    old(self).db@.channels,
                    channel_views(channels@).take(i as int),
                ),
                self.db@.messages == old(self).db@.messages,
                self.db@.settings == old(self).db@.settings,
                self.db@.queue == old(self).db@.queue,
                self.db@.last_queue_id == old(self).db@.last_queue_id,
                self.client == old(self).client,
                self.settings == old(self).settings,
            decreases channels.len() - i,
        {
            self.db.save_channel(&channels[i]);
            proof {
                let vs = channel_views(channels@);
                assert(vs.take(i + 1).drop_last() =~= vs.take(i as int));
                assert(vs.take(i + 1).last() == channels@[i as int]@);
            }
            i = i + 1;
        }
        assert(channel_views(channels@).take(i as int) =~= channel_views(channels@));
        channels
    }

    /// The channels of the cache, for when there is no connection.
    pub fn cached_channels(&self) -> (r: Vec<Channel>)
        ensures
            channel_views(r@) == self.db@.channels,
    {
        self.db.get_channels()
    }

    /// Where the messages command asks for the posts of a channel, when
    /// there is a connection: only the posts changed after the newest
    /// cached message of the channel, or the latest `limit` posts when the
    /// cache holds none of it.
    pub fn messages_request(&self, channel_id: &str, limit: i32) -> (r: Option<String>)
        ensures
            match self.client {
                Some(c) => r matches Some(url) && url@ == posts_url(
                    c.base(),
                    channel_id@,
                    limit,
                    newest_create_at(self.db@.messages, channel_id@),
                ),
                None => r is None,
            },
    {
        match &self.client {
            Some(c) => Some(c.posts_url(channel_id, limit, self.db.newest_message_time(channel_id))),
            None => None,
        }
    }

    /// What the messages command answers once the request is over: when
    /// the server gave messages (the new ones), each is written to the
    /// cache; when the request failed (`None`), the cache stays as it is.
    /// Either way the answer is the latest messages of the channel in the
    /// cache, newest first.
    pub fn messages_fetched(
        &mut self,
        fetched: Option<Vec<Message>>,
        channel_id: &str,
        limit: i32,
    ) -> (r: Vec<Message>)
        ensures
            final(self).db@.wf(),
            match fetched {
                Some(ms) => final(self).db@.messages == upsert_all(
                    old(self).db@.messages,
                    contents(ms@),
                ) && contents(r@) == latest_messages(final(self).db@.messages, channel_id@, limit),
                None => contents(r@) == latest_messages(old(self).db@.messages, channel_id@, limit)
                    && final(self).db@.messages == old(self).db@.messages,
            },
            final(self).db@.channels == old(self).db@.channels,
            final(self).db@.settings == old(self).db@.settings,
            final(self).db@.queue == old(self).db@.queue,
            final(self).db@.last_queue_id == old(self).db@.last_queue_id,
            final(self).client == old(self).client,
            final(self).settings == old(self).settings,
    {
        proof {
            use_type_invariant(&self.db);
        }
        match fetched {
            Some(messages) => {
                let mut i: usize = 0;
                while i < messages.len()
                    invariant
                        i <= messages.len(),
                        self.db@.wf(),
                        self.db@.messages == upsert_all(
                            old(self).db@.messages,
                            contents(messages@).take(i as int),
                        ),
                        self.db@.channels == old(self).db@.channels,
                        self.db@.settings == old(self).db@.settings,
                        self.db@.queue == old(self).db@.queue,
                        self.db@.last_queue_id == old(self).db@.last_queue_id,
                        self.client == old(self).client,
                        self.settings == old(self).settings,
                    decreases messages.len() - i,
                {
                    self.db.save_message(&messages[i]);
                    proof {
                        let vs = contents(messages@);
                        assert(vs.take(i + 1).drop_last() =~= vs.take(i as int));
                        assert(vs.take(i + 1).last() == messages@[i as int]@);
                    }
                    i = i + 1;
                }
                assert(contents(messages@).take(i as int) =~= contents(messages@));
                self.db.get_messages(channel_id, limit)
            },
            None => self.db.get_messages(channel_id, limit),
        }
    }

    /// The messages of a channel from the cache, for when there is no
    /// connection.
    pub fn cached_messages(&self, channel_id: &str, limit: i32) -> (r: Vec<Message>)
        ensures
            contents(r@) == latest_messages(self.db@.messages, channel_id@, limit),
    {
        self.db.get_messages(channel_id, limit)
    }

    /// Sending without a connection: the message is queued, to be sent by
    /// the next synchronisation. Answers the command's text and the row as
    /// stored.
    pub fn queue_offline(&mut self, channel_id: &str, message: &str) -> (r: Result<
        (String, QueuedMessage),
        CacheError,
    >)
        ensures
            final(self).db@.wf(),
            match r {
                Ok((text, e)) => text@ == "Message queued (offline)"@ && e.channel_id@ == channel_id@
                    && e.message@ == message@ && e.id == old(self).db@.last_queue_id + 1
                    && final(self).db@.last_queue_id == e.id
                    && final(self).db@.queue == old(self).db@.queue.push(e@),
                Err(e) => e == CacheError::QueueIdsExhausted && final(self).db@ == old(self).db@,
            },
            r is Ok <==> old(self).db@.last_queue_id < i64::MAX,
            final(self).db@.channels == old(self).db@.channels,
            final(self).db@.messages == old(self).db@.messages,
            final(self).db@.settings == old(self).db@.settings,
            final(self).client == old(self).client,
            final(self).settings == old(self).settings,
    {
        proof {
            use_type_invariant(&self.db);
        }
        match self.db.queue_message(channel_id, message) {
            Ok(e) => Ok((String::from_str("Message queued (offline)"), e)),
            Err(e) => Err(e),
        }
    }

    /// What the send command answers once a send is over: when the server
    /// took the message, that it was sent; when it answered with a status
    /// outside 200 to 299, the error that status gives; when it could not be
    /// reached, the message is queued, to go out with the next
    /// synchronisation.
    pub fn send_finished(&mut self, channel_id: &str, message: &str, outcome: SendOutcome) -> (r:
        Result<(String, Option<QueuedMessage>), SendError>)
        ensures
            final(self).db@.wf(),
            match outcome {
                SendOutcome::Answered(status) => final(self).db@ == old(self).db@ && if is_success(
                    status,
                ) {
                    r matches Ok((text, None)) && text@ == "Message sent"@
                } else {
                    r matches Err(SendError::Refused(e)) && e == ClientError::HttpStatus(status)
                },
                SendOutcome::Unreachable => (r is Ok <==> old(self).db@.last_queue_id < i64::MAX)
                    && match r {
                    Ok((text, Some(e))) => text@ == "Message queued (offline)"@ && e.channel_id@
                        == channel_id@ && e.message@ == message@ && e.id == old(self).db@.last_queue_id
                        + 1 && final(self).db@.last_queue_id == e.id && final(self).db@.queue == old(
                        self,
                    ).db@.queue.push(e@),
                    Ok((_, None)) => false,
                    Err(e) => e == SendError::Queue(CacheError::QueueIdsExhausted) && final(self).db@
                        == old(self).db@,
                },
            },
            final(self).db@.channels == old(self).db@.channels,
            final(self).db@.messages == old(self).db@.messages,
            final(self).db@.settings == old(self).db@.settings,
            final(self).client == old(self).client,
            final(self).settings == old(self).settings,
    {
        proof {
            use_type_invariant(&self.db);
        }
        match outcome {
            SendOutcome::Answered(status) => match check_status(status) {
                Ok(()) => Ok((String::from_str("Message sent"), None)),
                Err(e) => Err(SendError::Refused(e)),
            },
            SendOutcome::Unreachable => match self.queue_offline(channel_id, message) {
                Ok((text, e)) => Ok((text, Some(e))),
                Err(e) => Err(SendError::Queue(e)),
            },
        }
    }

    /// The settings in use.
    pub fn get_settings(&self) -> (r: Settings)
        ensures
            r@ == self.settings@,
    {
        self.settings.duplicate()
    }

    /// Saves new settings to the cache and uses them from now on.
    pub fn save_settings(&mut self, settings: Settings) -> (r: String)
        ensures
            final(self).db@.wf(),
            final(self).settings@ == settings@,
            final(self).db@.settings == rows_after_saving(old(self).db@.settings, settings@),
            settings_from_rows(final(self).db@.settings) == settings@,
            final(self).db@.channels == old(self).db@.channels,
            final(self).db@.messages == old(self).db@.messages,
            final(self).db@.queue == old(self).db@.queue,
            final(self).client == old(self).client,
            r@ == "Settings saved"@,
    {
        proof {
            use_type_invariant(&self.db);
        }
        self.db.save_settings(&settings);
        self.settings = settings;
        String::from_str("Settings saved")
    }
}

/// What the synchronisation of queued messages asks for next.
pub enum SyncStep {
    /// Send this queued message.
    Send { id: i64, channel_id: String, message: String },
    /// Done: this many messages were sent.
    Finished(i32),
}

/// A run that sends the queued messages, oldest first, removing each one
/// that the server accepted, and stopping at the first that it refused.
pub struct SyncRun {
    pending: Vec<(i64, String, String)>,
    next: usize,
    sent_count: i32,
    stopped: bool,
    initial: Ghost<Seq<QueuedView>>,
}

impl SyncRun {
    /// The messages planned are the queue in sending order (or none), each
    /// copied as (id, channel, text), and every message counted as sent is
    /// one of them.
    pub closed spec fn wf(&self) -> bool {
        &&& self.next <= self.pending@.len()
        &&& self.sent_count == self.next
        &&& (self.pending@.len() == 0 || self.pending@.len() == queue_in_order(self.initial@).len())
        &&& forall|i: int|
            0 <= i < self.pending@.len() ==> {
                let q = #[trigger] queue_in_order(self.initial@)[i];
                &&& self.pending@[i].0 == q.id
                &&& self.pending@[i].1@ == q.channel_id
                &&& self.pending@[i].2@ == q.message
            }
    }

    /// The queue as it was when the run started.
    pub closed spec fn initial_queue(&self) -> Seq<QueuedView> {
        self.initial@
    }

    /// The messages the run sends, in order.
    pub closed spec fn planned(&self) -> Seq<QueuedView> {
        if self.pending@.len() == 0 {
            Seq::empty()
        } else {
            queue_in_order(self.initial@)
        }
    }

    /// How many messages have been sent and removed.
    pub closed spec fn sent(&self) -> nat {
        self.next as nat
    }

    /// Whether the server refused a message.
    pub closed spec fn has_stopped(&self) -> bool {
        self.stopped
    }

    /// The ids of the messages sent so far.
    pub open spec fn sent_ids(&self) -> Seq<i64> {
        self.planned().take(self.sent() as int).map_values(|q: QueuedView| q.id)
    }

    /// The run agrees with the cache: what has been sent is exactly what
    /// has left the queue since the run started.
    pub open spec fn tracks(&self, db: DatabaseView) -> bool {
        &&& db.wf()
        &&& db.queue == without_ids(self.initial_queue(), self.sent_ids())
    }

    /// Starts a run on the queue of the cache; without a connection there
    /// is nothing to send.
    pub fn start(state: &AppState) -> (r: SyncRun)
        ensures
            r.wf(),
            r.tracks(state.db@),
            r.initial_queue() == state.db@.queue,
            r.sent() == 0,
            !r.has_stopped(),
            state.client is Some ==> r.planned() == queue_in_order(state.db@.queue),
            state.client is None ==> r.planned() == Seq::<QueuedView>::empty(),
    {
        proof {
            use_type_invariant(&state.db);
        }
        let pending = if state.client.is_some() {
            state.db.get_queued_messages()
        } else {
            Vec::new()
        };
        let r = SyncRun {
            pending,
            next: 0,
            sent_count: 0,
            stopped: false,
            initial: Ghost(state.db@.queue),
        };
        assert(r.sent_ids() =~= Seq::<i64>::empty());
        r
    }

    /// What to do next: send the next planned message, or report how many
    /// were sent once all were sent or one was refused.
    pub fn next_step(&self) -> (r: SyncStep)
        requires
            self.wf(),
        ensures
            match r {
                SyncStep::Send { id, channel_id, message } => !self.has_stopped() && self.sent()
                    < self.planned().len() && id == self.planned()[self.sent() as int].id
                    && channel_id@ == self.planned()[self.sent() as int].channel_id && message@
                    == self.planned()[self.sent() as int].message,
                SyncStep::Finished(n) => n == self.sent() && (self.has_stopped() || self.sent()
                    == self.planned().len()),
            },
    {
        if self.stopped || self.next >= self.pending.len() {
            SyncStep::Finished(self.sent_count)
        } else {
            let entry = &self.pending[self.next];
            SyncStep::Send { id: entry.0, channel_id: entry.1.clone(), message: entry.2.clone() }
        }
    }

    /// The server accepted the message of the last `Send` step: it leaves
    /// the queue and counts as sent.
    pub fn message_sent(&mut self, state: &mut AppState)
        requires
            old(self).wf(),
            old(self).tracks(old(state).db@),
            !old(self).has_stopped(),
            old(self).sent() < old(self).planned().len(),
            old(self).sent() < i32::MAX,
        ensures
            final(self).wf(),
            final(self).tracks(final(state).db@),
            final(self).sent() == old(self).sent() + 1,
            final(self).planned() == old(self).planned(),
            final(self).initial_queue() == old(self).initial_queue(),
            !final(self).has_stopped(),
            final(state).db@.queue == without_key(
                old(state).db@.queue,
                old(self).planned()[old(self).sent() as int].id,
            ),
            final(state).db@.channels == old(state).db@.channels,
            final(state).db@.messages == old(state).db@.messages,
            final(state).db@.settings == old(state).db@.settings,
            final(state).client == old(state).client,
            final(state).settings == old(state).settings,
    {
        let id = self.pending[self.next].0;
        state.db.remove_queued_message(id);
        let ghost old_ids = self.sent_ids();
        let ghost planned = self.planned();
        self.next = self.next + 1;
        self.sent_count = self.sent_count + 1;
        let next = self.next;
        proof {
            assert(planned.take(next as int).drop_last() =~= planned.take(next - 1));
            let new_ids = planned.take(next as int).map_values(|q: QueuedView| q.id);
            assert(new_ids.drop_last() =~= old_ids);
            assert(new_ids.last() == id);
        }
    }

    /// The message of the last `Send` step did not go through: the run
    /// stops, and that message stays queued.
    pub fn message_failed(&mut self)
        requires
            old(self).wf(),
        ensures
            final(self).wf(),
            final(self).has_stopped(),
            final(self).sent() == old(self).sent(),
            final(self).planned() == old(self).planned(),
            final(self).initial_queue() == old(self).initial_queue(),
    {
        self.stopped = true;
    }
}

/// A message is left after removing a list of ids exactly when it was
/// there and its id is not in the list.
pub proof fn lemma_without_ids(q: Seq<QueuedView>, ids: Seq<i64>)
    ensures
        forall|x: QueuedView|
            #[trigger] without_ids(q, ids).contains(x) <==> (q.contains(x) && !ids.contains(x.id)),
    decreases ids.len(),
{
    if ids.len() > 0 {
        let prev = ids.drop_last();
        lemma_without_ids(q, prev);
        let w = without_ids(q, prev);
        let k = ids.last();
        lemma_without_rows(w, k);
        assert forall|x: QueuedView| #[trigger] without_ids(q, ids).contains(x) <==> (q.contains(x)
            && !ids.contains(x.id)) by {
            let r = without_key(w, k);
            if r.contains(x) {
                assert(w.contains(x));
                if x.id == k {
                    let m = choose|m: int| 0 <= m < r.len() && r[m] == x;
                    assert(has_key(r, k));
                }
                assert(!prev.contains(x.id));
                if ids.contains(x.id) {
                    let j = choose|j: int| 0 <= j < ids.len() && ids[j] == x.id;
                    if j < prev.len() {
                        assert(prev[j] == x.id);
                    } else {
                        assert(x.id == k);
                    }
                }
            }
            if q.contains(x) && !ids.contains(x.id) {
                assert(!prev.contains(x.id)) by {
                    if prev.contains(x.id) {
                        let j = choose|j: int| 0 <= j < prev.len() && prev[j] == x.id;
                        assert(ids[j] == x.id);
                    }
                }
                assert(w.contains(x));
                assert(x.id != k) by {
                    assert(ids[ids.len() - 1] == k);
                }
            }
        }
    }
}

/// While a synchronisation runs, the queue holds exactly the messages it
/// held at the start whose ids have not been sent; the sent ones are the
/// oldest, in order.
pub proof fn law_sync_keeps_unsent(run: SyncRun, db: DatabaseView)
    requires
        run.wf(),
        run.tracks(db),
    ensures
        forall|x: QueuedView|
            #[trigger] db.queue.contains(x) <==> (run.initial_queue().contains(x)
                && !run.sent_ids().contains(x.id)),
        run.sent_ids() == run.planned().take(run.sent() as int).map_values(|q: QueuedView| q.id),
{
    lemma_without_ids(run.initial_queue(), run.sent_ids());
}

/// Channels the server listed stay listed by the cache once the
/// connection is gone.
pub proof fn law_fetched_channels_listed_offline(db: DatabaseView, cs: Seq<ChannelView>)
    requires
        db.wf(),
        unique_keys(cs),
    ensures
        forall|i: int| 0 <= i < cs.len() ==> upsert_all(db.channels, cs).contains(#[trigger] cs[i]),
{
    lemma_upsert_all(db.channels, cs);
}

/// Messages the server gave stay readable from the cache once the
/// connection is gone: each is among the messages of its channel that the
/// cache answers when no limit is given.
pub proof fn law_fetched_messages_readable_offline(db: DatabaseView, ms: Seq<MessageView>, i: int)
    requires
        db.wf(),
        unique_keys(ms),
        0 <= i < ms.len(),
    ensures
        latest_messages(upsert_all(db.messages, ms), ms[i].channel_id, -1i32).contains(ms[i]),
{
    lemma_upsert_all(db.messages, ms);
    law_cached_message_is_read(upsert_all(db.messages, ms), ms[i]);
}

} // verus!
