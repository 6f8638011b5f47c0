//! The records the client shows and caches: channels, messages, users and
//! the user's settings.

use vstd::prelude::*;

verus! {

/// A channel of a team, as the server lists it and the cache keeps it.
pub struct Channel {
    pub id: String,
    pub name: String,
    pub display_name: String,
    pub team_id: String,
    pub channel_type: String,
}

/// The mathematical content of a [`Channel`].
pub struct ChannelView {
    pub id: Seq<char>,
    pub name: Seq<char>,
    pub display_name: Seq<char>,
    pub team_id: Seq<char>,
    pub channel_type: Seq<char>,
}

impl View for Channel {
    type V = ChannelView;

    open spec fn view(&self) -> ChannelView {
        ChannelView {
            id: self.id@,
            name: self.name@,
            display_name: self.display_name@,
            team_id: self.team_id@,
            channel_type: self.channel_type@,
        }
    }
}

impl Channel {
    /// A copy of this channel with equal contents.
    pub fn duplicate(&self) -> (r: Channel)
        ensures
            r@ == self@,
    {
        Channel {
            id: self.id.clone(),
            name: self.name.clone(),
            display_name: self.display_name.clone(),
            team_id: self.team_id.clone(),
            channel_type: self.channel_type.clone(),
        }
    }
}

/// A post in a channel. `create_at` is the server's time stamp in
/// milliseconds since the Unix epoch.
pub struct Message {
    pub id: String,
    pub channel_id: String,
    pub user_id: String,
    pub username: String,
    pub message: String,
    pub create_at: i64,
}

/// The mathematical content of a [`Message`].
pub struct MessageView {
    pub id: Seq<char>,
    pub channel_id: Seq<char>,
    pub user_id: Seq<char>,
    pub username: Seq<char>,
    pub message: Seq<char>,
    pub create_at: i64,
}

impl View for Message {
    type V = MessageView;

    open spec fn view(&self) -> MessageView {
        MessageView {
            id: self.id@,
            channel_id: self.channel_id@,
            user_id: self.user_id@,
            username: self.username@,
            message: self.message@,
            create_at: self.create_at,
        }
    }
}

impl Message {
    /// A copy of this message with equal contents.
    pub fn duplicate(&self) -> (r: Message)
        ensures
            r@ == self@,
    {
        Message {
            id: self.id.clone(),
            channel_id: self.channel_id.clone(),
            user_id: self.user_id.clone(),
            username: self.username.clone(),
            message: self.message.clone(),
            create_at: self.create_at,
        }
    }
}

/// A user of the server.
pub struct User {
    pub id: String,
    pub username: String,
}

/// What the user has configured.
pub struct Settings {
    pub server_url: String,
    pub auth_token: String,
    pub sync_interval_seconds: u64,
    pub max_messages_per_channel: i32,
}

/// The mathematical content of [`Settings`].
pub struct SettingsView {
    pub server_url: Seq<char>,
    pub auth_token: Seq<char>,
    pub sync_interval_seconds: u64,
    pub max_messages_per_channel: i32,
}

impl View for Settings {
    type V = SettingsView;

    open spec fn view(&self) -> SettingsView {
        SettingsView {
            server_url: self.server_url@,
            auth_token: self.auth_token@,
            sync_interval_seconds: self.sync_interval_seconds,
            max_messages_per_channel: self.max_messages_per_channel,
        }
    }
}

/// Synchronisation interval used when none is configured.
pub const DEFAULT_SYNC_INTERVAL_SECONDS: u64 = 5;

/// Number of messages per channel used when none is configured.
pub const DEFAULT_MAX_MESSAGES_PER_CHANNEL: i32 = 100;

/// Settings before the user has configured anything: no server, no token,
/// a sync every 5 seconds and 100 messages per channel.
pub open spec fn default_settings() -> SettingsView {
    SettingsView {
        server_url: Seq::empty(),
        auth_token: Seq::empty(),
        sync_interval_seconds: DEFAULT_SYNC_INTERVAL_SECONDS,
        max_messages_per_channel: DEFAULT_MAX_MESSAGES_PER_CHANNEL,
    }
}

impl Default for Settings {
    fn default() -> (r: Settings)
        ensures
            r@ == default_settings(),
    {
        Settings {
            server_url: String::new(),
            auth_token: String::new(),
            sync_interval_seconds: DEFAULT_SYNC_INTERVAL_SECONDS,
            max_messages_per_channel: DEFAULT_MAX_MESSAGES_PER_CHANNEL,
        }
    }
}

impl Settings {
    /// A copy of these settings with equal contents.
    pub fn duplicate(&self) -> (r: Settings)
        ensures
            r@ == self@,
    {
        Settings {
            server_url: self.server_url.clone(),
            auth_token: self.auth_token.clone(),
            sync_interval_seconds: self.sync_interval_seconds,
            max_messages_per_channel: self.max_messages_per_channel,
        }
    }
}

} // verus!
