//! The Mattermost REST API (v4) as the client uses it: the connection
//! settings, the addresses it requests, and what it makes of the replies.
//! The requests themselves are sent by the application.

use vstd::prelude::*;
use vstd::string::*;
use crate::decimal::{decimal, i32_to_text, i64_to_text, signed_decimal, u64_to_text};
use crate::json::{JsonValue, as_i64, as_str, json_of_bytes, member, parse_json};
use crate::models::{Message, MessageView};
use crate::timeline::{Ranked, by_rank, contents, sort_by_rank, lemma_by_rank};

verus! {

/// Why a request to the server did not give what the client needs.
pub enum ClientError {
    /// The token cannot stand in an HTTP header.
    InvalidAuthToken,
    /// The server answered with a status outside 200 to 299.
    HttpStatus(u16),
    /// The body of the reply is not the JSON that was expected.
    UndecodableBody,
    /// The user record has no string `id`.
    NoUserId,
    /// The first team has no string `id`.
    NoTeamId,
}

/// A character that an HTTP header value may hold: a tab, or anything from
/// the space on except DEL (characters beyond ASCII are encoded in bytes
/// from 128 up, all of which are allowed).
pub open spec fn header_char_ok(c: char) -> bool {
    c == '\t' || (c as int >= 32 && c as int != 127)
}

/// `s` can be the value of an HTTP header.
pub open spec fn header_text_ok(s: Seq<char>) -> bool {
    forall|i: int| 0 <= i < s.len() ==> header_char_ok(#[trigger] s[i])
}

/// Whether `reqwest::header::HeaderValue::from_str` accepts `text`.
///
/// Claimed, as its source shows: it accepts exactly when every byte of the
/// UTF-8 text is a tab or at least 32 and not 127, which in characters is
/// `header_text_ok`.
#[verifier::external_body]
fn header_value_accepts(text: &str) -> (r: bool)
    ensures
        r == header_text_ok(text@),
{
    reqwest::header::HeaderValue::from_str(text).is_ok()
}

/// `s` without the slashes at its end.
pub open spec fn trim_trailing_slashes(s: Seq<char>) -> Seq<char>
    decreases s.len(),
{
    if s.len() > 0 && s.last() == '/' {
        trim_trailing_slashes(s.drop_last())
    } else {
        s
    }
}

/// Removes every `/` at the end of `s`, as `s.trim_end_matches('/')` does.
pub fn trim_trailing_slashes_of(s: &str) -> (r: String)
    ensures
        r@ == trim_trailing_slashes(s@),
{
    let mut end: usize = s.unicode_len();
    assert(s@.subrange(0, end as int) =~= s@);
    while end > 0 && s.get_char(end - 1) == '/'
        invariant
            end <= s@.len(),
            trim_trailing_slashes(s@) == trim_trailing_slashes(s@.subrange(0, end as int)),
        decreases end,
    {
        assert(s@.subrange(0, end as int).drop_last() =~= s@.subrange(0, end - 1));
        end = end - 1;
    }
    String::from_str(s.substring_char(0, end))
}

/// The text of the authorization header: `Bearer ` and the token.
pub open spec fn bearer(token: Seq<char>) -> Seq<char> {
    "Bearer "@ + token
}

/// The status is one of success, 200 to 299.
pub open spec fn is_success(status: u16) -> bool {
    200 <= status < 300
}

/// Success, or the error that a reply with this status gives.
pub fn check_status(status: u16) -> (r: Result<(), ClientError>)
    ensures
        r is Ok <==> is_success(status),
        r matches Err(e) ==> e == ClientError::HttpStatus(status),
{
    if 200 <= status && status < 300 {
        Ok(())
    } else {
        Err(ClientError::HttpStatus(status))
    }
}

/// The reason phrase that the `http` crate gives a status code
/// (`StatusCode::canonical_reason`), if the code is a status that has one.
pub uninterp spec fn reason_phrase(code: u16) -> Option<Seq<char>>;

/// The reason phrase of a status code: `reqwest::StatusCode::from_u16`,
/// then `canonical_reason` on the status.
///
/// Claimed: the result is the named `reason_phrase` of the code, and a code
/// outside 100 to 999, which `from_u16` refuses, has none. The phrases
/// themselves are not stated.
#[verifier::external_body]
fn status_reason(code: u16) -> (r: Option<String>)
    ensures
        match r {
            Some(p) => reason_phrase(code) == Some(p@),
            None => reason_phrase(code) is None,
        },
        (code < 100 || code > 999) ==> r is None,
{
    match reqwest::StatusCode::from_u16(code) {
        Ok(status) => status.canonical_reason().map(String::from),
        Err(_) => None,
    }
}

/// A status as the `http` crate displays it: the number, a space, and the
/// reason phrase, or `<unknown status code>` where there is none.
pub open spec fn status_text(code: u16) -> Seq<char> {
    decimal(code as nat) + " "@ + match reason_phrase(code) {
        Some(p) => p,
        None => "<unknown status code>"@,
    }
}

/// The text of an error, as it is shown to the user.
pub open spec fn error_message(e: ClientError) -> Seq<char> {
    match e {
        ClientError::InvalidAuthToken => "failed to parse header value"@,
        ClientError::HttpStatus(code) => "HTTP error: "@ + status_text(code),
        ClientError::UndecodableBody => "error decoding response body"@,
        ClientError::NoUserId => "No user ID found"@,
        ClientError::NoTeamId => "No team ID found"@,
    }
}

/// The text of an error, as it is shown to the user.
pub fn error_text(e: &ClientError) -> (r: String)
    ensures
        r@ == error_message(*e),
{
    match e {
        ClientError::InvalidAuthToken => String::from_str("failed to parse header value"),
        ClientError::HttpStatus(code) => {
            let mut s = String::from_str("HTTP error: ");
            let number = u64_to_text(*code as u64);
            s.append(number.as_str());
            s.append(" ");
            match status_reason(*code) {
                Some(p) => s.append(p.as_str()),
                None => s.append("<unknown status code>"),
            }
            s
        },
        ClientError::UndecodableBody => String::from_str("error decoding response body"),
        ClientError::NoUserId => String::from_str("No user ID found"),
        ClientError::NoTeamId => String::from_str("No team ID found"),
    }
}

/// A connection to a server: its address without trailing slashes, the
/// token, and the text of the authorization header made from the token.
pub struct MattermostClient {
    base_url: String,
    token: String,
    auth_header: String,
}

/// Address of the current user's record.
pub open spec fn user_info_url(base: Seq<char>) -> Seq<char> {
    base + "/api/v4/users/me"@
}

/// Address of the teams of a user.
pub open spec fn teams_url(base: Seq<char>, user_id: Seq<char>) -> Seq<char> {
    base + "/api/v4/users/"@ + user_id + "/teams"@
}

/// Address of the channels of a user in a team.
pub open spec fn channels_url(base: Seq<char>, user_id: Seq<char>, team_id: Seq<char>) -> Seq<
    char,
> {
    base + "/api/v4/users/"@ + user_id + "/teams/"@ + team_id + "/channels"@
}

/// The part of the posts address that asks only for posts changed after
/// the time `since` (milliseconds since the epoch), when there is one.
pub open spec fn since_query(since: Option<i64>) -> Seq<char> {
    match since {
        Some(t) => "&since="@ + signed_decimal(t as int),
        None => Seq::empty(),
    }
}

/// Address of the posts of a channel, `limit` per page: the latest ones,
/// or, given `since`, only those changed after that time.
pub open spec fn posts_url(base: Seq<char>, channel_id: Seq<char>, limit: i32, since: Option<
    i64,
>) -> Seq<char> {
    base + "/api/v4/channels/"@ + channel_id + "/posts?per_page="@ + signed_decimal(limit as int)
        + since_query(since)
}

/// Address to which new posts are sent.
pub open spec fn send_url(base: Seq<char>) -> Seq<char> {
    base + "/api/v4/posts"@
}

impl MattermostClient {
    /// The server address, without trailing slashes.
    pub closed spec fn base(&self) -> Seq<char> {
        self.base_url@
    }

    /// The token the connection authenticates with.
    pub closed spec fn auth_token(&self) -> Seq<char> {
        self.token@
    }

    /// The text of the authorization header.
    pub closed spec fn authorization(&self) -> Seq<char> {
        self.auth_header@
    }

    /// A connection to `base_url` with `token`. Fails exactly when the
    /// token cannot stand in the authorization header.
    pub fn new(base_url: String, token: String) -> (r: Result<MattermostClient, ClientError>)
        ensures
            match r {
                Ok(c) => header_text_ok(token@) && c.base() == trim_trailing_slashes(base_url@)
                    && c.auth_token() == token@ && c.authorization() == bearer(token@)
                    && header_text_ok(c.authorization()),
                Err(e) => !header_text_ok(token@) && e == ClientError::InvalidAuthToken,
            },
    {
        let mut auth = String::from_str("Bearer ");
        auth.append(token.as_str());
        proof {
            reveal_strlit("Bearer ");
            assert(auth@ == bearer(token@));
            assert(header_text_ok(auth@) <==> header_text_ok(token@)) by {
                if header_text_ok(token@) {
                    assert forall|i: int| 0 <= i < auth@.len() implies header_char_ok(
                        #[trigger] auth@[i],
                    ) by {
                        if i >= 7 {
                            assert(auth@[i] == token@[i - 7]);
                        }
                    }
                }
                if header_text_ok(auth@) {
                    assert forall|i: int| 0 <= i < token@.len() implies header_char_ok(
                        #[trigger] token@[i],
                    ) by {
                        assert(auth@[i + 7] == token@[i]);
                    }
                }
            }
        }
        if header_value_accepts(auth.as_str()) {
            Ok(
                MattermostClient {
                    base_url: trim_trailing_slashes_of(base_url.as_str()),
                    token,
                    auth_header: auth,
                },
            )
        } else {
            Err(ClientError::InvalidAuthToken)
        }
    }

    /// The server address, without trailing slashes.
    pub fn base_url(&self) -> (r: &str)
        ensures
            r@ == self.base(),
    {
        self.base_url.as_str()
    }

    /// The token.
    pub fn token(&self) -> (r: &str)
        ensures
            r@ == self.auth_token(),
    {
        self.token.as_str()
    }

    /// The text of the authorization header, `Bearer ` and the token.
    pub fn auth_header(&self) -> (r: &str)
        ensures
            r@ == self.authorization(),
    {
        self.auth_header.as_str()
    }

    /// Where the current user's record is read.
    pub fn user_info_url(&self) -> (r: String)
        ensures
            r@ == user_info_url(self.base()),
    {
        let mut s = self.base_url.clone();
        s.append("/api/v4/users/me");
        s
    }

    /// Where the teams of a user are read.
    pub fn teams_url(&self, user_id: &str) -> (r: String)
        ensures
            r@ == teams_url(self.base(), user_id@),
    {
        let mut s = self.base_url.clone();
        s.append("/api/v4/users/");
        s.append(user_id);
        s.append("/teams");
        s
    }

    /// Where the channels of a user in a team are read.
    pub fn channels_url(&self, user_id: &str, team_id: &str) -> (r: String)
        ensures
            r@ == channels_url(self.base(), user_id@, team_id@),
    {
        let mut s = self.base_url.clone();
        s.append("/api/v4/users/");
        s.append(user_id);
        s.append("/teams/");
        s.append(team_id);
        s.append("/channels");
        s
    }

    /// Where the posts of a channel are read: the latest ones, or only
    /// those changed after `since` when it is given.
    pub fn posts_url(&self, channel_id: &str, limit: i32, since: Option<i64>) -> (r: String)
        ensures
            r@ == posts_url(self.base(), channel_id@, limit, since),
    {
        let mut s = self.base_url.clone();
        s.append("/api/v4/channels/");
        s.append(channel_id);
        s.append("/posts?per_page=");
        let n = i32_to_text(limit);
        s.append(n.as_str());
        match since {
            Some(t) => {
                s.append("&since=");
                let text = i64_to_text(t);
                s.append(text.as_str());
            },
            None => {
                assert(s@ + Seq::<char>::empty() =~= s@);
            },
        }
        s
    }

    /// Where new posts are sent.
    pub fn send_url(&self) -> (r: String)
        ensures
            r@ == send_url(self.base()),
    {
        let mut s = self.base_url.clone();
        s.append("/api/v4/posts");
        s
    }

    /// The request that sends a new post: where it goes, and its body, the
    /// JSON object `{"channel_id": …, "message": …}` (`None` if it could not
    /// be written).
    pub fn new_post(&self, channel_id: &str, message: &str) -> (r: (String, Option<Vec<u8>>))
        ensures
            r.0@ == send_url(self.base()),
            match r.1 {
                Some(b) => json_object_bytes(post_fields(channel_id@, message@)) == Some(b@),
                None => json_object_bytes(post_fields(channel_id@, message@)) is None,
            },
    {
        let mut fields: Vec<(String, String)> = Vec::new();
        fields.push((String::from_str("channel_id"), String::from_str(channel_id)));
        fields.push((String::from_str("message"), String::from_str(message)));
        assert(field_views(fields@) =~= post_fields(channel_id@, message@));
        (self.send_url(), object_bytes(fields))
    }
}

// ---------------------------------------------------------------------
// Replies.

/// The JSON document of a reply: the status must be a success, and the
/// body must be JSON.
pub fn read_json_reply(status: u16, body: &[u8]) -> (r: Result<JsonValue, ClientError>)
    ensures
        !is_success(status) ==> r == Err::<JsonValue, ClientError>(ClientError::HttpStatus(status)),
        is_success(status) ==> match json_of_bytes(body@) {
            Some(v) => r == Ok::<JsonValue, ClientError>(v),
            None => r == Err::<JsonValue, ClientError>(ClientError::UndecodableBody),
        },
{
    if !(200 <= status && status < 300) {
        return Err(ClientError::HttpStatus(status));
    }
    match parse_json(body) {
        Some(v) => Ok(v),
        None => Err(ClientError::UndecodableBody),
    }
}

/// The id in the current user's record.
pub fn user_id_of(user_info: &JsonValue) -> (r: Result<String, ClientError>)
    ensures
        match as_str(member(*user_info, "id"@)) {
            Some(id) => (r matches Ok(s) && s@ == id),
            None => r == Err::<String, ClientError>(ClientError::NoUserId),
        },
{
    match user_info.get_str("id") {
        Some(s) => Ok(s),
        None => Err(ClientError::NoUserId),
    }
}

/// What the list of teams gives: no team id when the user has no team,
/// the id of the first team otherwise; the list must be a JSON array.
pub open spec fn team_id_result(teams: JsonValue) -> Result<Option<Seq<char>>, ClientError> {
    match teams {
        JsonValue::Array(items) => if items@.len() == 0 {
            Ok(None)
        } else {
            match as_str(member(items@[0], "id"@)) {
                Some(id) => Ok(Some(id)),
                None => Err(ClientError::NoTeamId),
            }
        },
        _ => Err(ClientError::UndecodableBody),
    }
}

/// The contents of an answer that may hold a text.
pub open spec fn optional_text_result(r: Result<Option<String>, ClientError>) -> Result<
    Option<Seq<char>>,
    ClientError,
> {
    match r {
        Ok(Some(s)) => Ok(Some(s@)),
        Ok(None) => Ok(None),
        Err(e) => Err(e),
    }
}

/// The first team's id, from the list of teams.
pub fn first_team_id(teams: &JsonValue) -> (r: Result<Option<String>, ClientError>)
    ensures
        optional_text_result(r) == team_id_result(*teams),
{
    match teams {
        JsonValue::Array(items) => {
            if items.len() == 0 {
                Ok(None)
            } else {
                match items[0].get_str("id") {
                    Some(s) => Ok(Some(s)),
                    None => Err(ClientError::NoTeamId),
                }
            }
        },
        _ => Err(ClientError::UndecodableBody),
    }
}

/// Reads the reply to the teams request (whose status is not checked) and
/// finds the first team's id.
pub fn read_first_team_id(body: &[u8]) -> (r: Result<Option<String>, ClientError>)
    ensures
        optional_text_result(r) == match json_of_bytes(body@) {
            Some(v) => team_id_result(v),
            None => Err(ClientError::UndecodableBody),
        },
{
    match parse_json(body) {
        Some(v) => first_team_id(&v),
        None => Err(ClientError::UndecodableBody),
    }
}

/// Where a request for the channel list stands: which reply it waits for.
pub enum ChannelsFetch {
    /// The current user's record.
    AwaitingUser,
    /// The user's teams.
    AwaitingTeams { user_id: String },
    /// The channels of the user in the first team.
    AwaitingChannels { user_id: String, team_id: String },
}

/// What the channel list request does next.
pub enum ChannelsStep {
    /// Send a GET to `url`, and hand its reply to `next`.
    Get { url: String, next: ChannelsFetch },
    /// The body of the last reply is the list of channels.
    DecodeChannels,
    /// The user has no team: the list is empty.
    NoChannels,
    /// The request failed.
    Fail(ClientError),
}

impl MattermostClient {
    /// The first step of the channel list request: read the current
    /// user's record.
    pub fn start_channels_fetch(&self) -> (r: ChannelsStep)
        ensures
            r matches ChannelsStep::Get { url, next } && url@ == user_info_url(self.base())
                && next is AwaitingUser,
    {
        ChannelsStep::Get { url: self.user_info_url(), next: ChannelsFetch::AwaitingUser }
    }

    /// The step that follows a reply (`status`, `body`) in the channel list
    /// request: the user record gives the user id and the teams are read;
    /// the teams (whose status is not checked) give the first team, and its
    /// channels are read, or there are none when there is no team; the
    /// channels reply must be a success to be decoded.
    pub fn channels_fetch_reply(&self, state: ChannelsFetch, status: u16, body: &[u8]) -> (r:
        ChannelsStep)
        ensures
            match state {
                ChannelsFetch::AwaitingUser => if !is_success(status) {
                    r == ChannelsStep::Fail(ClientError::HttpStatus(status))
                } else {
                    match json_of_bytes(body@) {
                        None => r == ChannelsStep::Fail(ClientError::UndecodableBody),
                        Some(v) => match as_str(member(v, "id"@)) {
                            None => r == ChannelsStep::Fail(ClientError::NoUserId),
                            Some(id) => r matches ChannelsStep::Get {
                                url,
                                next: ChannelsFetch::AwaitingTeams { user_id },
                            } && user_id@ == id && url@ == teams_url(self.base(), id),
                        },
                    }
                },
                ChannelsFetch::AwaitingTeams { user_id } => match json_of_bytes(body@) {
                    None => r == ChannelsStep::Fail(ClientError::UndecodableBody),
                    Some(v) => match team_id_result(v) {
                        Err(e) => r == ChannelsStep::Fail(e),
                        Ok(None) => r == ChannelsStep::NoChannels,
                        Ok(Some(tid)) => r matches ChannelsStep::Get {
                            url,
                            next: ChannelsFetch::AwaitingChannels { user_id: u, team_id: t },
                        } && u@ == user_id@ && t@ == tid && url@ == channels_url(
                            self.base(),
                            user_id@,
                            tid,
                        ),
                    },
                },
                ChannelsFetch::AwaitingChannels { .. } => if is_success(status) {
                    r == ChannelsStep::DecodeChannels
                } else {
                    r == ChannelsStep::Fail(ClientError::HttpStatus(status))
                },
            },
    {
        match state {
            ChannelsFetch::AwaitingUser => match read_json_reply(status, body) {
                Err(e) => ChannelsStep::Fail(e),
                Ok(info) => match user_id_of(&info) {
                    Err(e) => ChannelsStep::Fail(e),
                    Ok(user_id) => {
                        let url = self.teams_url(user_id.as_str());
                        ChannelsStep::Get { url, next: ChannelsFetch::AwaitingTeams { user_id } }
                    },
                },
            },
            ChannelsFetch::AwaitingTeams { user_id } => match read_first_team_id(body) {
                Err(e) => ChannelsStep::Fail(e),
                Ok(None) => ChannelsStep::NoChannels,
                Ok(Some(team_id)) => {
                    let url = self.channels_url(user_id.as_str(), team_id.as_str());
                    ChannelsStep::Get {
                        url,
                        next: ChannelsFetch::AwaitingChannels { user_id, team_id },
                    }
                },
            },
            ChannelsFetch::AwaitingChannels { .. } => match check_status(status) {
                Ok(()) => ChannelsStep::DecodeChannels,
                Err(e) => ChannelsStep::Fail(e),
            },
        }
    }
}

/// The message that a post gives, when it has a string `id`, `channel_id`,
/// `user_id` and `message` and an integer `create_at`. The user name is
/// not part of a post and stays empty.
pub open spec fn message_from_post(post: JsonValue) -> Option<MessageView> {
    match (
        as_str(member(post, "id"@)),
        as_str(member(post, "channel_id"@)),
        as_str(member(post, "user_id"@)),
        as_str(member(post, "message"@)),
        as_i64(member(post, "create_at"@)),
    ) {
        (Some(id), Some(channel_id), Some(user_id), Some(message), Some(create_at)) => Some(
            MessageView {
                id,
                channel_id,
                user_id,
                username: Seq::empty(),
                message,
                create_at,
            },
        ),
        _ => None,
    }
}

/// The messages that the posts of an object give, in the object's order,
/// skipping incomplete posts.
pub open spec fn messages_of_posts(entries: Seq<(String, JsonValue)>) -> Seq<MessageView>
    decreases entries.len(),
{
    if entries.len() == 0 {
        Seq::empty()
    } else {
        let rest = messages_of_posts(entries.drop_last());
        match message_from_post(entries.last().1) {
            Some(m) => rest.push(m),
            None => rest,
        }
    }
}

/// The messages of a reply to the posts request: those of its `posts`
/// object (none when there is no such object), newest first.
pub open spec fn channel_messages(data: JsonValue) -> Seq<MessageView> {
    by_rank(
        match member(data, "posts"@) {
            JsonValue::Object(entries) => messages_of_posts(entries@),
            _ => Seq::empty(),
        },
    )
}

/// The message of one post, if it is complete.
fn message_of_post(post: &JsonValue) -> (r: Option<Message>)
    ensures
        match r {
            Some(m) => message_from_post(*post) == Some(m@),
            None => message_from_post(*post) is None,
        },
{
    let id = post.get_str("id");
    let channel_id = post.get_str("channel_id");
    let user_id = post.get_str("user_id");
    let message = post.get_str("message");
    let create_at = post.get_i64("create_at");
    match (id, channel_id, user_id, message, create_at) {
        (Some(id), Some(channel_id), Some(user_id), Some(message), Some(create_at)) => Some(
            Message { id, channel_id, user_id, username: String::new(), message, create_at },
        ),
        _ => None,
    }
}

/// The messages of a reply to the posts request, newest first.
pub fn messages_from_reply(data: &JsonValue) -> (r: Vec<Message>)
    ensures
        contents(r@) == channel_messages(*data),
{
    let mut found: Vec<Message> = Vec::new();
    match data.get("posts") {
        Some(JsonValue::Object(entries)) => {
            let mut i: usize = 0;
            while i < entries.len()
                invariant
                    i <= entries.len(),
                    contents(found@) == messages_of_posts(entries@.take(i as int)),
                decreases entries.len() - i,
            {
                let ghost pre = found@;
                assert(entries@.take(i + 1).drop_last() =~= entries@.take(i as int));
                assert(entries@.take(i + 1).last() == entries@[i as int]);
                match message_of_post(&entries[i].1) {
                    Some(m) => {
                        found.push(m);
                        assert(contents(found@) =~= contents(pre).push(found@.last()@));
                    },
                    None => {},
                }
                i = i + 1;
            }
            assert(entries@.take(i as int) =~= entries@);
        },
        _ => {
            assert(contents(found@) =~= Seq::<MessageView>::empty());
        },
    }
    sort_by_rank(found)
}

/// Reads the reply to the posts request: its status must be a success
/// and its body JSON; the messages are those of its posts, newest first.
pub fn read_channel_messages(status: u16, body: &[u8]) -> (r: Result<Vec<Message>, ClientError>)
    ensures
        !is_success(status) ==> (r matches Err(e) && e == ClientError::HttpStatus(status)),
        is_success(status) ==> match json_of_bytes(body@) {
            Some(v) => (r matches Ok(ms) && contents(ms@) == channel_messages(v)),
            None => (r matches Err(e) && e == ClientError::UndecodableBody),
        },
{
    match read_json_reply(status, body) {
        Ok(data) => Ok(messages_from_reply(&data)),
        Err(e) => Err(e),
    }
}

/// The bytes that `serde_json::to_vec` writes for a JSON object whose
/// members are the given (name, text) pairs, held in a `BTreeMap`; `None`
/// if they could not be written.
pub uninterp spec fn json_object_bytes(fields: Seq<(Seq<char>, Seq<char>)>) -> Option<Seq<u8>>;

/// The contents of a list of (name, text) pairs.
pub open spec fn field_views(fields: Seq<(String, String)>) -> Seq<(Seq<char>, Seq<char>)> {
    fields.map_values(|f: (String, String)| (f.0@, f.1@))
}

/// Writes a JSON object of string members: the pairs go into a
/// `std::collections::BTreeMap` and `serde_json::to_vec` writes it.
///
/// Claimed: the result is the named function `json_object_bytes` of the
/// pairs. What those bytes are is not stated.
#[verifier::external_body]
fn object_bytes(fields: Vec<(String, String)>) -> (r: Option<Vec<u8>>)
    ensures
        match r {
            Some(b) => json_object_bytes(field_views(fields@)) == Some(b@),
            None => json_object_bytes(field_views(fields@)) is None,
        },
{
    let map: std::collections::BTreeMap<String, String> = fields.into_iter().collect();
    serde_json::to_vec(&map).ok()
}

/// The members of the body of a new post: the channel and the text.
pub open spec fn post_fields(channel_id: Seq<char>, message: Seq<char>) -> Seq<
    (Seq<char>, Seq<char>),
> {
    seq![("channel_id"@, channel_id), ("message"@, message)]
}

/// Trimming leaves no slash at the end, removes only slashes, and trimming
/// again changes nothing.
pub proof fn law_trim_trailing_slashes(s: Seq<char>)
    ensures
        ({
            let t = trim_trailing_slashes(s);
            &&& t.len() <= s.len()
            &&& t == s.take(t.len() as int)
            &&& t.len() == 0 || t.last() != '/'
            &&& forall|i: int| t.len() <= i < s.len() ==> s[i] == '/'
            &&& trim_trailing_slashes(t) == t
        }),
    decreases s.len(),
{
    if s.len() > 0 && s.last() == '/' {
        let d = s.drop_last();
        law_trim_trailing_slashes(d);
        let t = trim_trailing_slashes(d);
        assert(t == d.take(t.len() as int));
        assert(s.take(t.len() as int) =~= d.take(t.len() as int));
        assert forall|i: int| t.len() <= i < s.len() implies s[i] == '/' by {
            if i < d.len() {
                assert(s[i] == d[i]);
            }
        }
    } else {
        assert(s.take(s.len() as int) =~= s);
    }
}

/// The messages of a reply are newest first, and are the complete posts
/// of its `posts` object.
pub proof fn law_channel_messages(data: JsonValue)
    ensures
        forall|i: int, j: int|
            0 <= i < j < channel_messages(data).len() ==> channel_messages(data)[i].create_at
                >= channel_messages(data)[j].create_at,
        channel_messages(data).to_multiset() == (match member(data, "posts"@) {
            JsonValue::Object(entries) => messages_of_posts(entries@),
            _ => Seq::empty(),
        }).to_multiset(),
{
    let posts = match member(data, "posts"@) {
        JsonValue::Object(entries) => messages_of_posts(entries@),
        _ => Seq::<MessageView>::empty(),
    };
    lemma_by_rank(posts);
    let r = channel_messages(data);
    assert forall|i: int, j: int| 0 <= i < j < r.len() implies r[i].create_at >= r[j].create_at by {
        assert(r[i].rank() >= r[j].rank());
    }
}


/// The team whose channels are listed is the first of the user's teams: the
/// answer depends on the first element of the list alone, and is its `id`
/// when that is a string (`NoTeamId` otherwise). A list with no team gives
/// no team; anything but a list cannot be read.
pub proof fn law_first_team(teams: Vec<JsonValue>, others: Vec<JsonValue>)
    ensures
        teams@.len() > 0 ==> team_id_result(JsonValue::Array(teams)) == match as_str(
            member(teams@[0], "id"@),
        ) {
            Some(id) => Ok::<Option<Seq<char>>, ClientError>(Some(id)),
            None => Err(ClientError::NoTeamId),
        },
        teams@.len() > 0 && others@.len() > 0 && teams@[0] == others@[0] ==> team_id_result(
            JsonValue::Array(teams),
        ) == team_id_result(JsonValue::Array(others)),
        teams@.len() == 0 ==> team_id_result(JsonValue::Array(teams)) == Ok::<
            Option<Seq<char>>,
            ClientError,
        >(None),
{
}


/// The post `post` carries the message `m`: each field of `m` is the member
/// of the same name (`create_at` as an integer), and the user name, which a
/// post does not have, is empty.
pub open spec fn post_carries(post: JsonValue, m: MessageView) -> bool {
    &&& as_str(member(post, "id"@)) == Some(m.id)
    &&& as_str(member(post, "channel_id"@)) == Some(m.channel_id)
    &&& as_str(member(post, "user_id"@)) == Some(m.user_id)
    &&& as_str(member(post, "message"@)) == Some(m.message)
    &&& as_i64(member(post, "create_at"@)) == Some(m.create_at)
    &&& m.username == Seq::<char>::empty()
}

/// A message is among those of a list of posts exactly when one of the
/// posts gives it.
proof fn lemma_messages_of_posts(entries: Seq<(String, JsonValue)>)
    ensures
        forall|m: MessageView|
            #[trigger] messages_of_posts(entries).contains(m) <==> exists|i: int|
                0 <= i < entries.len() && message_from_post(entries[i].1) == Some(m),
    decreases entries.len(),
{
    if entries.len() > 0 {
        let t = entries.drop_last();
        lemma_messages_of_posts(t);
        let rest = messages_of_posts(t);
        let r = messages_of_posts(entries);
        assert forall|m: MessageView| #[trigger] r.contains(m) <==> exists|i: int|
            0 <= i < entries.len() && message_from_post(entries[i].1) == Some(m) by {
            if r.contains(m) {
                let k = choose|k: int| 0 <= k < r.len() && r[k] == m;
                if k < rest.len() {
                    assert(r[k] == rest[k]);
                    assert(rest.contains(m));
                    let i = choose|i: int| 0 <= i < t.len() && message_from_post(t[i].1) == Some(m);
                    assert(entries[i] == t[i]);
                } else {
                    assert(message_from_post(entries[entries.len() - 1].1) == Some(m));
                }
            }
            if exists|i: int| 0 <= i < entries.len() && message_from_post(entries[i].1) == Some(m) {
                let i = choose|i: int| 0 <= i < entries.len() && message_from_post(entries[i].1)
                    == Some(m);
                if i < t.len() {
                    assert(entries[i] == t[i]);
                    assert(rest.contains(m));
                    let k = choose|k: int| 0 <= k < rest.len() && rest[k] == m;
                    assert(r[k] == rest[k]);
                } else {
                    assert(r[r.len() - 1] == m);
                }
            }
        }
    }
}

/// The messages read from a reply are its posts, field by field: each one
/// is carried by some post of the `posts` object, and every post that
/// carries a message gives it, whatever else the post holds. A reply
/// without a `posts` object gives no message.
pub proof fn law_reply_messages(data: JsonValue)
    ensures
        match member(data, "posts"@) {
            JsonValue::Object(entries) => {
                &&& forall|m: MessageView| #[trigger]
                    channel_messages(data).contains(m) ==> exists|i: int|
                        0 <= i < entries@.len() && post_carries(entries@[i].1, m)
                &&& forall|i: int, m: MessageView|
                    0 <= i < entries@.len() && #[trigger] post_carries(entries@[i].1, m)
                        ==> channel_messages(data).contains(m)
            },
            _ => channel_messages(data).len() == 0,
        },
{
    broadcast use vstd::seq_lib::group_to_multiset_ensures;

    match member(data, "posts"@) {
        JsonValue::Object(entries) => {
            let e = entries@;
            let posts = messages_of_posts(e);
            lemma_messages_of_posts(e);
            lemma_by_rank(posts);
            let r = channel_messages(data);
            assert(r == by_rank(posts));
            assert forall|m: MessageView| #[trigger] r.contains(m) implies exists|i: int|
                0 <= i < e.len() && post_carries(e[i].1, m) by {
                assert(r.to_multiset().count(m) > 0);
                assert(posts.contains(m));
                let i = choose|i: int| 0 <= i < e.len() && message_from_post(e[i].1) == Some(m);
                assert(post_carries(e[i].1, m));
            }
            assert forall|i: int, m: MessageView|
                0 <= i < e.len() && #[trigger] post_carries(e[i].1, m) implies r.contains(m) by {
                assert(message_from_post(e[i].1) == Some(m));
                assert(posts.contains(m));
                assert(posts.to_multiset().count(m) > 0);
            }
        },
        _ => {
            lemma_by_rank(Seq::<MessageView>::empty());
        },
    }
}

} // verus!
