//! Game diagnostics: which journal records are acceptable, the event reported for a record,
//! and the delivery bookkeeping of the relay (duplicates, opt-out, hourly cap, back-off).
//! Reading and writing the journal and posting envelopes happen around these decisions.
use crate::paths::bytes_of;
use crate::bindings::{lossy_text, since_unix_epoch, system_time_now, whole_seconds};
use crate::text::{ascii_lower_seq, ascii_lowercase, decimal, decimal_text, hex8_text, hex_width};
use crate::updater::{FileEntry, Manifest};
use crate::scrub::{lines_of, scrub, scrubbed, split_words, words_of};
use crate::text::{has_infix, matches_at};
use vstd::utf8::{decode_utf8, encode_utf8_decode_utf8, encode_utf8_valid_utf8, is_char_boundary};
use crate::bindings::{parse_url, url_parse};
use crate::text::{
    byte_vecs_view, chars_of, char_vecs_view, join2, join3, owned, split_bytes, split_chars,
    split_once, split_once_chars, split_seq, str_eq, text_of, trim, trimmed,
};
use crate::updater::{sha256_bytes, sha256_hex_spec, UrlView};
use vstd::prelude::*;
use vstd::string::*;

verus! {

/// The project's public Sentry DSN.
pub const DSN: &'static str =
    "https://852918cc0856586121415e03184d42a4@o4512077726285824.ingest.de.sentry.io/4512077733036112";

/// Largest journal (or native log tail) read, in bytes.
pub const MAX_FILE_BYTES: u64 = 262144;

/// Number of delivered event ids remembered.
pub const MAX_SENT_IDS: usize = 2048;

/// Largest number of delivery attempts in one flush.
pub const MAX_BATCH: usize = 4;

/// Largest number of events delivered in one clock hour.
pub const MAX_HOURLY_EVENTS: u32 = 120;

/// Longest journal line accepted, newline included.
pub const MAX_LINE_BYTES: usize = 32768;

/// One line of the diagnostics journal written by the game or the launcher.
pub struct Record {
    pub schema: u32,
    pub id: String,
    pub timestamp: u64,
    pub client_version: String,
    pub build: String,
    pub kind: String,
    pub component: String,
    pub message: String,
    pub context: String,
    pub trace: String,
    pub upload: bool,
}

/// Whether a record kind is one the relay knows.
pub open spec fn known_kind(kind: Seq<char>) -> bool {
    ||| kind == "lua_error"@
    ||| kind == "diagnostic"@
    ||| kind == "game_started"@
    ||| kind == "game_exited"@
    ||| kind == "client_crash"@
    ||| kind == "launcher_error"@
    ||| kind == "native_error"@
    ||| kind == "native_warning"@
}

/// A record the relay accepts: schema 1, a non-empty id, fields within their byte limits and a
/// known kind.
pub open spec fn record_valid(r: Record) -> bool {
    &&& r.schema == 1
    &&& r.id@.len() > 0
    &&& bytes_of(r.id@).len() <= 64
    &&& bytes_of(r.client_version@).len() <= 64
    &&& bytes_of(r.build@).len() <= 64
    &&& bytes_of(r.component@).len() <= 64
    &&& bytes_of(r.message@).len() <= 2048
    &&& bytes_of(r.context@).len() <= 1024
    &&& bytes_of(r.trace@).len() <= 2048
    &&& known_kind(r.kind@)
}

/// Whether `kind` is one of the eight known kinds.
fn is_known_kind(kind: &str) -> (r: bool)
    ensures
        r == known_kind(kind@),
{
    str_eq(kind, "lua_error") || str_eq(kind, "diagnostic") || str_eq(kind, "game_started")
        || str_eq(kind, "game_exited") || str_eq(kind, "client_crash") || str_eq(
        kind,
        "launcher_error",
    ) || str_eq(kind, "native_error") || str_eq(kind, "native_warning")
}

/// The length of a string in UTF-8 bytes (`String::len`).
fn byte_len(s: &String) -> (n: usize)
    ensures
        n == bytes_of(s@).len(),
{
    s.as_str().as_bytes().len()
}

impl Record {
    /// Whether the relay accepts this record.
    pub fn valid(&self) -> (r: bool)
        ensures
            r == record_valid(*self),
    {
        self.schema == 1 && !self.id.as_str().is_empty() && byte_len(&self.id) <= 64 && byte_len(
            &self.client_version,
        ) <= 64 && byte_len(&self.build) <= 64 && byte_len(&self.component) <= 64 && byte_len(
            &self.message,
        ) <= 2048 && byte_len(&self.context) <= 1024 && byte_len(&self.trace) <= 2048
            && is_known_kind(self.kind.as_str())
    }
}

/// A journal line without `upload` is uploaded.
pub fn default_upload() -> (r: bool)
    ensures
        r,
{
    true
}

/// Record kinds reported as errors.
pub open spec fn error_kind(kind: Seq<char>) -> bool {
    ||| kind == "lua_error"@
    ||| kind == "client_crash"@
    ||| kind == "launcher_error"@
    ||| kind == "native_error"@
}

/// The event level of a record kind.
pub open spec fn level_of(kind: Seq<char>) -> Seq<char> {
    if error_kind(kind) {
        "error"@
    } else if kind == "native_warning"@ {
        "warning"@
    } else {
        "info"@
    }
}

/// The exception type reported for an error kind.
pub open spec fn exception_type(kind: Seq<char>) -> Seq<char> {
    if kind == "lua_error"@ {
        "LuaError"@
    } else {
        "ClientError"@
    }
}

/// The text before the last `c` in `s` (`str::rsplit_once(c)`'s first half), if `s` holds `c`.
pub open spec fn before_last(s: Seq<char>, c: char) -> Option<Seq<char>>
    decreases s.len(),
{
    if s.len() == 0 {
        None
    } else if s.last() == c {
        Some(s.drop_last())
    } else {
        before_last(s.drop_last(), c)
    }
}

/// The session a record id belongs to: the id up to its last `-`, or the whole id.
pub open spec fn session_of(id: Seq<char>) -> Seq<char> {
    match before_last(id, '-') {
        Some(s) => s,
        None => id,
    }
}

/// The event id of a record: the first 32 hexadecimal digits of SHA-256 over `build:id`.
pub open spec fn event_id_of(build: Seq<char>, id: Seq<char>) -> Seq<char> {
    sha256_hex_spec(bytes_of(build + ":"@ + id)).take(32)
}

/// Context keys that become event tags.
pub open spec fn tag_key(k: Seq<char>) -> bool {
    ||| k == "backend"@
    ||| k == "os"@
    ||| k == "patch"@
    ||| k == "outline"@
    ||| k == "modern_m2"@
    ||| k == "duration_seconds"@
    ||| k == "exit_code"@
    ||| k == "map"@
    ||| k == "renderer"@
    ||| k == "multisample"@
    ||| k == "resolution"@
    ||| k == "monitor"@
    ||| k == "resolution_configured"@
    ||| k == "resolution_source"@
    ||| k == "hw_detect_disabled"@
}

/// The position of the first pair with key `k`.
pub open spec fn key_index(tags: Seq<(Seq<char>, Seq<char>)>, k: Seq<char>) -> Option<int> {
    if exists|i: int| 0 <= i < tags.len() && tags[i].0 == k {
        Some(
            choose|i: int|
                0 <= i < tags.len() && tags[i].0 == k && forall|j: int|
                    0 <= j < i ==> tags[j].0 != k,
        )
    } else {
        None
    }
}

/// Sets tag `k` to `v`: replaces the value where `k` is present, else appends the pair.
pub open spec fn upsert(tags: Seq<(Seq<char>, Seq<char>)>, k: Seq<char>, v: Seq<char>) -> Seq<
    (Seq<char>, Seq<char>),
> {
    match key_index(tags, k) {
        Some(i) => tags.update(i, (k, v)),
        None => tags.push((k, v)),
    }
}

/// The tags taken from the context words: each `key=value` word with a tag key sets that
/// tag to the scrubbed value; a later word wins.
pub open spec fn context_tags(words: Seq<Seq<char>>) -> Seq<(Seq<char>, Seq<char>)>
    decreases words.len(),
{
    if words.len() == 0 {
        Seq::empty()
    } else {
        let before = context_tags(words.drop_last());
        match split_once(words.last(), '=') {
            Some((k, v)) => if tag_key(k) {
                upsert(before, k, scrubbed(v))
            } else {
                before
            },
            None => before,
        }
    }
}

/// The views of string pairs.
pub open spec fn pair_views(s: Seq<(String, String)>) -> Seq<(Seq<char>, Seq<char>)> {
    s.map_values(|p: (String, String)| (p.0@, p.1@))
}

/// The event reported for a record, ready to be serialised into an envelope.
pub struct Event {
    pub event_id: String,
    pub timestamp: u64,
    pub platform: String,
    pub level: String,
    pub logger: String,
    pub release: String,
    pub environment: String,
    pub message: String,
    /// Kind, scrubbed component, scrubbed message.
    pub fingerprint: Vec<String>,
    pub kind: String,
    pub component: String,
    pub session: String,
    pub client_build: String,
    pub client_version: String,
    pub launcher_version: String,
    /// Further tags from the record's context, in order of first appearance.
    pub context_tags: Vec<(String, String)>,
    pub ui_context: String,
    pub lua_trace: String,
    /// Exception type and value, for error kinds.
    pub exception: Option<(String, String)>,
}

/// The string views of a vector of strings.
pub open spec fn string_views(v: Seq<String>) -> Seq<Seq<char>> {
    v.map_values(|s: String| s@)
}

/// What the event of record `r` holds, field by field; no field holds the raw message,
/// component, context, trace, build or client version, only their scrubbed forms.
pub open spec fn event_of(r: Record, launcher_version: Seq<char>, e: Event) -> bool {
    &&& e.event_id@ == event_id_of(r.build@, r.id@)
    &&& e.timestamp == r.timestamp
    &&& e.platform@ == "other"@
    &&& e.level@ == level_of(r.kind@)
    &&& e.logger@ == "rivals.client"@
    &&& e.release@ == "rivals-beyond-client@"@ + scrubbed(r.client_version@)
    &&& e.environment@ == (if r.client_version@ == "local"@ {
        "development"@
    } else {
        "production"@
    })
    &&& e.message@ == scrubbed(r.message@)
    &&& string_views(e.fingerprint@) == seq![r.kind@, scrubbed(r.component@), scrubbed(r.message@)]
    &&& e.kind@ == r.kind@
    &&& e.component@ == scrubbed(r.component@)
    &&& e.session@ == session_of(r.id@)
    &&& e.client_build@ == scrubbed(r.build@)
    &&& e.client_version@ == scrubbed(r.client_version@)
    &&& e.launcher_version@ == launcher_version
    &&& pair_views(e.context_tags@) == context_tags(words_of(r.context@))
    &&& e.ui_context@ == scrubbed(r.context@)
    &&& e.lua_trace@ == scrubbed(r.trace@)
    &&& match e.exception {
        Some((t, v)) => error_kind(r.kind@) && t@ == exception_type(r.kind@) && v@ == scrubbed(
            r.message@,
        ),
        None => !error_kind(r.kind@),
    }
}

fn level_text(kind: &str) -> (r: &'static str)
    ensures
        r@ == level_of(kind@),
{
    if str_eq(kind, "lua_error") || str_eq(kind, "client_crash") || str_eq(kind, "launcher_error")
        || str_eq(kind, "native_error") {
        "error"
    } else if str_eq(kind, "native_warning") {
        "warning"
    } else {
        "info"
    }
}

/// The session part of a record id.
pub fn session_text(id: &str) -> (r: String)
    ensures
        r@ == session_of(id@),
{
    let chars = chars_of(id);
    let mut n: usize = chars.len();
    assert(chars@.take(n as int) =~= chars@);
    while n > 0
        invariant
            n <= chars@.len(),
            chars@ == id@,
            before_last(chars@, '-') == before_last(chars@.take(n as int), '-'),
        decreases n,
    {
        assert(chars@.take(n as int).drop_last() == chars@.take(n - 1));
        if chars[n - 1] == '-' {
            return text_of(&chars.as_slice()[0..n - 1]);
        }
        n -= 1;
    }
    owned(id)
}

/// The first 32 hexadecimal digits of SHA-256 over `build:id`.
pub fn event_id(build: &str, id: &str) -> (r: String)
    ensures
        r@ == event_id_of(build@, id@),
{
    let identity = join3(build, ":", id);
    let digest = sha256_bytes(identity.as_str().as_bytes());
    let hex = chars_of(digest.as_str());
    text_of(&hex.as_slice()[0..32])
}

fn is_tag_key(k: &str) -> (r: bool)
    ensures
        r == tag_key(k@),
{
    str_eq(k, "backend") || str_eq(k, "os") || str_eq(k, "patch") || str_eq(k, "outline")
        || str_eq(k, "modern_m2") || str_eq(k, "duration_seconds") || str_eq(k, "exit_code")
        || str_eq(k, "map") || str_eq(k, "renderer") || str_eq(k, "multisample") || str_eq(
        k,
        "resolution",
    ) || str_eq(k, "monitor") || str_eq(k, "resolution_configured") || str_eq(
        k,
        "resolution_source",
    ) || str_eq(k, "hw_detect_disabled")
}

fn set_tag(tags: &mut Vec<(String, String)>, k: String, v: String)
    ensures
        pair_views(final(tags)@) == upsert(pair_views(old(tags)@), k@, v@),
{
    let ghost before = pair_views(old(tags)@);
    let mut i: usize = 0;
    while i < tags.len()
        invariant
            i <= tags@.len(),
            pair_views(tags@) == before,
            before == pair_views(old(tags)@),
            forall|j: int| 0 <= j < i ==> before[j].0 != k@,
        decreases tags.len() - i,
    {
        if str_eq(tags[i].0.as_str(), k.as_str()) {
            proof {
                assert(before[i as int].0 == k@);
                assert(exists|w: int|
                    0 <= w < before.len() && before[w].0 == k@ && forall|j: int|
                        0 <= j < w ==> before[j].0 != k@) by {
                    assert(0 <= i < before.len() && before[i as int].0 == k@ && forall|j: int|
                        0 <= j < i ==> before[j].0 != k@);
                }
                let w = choose|w: int|
                    0 <= w < before.len() && before[w].0 == k@ && forall|j: int|
                        0 <= j < w ==> before[j].0 != k@;
                assert(w == i) by {
                    if w < i {
                        assert(before[w].0 != k@);
                    }
                    if w > i {
                        assert(before[i as int].0 != k@);
                    }
                }
            }
            let ghost kv = k@;
            let ghost vv = v@;
            assert(key_index(before, kv) == Some(i as int));
            tags.set(i, (k, v));
            assert(pair_views(tags@) =~= before.update(i as int, (kv, vv)));
            return;
        }
        i += 1;
    }
    let ghost kv = k@;
    let ghost vv = v@;
    tags.push((k, v));
    assert(pair_views(tags@) =~= before.push((kv, vv)));
}

/// The tags a context string contributes.
pub fn tags_of_context(context: &str) -> (tags: Vec<(String, String)>)
    ensures
        pair_views(tags@) == context_tags(words_of(context@)),
{
    let chars = chars_of(context);
    let words = split_words(chars.as_slice());
    let ghost ws = words_of(context@);
    let mut tags: Vec<(String, String)> = Vec::new();
    let mut j: usize = 0;
    while j < words.len()
        invariant
            j <= words@.len(),
            char_vecs_view(words@) == ws,
            pair_views(tags@) == context_tags(ws.take(j as int)),
        decreases words@.len() - j,
    {
        assert(ws.take(j + 1).drop_last() =~= ws.take(j as int));
        assert(ws.take(j + 1).last() == words@[j as int]@);
        match split_once_chars(words[j].as_slice(), '=') {
            Some((k, v)) => {
                let key = text_of(k.as_slice());
                if is_tag_key(key.as_str()) {
                    let value = text_of(v.as_slice());
                    let shown = scrub(value.as_str());
                    set_tag(&mut tags, key, shown);
                }
            },
            None => {},
        }
        j += 1;
    }
    assert(ws.take(ws.len() as int) =~= ws);
    tags
}

/// Errors are reported as errors: a Lua error, client crash, launcher error or native error
/// is sent at level `error` with an exception, a native warning at level `warning` without
/// one, and only the other kinds (diagnostics, game starts and exits, unknown kinds) at level
/// `info`, never with an exception.
pub proof fn error_records_are_reported_as_errors(kind: Seq<char>)
    ensures
        kind == "lua_error"@ || kind == "client_crash"@ || kind == "launcher_error"@ || kind
            == "native_error"@ ==> level_of(kind) == "error"@ && error_kind(kind),
        kind == "native_warning"@ ==> level_of(kind) == "warning"@ && !error_kind(kind),
        level_of(kind) == "info"@ ==> !error_kind(kind) && !known_kind(kind) || kind
            == "diagnostic"@ || kind == "game_started"@ || kind == "game_exited"@,
{
    reveal_strlit("error");
    reveal_strlit("warning");
    reveal_strlit("info");
    reveal_strlit("lua_error");
    reveal_strlit("client_crash");
    reveal_strlit("launcher_error");
    reveal_strlit("native_error");
    reveal_strlit("native_warning");
    assert("native_warning"@[7] != "native_error"@[7]);
    assert("native_warning"@.len() != "lua_error"@.len());
    assert("native_warning"@.len() != "client_crash"@.len());
    assert("native_warning"@[0] != "launcher_error"@[0]);
    assert("info"@.len() != "error"@.len());
    assert("info"@.len() != "warning"@.len());
    if level_of(kind) == "info"@ {
        assert(!error_kind(kind));
        assert(kind != "native_warning"@);
    }
}

/// The event reported for a record, with the launcher's version as a tag.
pub fn event(record: &Record, launcher_version: &str) -> (e: Event)
    ensures
        event_of(*record, launcher_version@, e),
        record.kind@ == "lua_error"@ || record.kind@ == "client_crash"@ || record.kind@
            == "launcher_error"@ || record.kind@ == "native_error"@ ==> e.level@ == "error"@
            && e.exception is Some,
        record.kind@ == "native_warning"@ ==> e.level@ == "warning"@ && e.exception is None,
        e.level@ == "info"@ ==> e.exception is None && !known_kind(record.kind@) || record.kind@
            == "diagnostic"@ || record.kind@ == "game_started"@ || record.kind@ == "game_exited"@,
{
    proof {
        error_records_are_reported_as_errors(record.kind@);
    }
    let message = scrub(record.message.as_str());
    let component = scrub(record.component.as_str());
    let error = str_eq(record.kind.as_str(), "lua_error") || str_eq(
        record.kind.as_str(),
        "client_crash",
    ) || str_eq(record.kind.as_str(), "launcher_error") || str_eq(
        record.kind.as_str(),
        "native_error",
    );
    let exception = if error {
        let kind_name = if str_eq(record.kind.as_str(), "lua_error") {
            "LuaError"
        } else {
            "ClientError"
        };
        Some((owned(kind_name), scrub(record.message.as_str())))
    } else {
        None
    };
    let environment = if str_eq(record.client_version.as_str(), "local") {
        "development"
    } else {
        "production"
    };
    let version = scrub(record.client_version.as_str());
    let mut fingerprint: Vec<String> = Vec::new();
    fingerprint.push(owned(record.kind.as_str()));
    fingerprint.push(scrub(record.component.as_str()));
    fingerprint.push(scrub(record.message.as_str()));
    let e = Event {
        event_id: event_id(record.build.as_str(), record.id.as_str()),
        timestamp: record.timestamp,
        platform: owned("other"),
        level: owned(level_text(record.kind.as_str())),
        logger: owned("rivals.client"),
        release: join2("rivals-beyond-client@", version.as_str()),
        environment: owned(environment),
        message,
        fingerprint,
        kind: owned(record.kind.as_str()),
        component,
        session: session_text(record.id.as_str()),
        client_build: scrub(record.build.as_str()),
        client_version: version,
        launcher_version: owned(launcher_version),
        context_tags: tags_of_context(record.context.as_str()),
        ui_context: scrub(record.context.as_str()),
        lua_trace: scrub(record.trace.as_str()),
        exception,
    };
    assert(string_views(e.fingerprint@) =~= seq![
        record.kind@,
        scrubbed(record.component@),
        scrubbed(record.message@),
    ]);
    e
}

/// Whether a remembered delivery id is well formed: 32 ASCII hexadecimal digits.
pub open spec fn sent_id_ok(id: Seq<char>) -> bool {
    id.len() == 32 && forall|i: int|
        0 <= i < id.len() ==> (('0' <= #[trigger] id[i] && id[i] <= '9') || ('a' <= id[i]
            && id[i] <= 'f') || ('A' <= id[i] && id[i] <= 'F'))
}

/// The last `n` elements of `s` (all of `s` when it is shorter).
pub open spec fn keep_last<T>(s: Seq<T>, n: nat) -> Seq<T> {
    if s.len() > n {
        s.skip(s.len() - n)
    } else {
        s
    }
}

/// The well-formed ids of `s`, in order.
pub open spec fn well_formed_ids(s: Seq<Seq<char>>) -> Seq<Seq<char>>
    decreases s.len(),
{
    if s.len() == 0 {
        Seq::empty()
    } else {
        let before = well_formed_ids(s.drop_last());
        if sent_id_ok(s.last()) {
            before.push(s.last())
        } else {
            before
        }
    }
}

/// What the relay remembers between runs.
pub struct DeliveryState {
    /// Ids of delivered events, oldest first.
    pub sent: Vec<String>,
    /// No delivery is attempted before this time (seconds since the epoch); 0 when none is due.
    pub retry_at: u64,
    /// The clock hour (`timestamp / 3600`) that `sent_this_hour` counts.
    pub hour: u64,
    /// Events delivered during `hour`.
    pub sent_this_hour: u32,
}

/// What the relay does with the next record, newest first.
#[derive(PartialEq, Eq, Structural, Clone, Copy, Debug)]
pub enum FlushStep {
    /// The record is not uploaded: it opted out, or its event was already delivered.
    Skip,
    /// The batch or the hourly allowance is used up: the flush ends.
    Stop,
    /// Post the record's event.
    Send,
}

/// The step for a record whose event id is `id`, after `attempted` posts in this flush.
pub open spec fn flush_step(sent: Seq<Seq<char>>, sent_this_hour: u32, upload: bool, id: Seq<
    char,
>, attempted: nat) -> FlushStep {
    if !upload || sent.contains(id) {
        FlushStep::Skip
    } else if attempted >= MAX_BATCH || sent_this_hour >= MAX_HOURLY_EVENTS {
        FlushStep::Stop
    } else {
        FlushStep::Send
    }
}

/// The hour a timestamp falls in.
pub open spec fn hour_of(timestamp: u64) -> u64 {
    (timestamp / 3600) as u64
}

/// The retry time after a delivery at `timestamp` with the given back-off (0: none).
pub open spec fn retry_time(timestamp: u64, backoff: u64) -> u64 {
    if backoff > 0 {
        if timestamp + backoff > u64::MAX {
            u64::MAX
        } else {
            (timestamp + backoff) as u64
        }
    } else {
        0
    }
}

/// Delivery ids after `id` was delivered: appended, and only the newest kept.
pub open spec fn sent_after(sent: Seq<Seq<char>>, id: Seq<char>) -> Seq<Seq<char>> {
    keep_last(sent.push(id), MAX_SENT_IDS as nat)
}

fn is_hex_char(c: char) -> (r: bool)
    ensures
        r == (('0' <= c && c <= '9') || ('a' <= c && c <= 'f') || ('A' <= c && c <= 'F')),
{
    ('0' <= c && c <= '9') || ('a' <= c && c <= 'f') || ('A' <= c && c <= 'F')
}

fn sent_id_valid(id: &str) -> (r: bool)
    ensures
        r == sent_id_ok(id@),
{
    let chars = chars_of(id);
    if chars.len() != 32 {
        return false;
    }
    let mut i: usize = 0;
    while i < chars.len()
        invariant
            i <= chars@.len(),
            chars@ == id@,
            chars@.len() == 32,
            forall|j: int|
                0 <= j < i ==> (('0' <= #[trigger] chars@[j] && chars@[j] <= '9') || ('a'
                    <= chars@[j] && chars@[j] <= 'f') || ('A' <= chars@[j] && chars@[j] <= 'F')),
        decreases chars.len() - i,
    {
        if !is_hex_char(chars[i]) {
            return false;
        }
        i += 1;
    }
    true
}

fn drop_oldest(sent: &mut Vec<String>)
    ensures
        string_views(final(sent)@) == keep_last(string_views(old(sent)@), MAX_SENT_IDS as nat),
{
    if sent.len() > MAX_SENT_IDS {
        let excess = sent.len() - MAX_SENT_IDS;
        let ghost whole = string_views(sent@);
        let kept = sent.split_off(excess);
        assert(string_views(kept@) =~= whole.skip(excess as int));
        *sent = kept;
    }
}

/// The delivery ids kept from a saved state: the well-formed ones, at most the newest
/// `MAX_SENT_IDS`.
pub fn retained_ids(sent: Vec<String>) -> (r: Vec<String>)
    ensures
        string_views(r@) == keep_last(well_formed_ids(string_views(sent@)), MAX_SENT_IDS as nat),
{
    let ghost all = string_views(sent@);
    let mut kept: Vec<String> = Vec::new();
    let mut i: usize = 0;
    while i < sent.len()
        invariant
            i <= sent@.len(),
            all == string_views(sent@),
            string_views(kept@) == well_formed_ids(all.take(i as int)),
        decreases sent.len() - i,
    {
        assert(all.take(i + 1).drop_last() =~= all.take(i as int));
        if sent_id_valid(sent[i].as_str()) {
            kept.push(owned(sent[i].as_str()));
            assert(string_views(kept@) =~= well_formed_ids(all.take(i as int)).push(all[i as int]));
        }
        i += 1;
    }
    assert(all.take(all.len() as int) =~= all);
    drop_oldest(&mut kept);
    kept
}

fn sent_contains(sent: &Vec<String>, id: &str) -> (r: bool)
    ensures
        r == string_views(sent@).contains(id@),
{
    let ghost views = string_views(sent@);
    let mut i: usize = 0;
    while i < sent.len()
        invariant
            i <= sent@.len(),
            views == string_views(sent@),
            forall|j: int| 0 <= j < i ==> views[j] != id@,
        decreases sent.len() - i,
    {
        if str_eq(sent[i].as_str(), id) {
            assert(views[i as int] == id@);
            return true;
        }
        i += 1;
    }
    false
}

impl DeliveryState {
    /// Starts a flush at `timestamp`: refused (nothing changes) before `retry_at`; otherwise
    /// the hourly count restarts when the clock hour changed.
    pub fn begin_flush(&mut self, timestamp: u64) -> (go: bool)
        ensures
            go == (timestamp >= old(self).retry_at),
            final(self).sent@ == old(self).sent@,
            final(self).retry_at == old(self).retry_at,
            !go ==> final(self).hour == old(self).hour && final(self).sent_this_hour == old(
                self,
            ).sent_this_hour,
            go ==> final(self).hour == hour_of(timestamp),
            go ==> final(self).sent_this_hour == (if old(self).hour == hour_of(timestamp) {
                old(self).sent_this_hour
            } else {
                0
            }),
    {
        if timestamp < self.retry_at {
            return false;
        }
        if self.hour != timestamp / 3600 {
            self.hour = timestamp / 3600;
            self.sent_this_hour = 0;
        }
        true
    }

    /// The step for the next record: `upload` is the record's consent, `id` its event id,
    /// `attempted` the posts made so far in this flush.
    pub fn next_step(&self, upload: bool, id: &str, attempted: usize) -> (step: FlushStep)
        ensures
            step == flush_step(
                string_views(self.sent@),
                self.sent_this_hour,
                upload,
                id@,
                attempted as nat,
            ),
    {
        if !upload || sent_contains(&self.sent, id) {
            FlushStep::Skip
        } else if attempted >= MAX_BATCH || self.sent_this_hour >= MAX_HOURLY_EVENTS {
            FlushStep::Stop
        } else {
            FlushStep::Send
        }
    }

    /// Records the outcome of posting event `id` at `timestamp`: a success remembers the id
    /// and counts it for the hour; `retry_at` becomes `timestamp + backoff` (saturating) when
    /// there is a back-off, else 0. Returns whether the flush may go on.
    pub fn record_delivery(&mut self, id: String, success: bool, backoff: u64, timestamp: u64) -> (go_on: bool)
        requires
            success ==> old(self).sent_this_hour < u32::MAX,
        ensures
            go_on == (success && backoff == 0),
            string_views(final(self).sent@) == (if success {
                sent_after(string_views(old(self).sent@), id@)
            } else {
                string_views(old(self).sent@)
            }),
            final(self).sent_this_hour == (if success {
                old(self).sent_this_hour + 1
            } else {
                old(self).sent_this_hour as int
            }),
            final(self).hour == old(self).hour,
            final(self).retry_at == retry_time(timestamp, backoff),
    {
        if success {
            let ghost before = string_views(self.sent@);
            let ghost idv = id@;
            self.sent.push(id);
            assert(string_views(self.sent@) =~= before.push(idv));
            self.sent_this_hour = self.sent_this_hour + 1;
            drop_oldest(&mut self.sent);
        }
        self.retry_at = if backoff > 0 {
            timestamp.saturating_add(backoff)
        } else {
            0
        };
        success && backoff == 0
    }
}

/// Whether a rate limit (its `:`-separated fields) covers error events: it names no
/// category, or `error` among its `;`-separated categories.
pub open spec fn limit_covers_errors(fields: Seq<Seq<char>>) -> bool {
    fields.len() >= 2 && (fields[1].len() == 0 || split_seq(fields[1], ';').contains("error"@))
}

/// The window fields (seconds, as written) of the limits in an `X-Sentry-Rate-Limits`
/// header (its `,`-separated parts) that cover error events.
pub open spec fn error_windows(limits: Seq<Seq<char>>) -> Seq<Seq<char>>
    decreases limits.len(),
{
    if limits.len() == 0 {
        Seq::empty()
    } else {
        let before = error_windows(limits.drop_last());
        let fields = split_seq(trim(limits.last()), ':');
        if limit_covers_errors(fields) {
            before.push(fields[0])
        } else {
            before
        }
    }
}

fn chars_equal(a: &[char], b: &str) -> (r: bool)
    ensures
        r == (a@ == b@),
{
    let t = text_of(a);
    str_eq(t.as_str(), b)
}

fn covers_errors(fields: &Vec<Vec<char>>) -> (r: bool)
    ensures
        r == limit_covers_errors(char_vecs_view(fields@)),
{
    let ghost fv = char_vecs_view(fields@);
    if fields.len() < 2 {
        return false;
    }
    assert(fv[1] == fields@[1]@);
    if fields[1].len() == 0 {
        return true;
    }
    let categories = split_chars(fields[1].as_slice(), ';');
    let ghost cv = char_vecs_view(categories@);
    let mut i: usize = 0;
    while i < categories.len()
        invariant
            i <= categories@.len(),
            cv == char_vecs_view(categories@),
            fv.len() >= 2,
            fv == char_vecs_view(fields@),
            cv == split_seq(fv[1], ';'),
            forall|j: int| 0 <= j < i ==> cv[j] != "error"@,
        decreases categories.len() - i,
    {
        if chars_equal(categories[i].as_slice(), "error") {
            assert(cv[i as int] == "error"@);
            assert(cv.contains("error"@));
            return true;
        }
        i += 1;
    }
    false
}

/// The window fields of the limits in an `X-Sentry-Rate-Limits` header that cover errors.
pub fn error_limit_windows(header: &str) -> (r: Vec<String>)
    ensures
        string_views(r@) == error_windows(split_seq(header@, ',')),
{
    let chars = chars_of(header);
    let limits = split_chars(chars.as_slice(), ',');
    let ghost lv = char_vecs_view(limits@);
    let mut windows: Vec<String> = Vec::new();
    let mut i: usize = 0;
    while i < limits.len()
        invariant
            i <= limits@.len(),
            lv == char_vecs_view(limits@),
            lv == split_seq(header@, ','),
            string_views(windows@) == error_windows(lv.take(i as int)),
        decreases limits.len() - i,
    {
        assert(lv.take(i + 1).drop_last() =~= lv.take(i as int));
        assert(lv.take(i + 1).last() == limits@[i as int]@);
        let t = trimmed(limits[i].as_slice());
        let fields = split_chars(t.as_slice(), ':');
        if covers_errors(&fields) {
            let ghost before = string_views(windows@);
            windows.push(text_of(fields[0].as_slice()));
            assert(string_views(windows@) =~= before.push(char_vecs_view(fields@)[0]));
        }
        i += 1;
    }
    assert(lv.take(lv.len() as int) =~= lv);
    windows
}

/// What a delivery attempt got back from the ingestion endpoint.
pub struct Reply {
    /// The status was a success (2xx).
    pub success: bool,
    /// The windows of the rate limits covering errors, in whole seconds (rounded up).
    pub rate_limits: Vec<u64>,
    /// The `Retry-After` header, when it was readable text.
    pub retry_after: Option<String>,
}

/// The largest of `s`, 0 for none.
pub open spec fn largest(s: Seq<u64>) -> u64
    decreases s.len(),
{
    if s.len() == 0 {
        0
    } else {
        let m = largest(s.drop_last());
        if s.last() > m {
            s.last()
        } else {
            m
        }
    }
}

/// The back-off asked by a failed reply: its `Retry-After` seconds, 60 when absent or not a
/// number.
pub open spec fn retry_after_seconds(value: Option<Seq<char>>) -> u64 {
    match value {
        Some(v) => match crate::text::parse_u64(v) {
            Some(n) => n,
            None => 60,
        },
        None => 60,
    }
}

/// Whether a delivery succeeded and the back-off it leaves: a reply's rate limits, and for a
/// failed status also its `Retry-After`; 60 seconds when no reply came.
pub open spec fn delivery_result(
    reply: Option<(bool, Seq<u64>, Option<Seq<char>>)>,
) -> (bool, u64) {
    match reply {
        None => (false, 60),
        Some((success, limits, retry_after)) => {
            let rate = largest(limits);
            if success {
                (true, rate)
            } else {
                let asked = retry_after_seconds(retry_after);
                (false, if asked > rate {
                    asked
                } else {
                    rate
                })
            }
        },
    }
}

/// The plain view of a reply.
pub open spec fn reply_view(reply: Option<Reply>) -> Option<(bool, Seq<u64>, Option<Seq<char>>)> {
    match reply {
        None => None,
        Some(r) => Some((r.success, r.rate_limits@, crate::bindings::opt_view(r.retry_after))),
    }
}

/// Whether a delivery succeeded, and the back-off it leaves.
pub fn delivery_outcome(reply: &Option<Reply>) -> (r: (bool, u64))
    ensures
        r == delivery_result(reply_view(*reply)),
{
    match reply {
        None => (false, 60),
        Some(rep) => {
            let mut rate: u64 = 0;
            let mut i: usize = 0;
            while i < rep.rate_limits.len()
                invariant
                    i <= rep.rate_limits@.len(),
                    rate == largest(rep.rate_limits@.take(i as int)),
                decreases rep.rate_limits.len() - i,
            {
                assert(rep.rate_limits@.take(i + 1).drop_last() =~= rep.rate_limits@.take(
                    i as int,
                ));
                if rep.rate_limits[i] > rate {
                    rate = rep.rate_limits[i];
                }
                i += 1;
            }
            assert(rep.rate_limits@.take(rep.rate_limits@.len() as int) =~= rep.rate_limits@);
            if rep.success {
                (true, rate)
            } else {
                let asked = match &rep.retry_after {
                    Some(v) => {
                        let c = chars_of(v.as_str());
                        match crate::text::parse_u64_chars(c.as_slice()) {
                            Some(n) => n,
                            None => 60,
                        }
                    },
                    None => 60,
                };
                (false, if asked > rate {
                    asked
                } else {
                    rate
                })
            }
        },
    }
}

/// `s` without its leading `c`s (`str::trim_start_matches(c)`).
pub open spec fn trim_leading(s: Seq<char>, c: char) -> Seq<char>
    decreases s.len(),
{
    if s.len() > 0 && s[0] == c {
        trim_leading(s.drop_first(), c)
    } else {
        s
    }
}

/// The envelope endpoint for a parsed DSN: `https://{host}/api/{project}/envelope/`, the
/// project being the DSN's path without its leading `/`.
pub open spec fn endpoint_of(parsed: Result<UrlView, Seq<char>>) -> Result<Seq<char>, Seq<char>> {
    match parsed {
        Err(e) => Err(e),
        Ok(u) => match u.1 {
            None => Err("Missing Sentry host"@),
            Some(host) => Ok(
                "https://"@ + host + "/api/"@ + trim_leading(u.7, '/') + "/envelope/"@,
            ),
        },
    }
}

fn without_leading(s: &str, c: char) -> (r: String)
    ensures
        r@ == trim_leading(s@, c),
{
    let chars = chars_of(s);
    let mut i: usize = 0;
    assert(chars@.skip(0) =~= chars@);
    while i < chars.len() && chars[i] == c
        invariant
            i <= chars@.len(),
            chars@ == s@,
            trim_leading(s@, c) == trim_leading(chars@.skip(i as int), c),
        decreases chars.len() - i,
    {
        assert(chars@.skip(i as int).drop_first() =~= chars@.skip(i + 1));
        i += 1;
    }
    let rest = text_of(&chars.as_slice()[i..chars.len()]);
    assert(rest@ =~= chars@.skip(i as int));
    rest
}

/// The envelope endpoint of a Sentry DSN.
pub fn sentry_endpoint(dsn: &str) -> (r: Result<String, String>)
    ensures
        match r {
            Ok(e) => endpoint_of(url_parse(dsn@)) == Ok::<_, Seq<char>>(e@),
            Err(e) => endpoint_of(url_parse(dsn@)) == Err::<Seq<char>, _>(e@),
        },
{
    let parts = parse_url(dsn)?;
    let project = without_leading(parts.path.as_str(), '/');
    match &parts.host {
        None => Err(owned("Missing Sentry host")),
        Some(host) => {
            let mut e = join3("https://", host.as_str(), "/api/");
            e.append(project.as_str());
            e.append("/envelope/");
            Ok(e)
        },
    }
}

/// Complete lines, newline restored, that fit in `MAX_LINE_BYTES`.
pub open spec fn complete_lines(parts: Seq<Seq<u8>>) -> Seq<Seq<u8>>
    decreases parts.len(),
{
    if parts.len() == 0 {
        Seq::empty()
    } else {
        let before = complete_lines(parts.drop_last());
        let line = parts.last().push(10u8);
        if line.len() <= MAX_LINE_BYTES {
            before.push(line)
        } else {
            before
        }
    }
}

/// The journal lines worth decoding: each ends with a newline (a trailing partial line is
/// still being written) and holds at most `MAX_LINE_BYTES` bytes.
pub open spec fn journal_lines_of(bytes: Seq<u8>) -> Seq<Seq<u8>> {
    complete_lines(split_seq(bytes, 10u8).drop_last())
}

/// The journal lines worth decoding (`split_inclusive` on newlines, filtered).
pub fn journal_lines(bytes: &[u8]) -> (r: Vec<Vec<u8>>)
    ensures
        byte_vecs_view(r@) == journal_lines_of(bytes@),
{
    let parts = split_bytes(bytes, 10u8);
    proof {
        crate::text::lemma_split_nonempty(bytes@, 10u8);
    }
    let ghost pv = byte_vecs_view(parts@).drop_last();
    let mut lines: Vec<Vec<u8>> = Vec::new();
    let mut i: usize = 0;
    let n = parts.len() - 1;
    while i < n
        invariant
            n == parts@.len() - 1,
            i <= n,
            pv == byte_vecs_view(parts@).drop_last(),
            byte_vecs_view(lines@) == complete_lines(pv.take(i as int)),
        decreases parts.len() - i,
    {
        assert(pv.take(i + 1).drop_last() =~= pv.take(i as int));
        assert(pv.take(i + 1).last() == parts@[i as int]@);
        let part = &parts[i];
        if part.len() < MAX_LINE_BYTES {
            let mut line: Vec<u8> = Vec::new();
            let mut k: usize = 0;
            while k < part.len()
                invariant
                    k <= part@.len(),
                    line@ == part@.take(k as int),
                decreases part.len() - k,
            {
                line.push(part[k]);
                assert(part@.take(k + 1) =~= part@.take(k as int).push(part@[k as int]));
                k += 1;
            }
            assert(part@.take(part@.len() as int) =~= part@);
            line.push(10u8);
            let ghost before = byte_vecs_view(lines@);
            let ghost lv = line@;
            lines.push(line);
            assert(byte_vecs_view(lines@) =~= before.push(lv));
        }
        i += 1;
    }
    assert(pv.take(pv.len() as int) =~= pv);
    lines
}

/// A file read with a limit: its bytes, or nothing when it is larger than `maximum`.
pub fn within_limit(bytes: Vec<u8>, maximum: u64) -> (r: Vec<u8>)
    ensures
        r@ == (if bytes@.len() > maximum {
            Seq::<u8>::empty()
        } else {
            bytes@
        }),
{
    if bytes.len() as u64 > maximum {
        Vec::new()
    } else {
        bytes
    }
}

/// Whether appending `added` bytes to a journal of `current` bytes must first rotate it.
pub fn needs_rotation(current: u64, added: usize) -> (r: bool)
    ensures
        r == (current + added > MAX_FILE_BYTES),
{
    current > MAX_FILE_BYTES || added as u64 > MAX_FILE_BYTES - current
}

/// The bytes after the first newline (nothing when there is none): a log tail read from the
/// middle of a file starts with a partial line.
pub open spec fn after_first_newline(b: Seq<u8>) -> Seq<u8> {
    if exists|i: int| 0 <= i < b.len() && b[i] == 10 {
        let i = choose|i: int|
            0 <= i < b.len() && b[i] == 10 && forall|j: int| 0 <= j < i ==> b[j] != 10;
        b.skip(i + 1)
    } else {
        Seq::empty()
    }
}

fn bytes_after(bytes: &Vec<u8>, start: usize) -> (r: Vec<u8>)
    requires
        start <= bytes@.len(),
    ensures
        r@ == bytes@.skip(start as int),
{
    let mut rest: Vec<u8> = Vec::new();
    let mut k: usize = start;
    while k < bytes.len()
        invariant
            start <= k <= bytes@.len(),
            rest@ == bytes@.subrange(start as int, k as int),
        decreases bytes.len() - k,
    {
        rest.push(bytes[k]);
        assert(bytes@.subrange(start as int, k + 1) =~= bytes@.subrange(start as int, k as int).push(
            bytes@[k as int],
        ));
        k += 1;
    }
    assert(rest@ =~= bytes@.skip(start as int));
    rest
}

/// The tail of a native log read from byte `start`: whole lines only.
pub fn whole_lines_from(bytes: Vec<u8>, start: u64) -> (r: Vec<u8>)
    ensures
        r@ == (if start > 0 {
            after_first_newline(bytes@)
        } else {
            bytes@
        }),
{
    if start == 0 {
        return bytes;
    }
    let mut i: usize = 0;
    while i < bytes.len()
        invariant
            start > 0,
            i <= bytes@.len(),
            forall|j: int| 0 <= j < i ==> bytes@[j] != 10,
        decreases bytes.len() - i,
    {
        if bytes[i] == 10 {
            proof {
                assert(exists|w: int|
                    0 <= w < bytes@.len() && bytes@[w] == 10 && forall|j: int|
                        0 <= j < w ==> bytes@[j] != 10) by {
                    assert(0 <= i < bytes@.len() && bytes@[i as int] == 10 && forall|j: int|
                        0 <= j < i ==> bytes@[j] != 10);
                }
                let w = choose|w: int|
                    0 <= w < bytes@.len() && bytes@[w] == 10 && forall|j: int|
                        0 <= j < w ==> bytes@[j] != 10;
                assert(w == i) by {
                    if w < i {
                        assert(bytes@[w] != 10);
                    }
                    if w > i {
                        assert(bytes@[i as int] != 10);
                    }
                }
            }
            let rest = bytes_after(&bytes, i + 1);
            assert(after_first_newline(bytes@) == bytes@.skip(i + 1));
            return rest;
        }
        i += 1;
    }
    Vec::new()
}

/// The lines of a text, split at `\n` (see `lines_of`).
pub fn text_lines(text: &str) -> (r: Vec<String>)
    ensures
        string_views(r@) == lines_of(text@),
{
    let chars = chars_of(text);
    let mut parts = split_chars(chars.as_slice(), '\n');
    proof {
        crate::text::lemma_split_nonempty(chars@, '\n');
    }
    if chars.len() == 0 || chars[chars.len() - 1] == '\n' {
        parts.pop();
    }
    let ghost pv = char_vecs_view(parts@);
    assert(pv =~= lines_of(text@));
    let mut lines: Vec<String> = Vec::new();
    let mut i: usize = 0;
    while i < parts.len()
        invariant
            i <= parts@.len(),
            pv == char_vecs_view(parts@),
            string_views(lines@) == pv.take(i as int),
        decreases parts.len() - i,
    {
        let ghost before = string_views(lines@);
        let line = text_of(parts[i].as_slice());
        assert(line@ == pv[i as int]);
        lines.push(line);
        assert(string_views(lines@) =~= before.push(pv[i as int]));
        assert(pv.take(i + 1) =~= pv.take(i as int).push(pv[i as int]));
        i += 1;
    }
    assert(pv.take(pv.len() as int) =~= pv);
    lines
}

/// The position of the first occurrence of `needle` in `hay`.
pub open spec fn first_occurrence(hay: Seq<char>, needle: Seq<char>) -> Option<int> {
    if exists|i: int| 0 <= i && i + needle.len() <= hay.len() && #[trigger] hay.subrange(
        i,
        i + needle.len(),
    ) == needle {
        Some(
            choose|i: int|
                0 <= i && i + needle.len() <= hay.len() && #[trigger] hay.subrange(
                    i,
                    i + needle.len(),
                ) == needle && forall|j: int|
                    0 <= j < i ==> #[trigger] hay.subrange(j, j + needle.len()) != needle,
        )
    } else {
        None
    }
}

/// The kind of a native log line: one holding `ERROR:` is an error, else one holding `WARN:`
/// a warning; other lines are not reported.
pub open spec fn native_kind(line: Seq<char>) -> Option<Seq<char>> {
    if has_infix(line, "ERROR:"@) {
        Some("native_error"@)
    } else if has_infix(line, "WARN:"@) {
        Some("native_warning"@)
    } else {
        None
    }
}

/// The marker that introduces the text of a native line of `kind`.
pub open spec fn marker_of(kind: Seq<char>) -> Seq<char> {
    if kind == "native_error"@ {
        "ERROR:"@
    } else {
        "WARN:"@
    }
}

/// The reported text of a native line: what follows the first marker, trimmed.
pub open spec fn native_text(line: Seq<char>, marker: Seq<char>) -> Seq<char> {
    match first_occurrence(line, marker) {
        Some(i) => trim(line.skip(i + marker.len())),
        None => line,
    }
}

/// The largest character boundary of `b` that is at most `n`.
pub open spec fn boundary_at_most(b: Seq<u8>, n: int) -> int
    decreases n,
{
    if n <= 0 {
        0
    } else if is_char_boundary(b, n) {
        n
    } else {
        boundary_at_most(b, n - 1)
    }
}

/// The message of a native report: the longest prefix of the text within 2048 UTF-8 bytes.
pub open spec fn native_message(text: Seq<char>) -> Seq<char> {
    let b = bytes_of(text);
    decode_utf8(b.take(boundary_at_most(b, if b.len() < 2048 { b.len() as int } else { 2048 })))
}

/// The record reporting a native line of `kind` with `text` (whose digest is `hash`), made
/// at `timestamp` for the launch recorded by `session`.
pub open spec fn native_record(
    rec: Record,
    session: Record,
    kind: Seq<char>,
    text: Seq<char>,
    hash: Seq<char>,
    timestamp: u64,
) -> bool {
    &&& rec.schema == 1
    &&& rec.id@ == decode_utf8(bytes_of(session.id@).take(24)) + "-"@ + hash.take(24)
    &&& rec.timestamp == timestamp
    &&& rec.client_version@ == session.client_version@
    &&& rec.build@ == session.build@
    &&& rec.kind@ == kind
    &&& rec.component@ == "WarcraftXL"@
    &&& rec.message@ == native_message(text)
    &&& rec.context@ == session.context@
    &&& rec.trace@.len() == 0
    &&& rec.upload == session.upload
}

fn find_marker(line: &[char], marker: &str) -> (r: Option<usize>)
    requires
        marker@.len() > 0,
    ensures
        match r {
            Some(i) => first_occurrence(line@, marker@) == Some(i as int) && i + marker@.len()
                <= line@.len(),
            None => first_occurrence(line@, marker@) is None,
        },
{
    let m = chars_of(marker);
    if m.len() > line.len() {
        return None;
    }
    let last = line.len() - m.len();
    let mut i: usize = 0;
    while i <= last
        invariant
            m@ == marker@,
            m@.len() > 0,
            line@.len() <= usize::MAX,
            last == line@.len() - m@.len(),
            i <= last + 1,
            forall|j: int| 0 <= j < i ==> #[trigger] line@.subrange(j, j + m@.len()) != m@,
        decreases last + 1 - i,
    {
        if matches_at(line, m.as_slice(), i) {
            proof {
                let w = choose|w: int|
                    0 <= w && w + m@.len() <= line@.len() && #[trigger] line@.subrange(
                        w,
                        w + m@.len(),
                    ) == m@ && forall|j: int|
                        0 <= j < w ==> #[trigger] line@.subrange(j, j + m@.len()) != m@;
                assert(w == i) by {
                    if w < i {
                        assert(line@.subrange(w, w + m@.len()) != m@);
                    }
                    if w > i {
                        assert(line@.subrange(i as int, i + m@.len()) != m@);
                    }
                }
            }
            return Some(i);
        }
        i += 1;
    }
    assert forall|j: int|
        0 <= j && j + m@.len() <= line@.len() implies #[trigger] line@.subrange(j, j + m@.len())
        != m@ by {}
    None
}

fn text_after(line: &[char], start: usize) -> (r: Vec<char>)
    requires
        start <= line@.len(),
    ensures
        r@ == line@.skip(start as int),
{
    let mut r: Vec<char> = Vec::new();
    let mut k: usize = start;
    while k < line.len()
        invariant
            start <= k <= line@.len(),
            r@ == line@.subrange(start as int, k as int),
        decreases line.len() - k,
    {
        r.push(line[k]);
        assert(line@.subrange(start as int, k + 1) =~= line@.subrange(start as int, k as int).push(
            line@[k as int],
        ));
        k += 1;
    }
    assert(r@ =~= line@.skip(start as int));
    r
}

/// The longest prefix of `text` within 2048 UTF-8 bytes.
fn clipped_message(text: &str) -> (r: String)
    ensures
        r@ == native_message(text@),
{
    let ghost b = bytes_of(text@);
    proof {
        encode_utf8_valid_utf8(text@);
    }
    let total = text.as_bytes().len();
    let mut length: usize = if total < 2048 {
        total
    } else {
        2048
    };
    let ghost limit = length as int;
    while !text.is_char_boundary(length)
        invariant
            length <= limit,
            limit == (if b.len() < 2048 { b.len() as int } else { 2048 }),
            b == bytes_of(text@),
            b == text.spec_bytes(),
            vstd::utf8::valid_utf8(b),
            boundary_at_most(b, length as int) == boundary_at_most(b, limit),
        decreases length,
    {
        assert(length > 0);
        length -= 1;
    }
    assert(boundary_at_most(b, length as int) == length as int);
    let (head, _) = text.split_at(length);
    proof {
        encode_utf8_decode_utf8(head@);
        assert(head.spec_bytes() == bytes_of(head@));
    }
    owned(head)
}

fn line_text(chars: Vec<char>, marker: &str) -> (r: String)
    requires
        marker@.len() > 0,
    ensures
        r@ == native_text(chars@, marker@),
{
    let marker_chars = chars_of(marker);
    let mlen = marker_chars.len();
    let total = chars.len();
    assert(mlen == marker@.len());
    let text = match find_marker(chars.as_slice(), marker) {
        Some(i) => {
            let rest = text_after(chars.as_slice(), i + mlen);
            trimmed(rest.as_slice())
        },
        None => chars,
    };
    text_of(text.as_slice())
}

fn native_id(session_id: &str, hash: &str) -> (r: String)
    requires
        is_char_boundary(bytes_of(session_id@), 24),
        hash@.len() == 64,
    ensures
        r@ == decode_utf8(bytes_of(session_id@).take(24)) + "-"@ + hash@.take(24),
{
    let (head, _) = session_id.split_at(24);
    proof {
        encode_utf8_decode_utf8(head@);
        assert(head.spec_bytes() == bytes_of(head@));
    }
    let hash_chars = chars_of(hash);
    let mut id = join2(head, "-");
    let short = text_of(&hash_chars.as_slice()[0..24]);
    id.append(short.as_str());
    id
}

/// What a native log line reports: its kind, its text and the digest of that text; `None`
/// for a line that is neither an error nor a warning.
pub open spec fn line_report(line: Seq<char>) -> Option<(Seq<char>, Seq<char>, Seq<char>)> {
    match native_kind(line) {
        None => None,
        Some(kind) => {
            let text = native_text(line, marker_of(kind));
            Some((kind, text, sha256_hex_spec(bytes_of(text))))
        },
    }
}

/// The kind, text and digest of a native log line that is an error or a warning.
fn native_line(line: &str) -> (r: Option<(&'static str, String, String)>)
    ensures
        match line_report(line@) {
            None => r is None,
            Some(rep) => r matches Some((k, t, h)) && k@ == rep.0 && t@ == rep.1 && h@ == rep.2
                && h@.len() == 64,
        },
{
    let chars = chars_of(line);
    let error = crate::text::contains_str(chars.as_slice(), "ERROR:");
    if !error && !crate::text::contains_str(chars.as_slice(), "WARN:") {
        return None;
    }
    let kind = if error {
        "native_error"
    } else {
        "native_warning"
    };
    let marker = if error {
        "ERROR:"
    } else {
        "WARN:"
    };
    proof {
        reveal_strlit("ERROR:");
        reveal_strlit("WARN:");
        reveal_strlit("native_error");
        reveal_strlit("native_warning");
    }
    let ghost kind_v = if has_infix(line@, "ERROR:"@) {
        "native_error"@
    } else {
        "native_warning"@
    };
    assert(native_kind(line@) == Some(kind_v));
    assert(kind@ == kind_v);
    assert("native_warning"@[7] != "native_error"@[7]);
    assert(marker@ == marker_of(kind_v));
    let text = line_text(chars, marker);
    assert(text@ == native_text(line@, marker_of(kind_v)));
    let hash = sha256_bytes(text.as_str().as_bytes());
    Some((kind, text, hash))
}

/// The record reporting a native line of `kind` with `text` (whose digest is `hash`), made
/// at `timestamp` for the launch recorded by `session`.
fn native_record_for(kind: &str, text: &str, hash: &str, session: &Record, timestamp: u64) -> (rec:
    Record)
    requires
        is_char_boundary(bytes_of(session.id@), 24),
        hash@.len() == 64,
    ensures
        native_record(rec, *session, kind@, text@, hash@, timestamp),
{
    Record {
        schema: 1,
        id: native_id(session.id.as_str(), hash),
        timestamp,
        client_version: owned(session.client_version.as_str()),
        build: owned(session.build.as_str()),
        kind: owned(kind),
        component: owned("WarcraftXL"),
        message: clipped_message(text),
        context: owned(session.context.as_str()),
        trace: String::new(),
        upload: session.upload,
    }
}

/// The record reporting one native log line, with the digest that identifies its text;
/// `None` for a line that is neither an error nor a warning, or whose text was already
/// reported (its digest is in `seen`). `session` is the launch record, whose id must start
/// with a 24-byte prefix.
pub fn native_report(line: &str, session: &Record, timestamp: u64, seen: &Vec<String>) -> (r:
    Option<(Record, String)>)
    requires
        is_char_boundary(bytes_of(session.id@), 24),
    ensures
        match line_report(line@) {
            None => r is None,
            Some(rep) => if string_views(seen@).contains(rep.2) {
                r is None
            } else {
                r matches Some((rec, h)) && h@ == rep.2 && native_record(
                    rec,
                    *session,
                    rep.0,
                    rep.1,
                    rep.2,
                    timestamp,
                )
            },
        },
{
    match native_line(line) {
        None => None,
        Some((kind, text, hash)) => {
            if sent_contains(seen, hash.as_str()) {
                return None;
            }
            let record = native_record_for(kind, text.as_str(), hash.as_str(), session, timestamp);
            Some((record, hash))
        },
    }
}

/// The current time in whole seconds since the Unix epoch (0 for a clock set before it).
pub fn now() -> u64 {
    match since_unix_epoch(&system_time_now()) {
        Some(d) => whole_seconds(&d),
        None => 0,
    }
}

/// A launch session id: the first 24 hexadecimal digits of SHA-256 over a seed unique to the
/// launch (process, time, counter).
pub fn session_from_seed(seed: &str) -> (r: String)
    ensures
        r@ == sha256_hex_spec(bytes_of(seed@)).take(24),
        r@.len() == 24,
        forall|i: int| 0 <= i < 24 ==> crate::text::lower_hex_char(#[trigger] r@[i]),
{
    proof {
        crate::text::lemma_hex_lower_digits(crate::bindings::sha256_of(bytes_of(seed@)));
    }
    let digest = sha256_bytes(seed.as_bytes());
    let hex = chars_of(digest.as_str());
    text_of(&hex.as_slice()[0..24])
}

/// The display resolution the launcher chose for a launch.
pub struct ResolutionChoice {
    pub monitor: Option<(u32, u32)>,
    pub configured: Option<(u32, u32)>,
    pub source: String,
    pub hardware_detection_disabled: bool,
}

/// The SHA-256 the manifest lists for `path` (compared ignoring ASCII case), or `unknown`.
pub open spec fn file_hash_of(files: Seq<FileEntry>, path: Seq<char>) -> Seq<char>
    decreases files.len(),
{
    if files.len() == 0 {
        "unknown"@
    } else if ascii_lower_seq(files[0].path@) == ascii_lower_seq(path) {
        files[0].sha256@
    } else {
        file_hash_of(files.drop_first(), path)
    }
}

fn same_ignoring_ascii_case(a: &str, b: &str) -> (r: bool)
    ensures
        r == (ascii_lower_seq(a@) == ascii_lower_seq(b@)),
{
    let x = ascii_lowercase(chars_of(a).as_slice());
    let y = ascii_lowercase(chars_of(b).as_slice());
    let tx = text_of(x.as_slice());
    let ty = text_of(y.as_slice());
    str_eq(tx.as_str(), ty.as_str())
}

/// The SHA-256 the manifest lists for a client file, or `unknown`.
pub fn manifest_file_hash(manifest: &Manifest, path: &str) -> (r: String)
    ensures
        r@ == file_hash_of(manifest.files@, path@),
{
    let files = &manifest.files;
    let mut i: usize = 0;
    assert(files@.skip(0) =~= files@);
    while i < files.len()
        invariant
            i <= files@.len(),
            files@ == manifest.files@,
            file_hash_of(files@, path@) == file_hash_of(files@.skip(i as int), path@),
        decreases files.len() - i,
    {
        assert(files@.skip(i as int)[0] == files@[i as int]);
        assert(files@.skip(i as int).drop_first() =~= files@.skip(i + 1));
        if same_ignoring_ascii_case(files[i].path.as_str(), path) {
            return owned(files[i].sha256.as_str());
        }
        i += 1;
    }
    owned("unknown")
}

/// `{w}x{h}` for a known size, else `unknown`.
pub open spec fn dimensions(size: Option<(u32, u32)>) -> Seq<char> {
    match size {
        Some((w, h)) => decimal(w as nat) + "x"@ + decimal(h as nat),
        None => "unknown"@,
    }
}

fn dimensions_text(size: Option<(u32, u32)>) -> (r: String)
    ensures
        r@ == dimensions(size),
{
    match size {
        Some((w, h)) => {
            let mut r = decimal_text(w as u64);
            r.append("x");
            r.append(decimal_text(h as u64).as_str());
            r
        },
        None => owned("unknown"),
    }
}

/// `true` or `false`.
pub open spec fn bool_word(b: bool) -> Seq<char> {
    if b {
        "true"@
    } else {
        "false"@
    }
}

/// The context recorded for a launch: operating system, renderer, the digests of the files
/// that matter for support, manifest sequence and resolution choice.
pub open spec fn launch_context_of(
    os: Seq<char>,
    dxvk: bool,
    m: Manifest,
    resolution: ResolutionChoice,
) -> Seq<char> {
    "os="@ + os + " backend="@ + (if dxvk {
        "dxvk"@
    } else {
        "d3d9"@
    }) + " patch="@ + file_hash_of(m.files@, "Data/PATCH-Z.MPQ"@) + " outline="@ + file_hash_of(
        m.files@,
        "Extensions/UnitOutline/UnitOutline.dll"@,
    ) + " modern_m2="@ + file_hash_of(m.files@, "Extensions/wxl-modern-m2/wxl-modern-m2.dll"@)
        + " manifest_sequence="@ + decimal(m.sequence as nat) + " monitor="@ + dimensions(
        resolution.monitor,
    ) + " resolution_configured="@ + dimensions(resolution.configured) + " resolution_source="@
        + resolution.source@ + " hw_detect_disabled="@ + bool_word(
        resolution.hardware_detection_disabled,
    )
}

/// The context recorded for a launch; `dxvk` tells whether a `d3d9.dll` sits beside the game.
pub fn launch_context(os: &str, dxvk: bool, manifest: &Manifest, resolution: &ResolutionChoice) -> (r:
    String)
    ensures
        r@ == launch_context_of(os@, dxvk, *manifest, *resolution),
{
    let mut r = join2("os=", os);
    r.append(" backend=");
    r.append(if dxvk {
        "dxvk"
    } else {
        "d3d9"
    });
    r.append(" patch=");
    r.append(manifest_file_hash(manifest, "Data/PATCH-Z.MPQ").as_str());
    r.append(" outline=");
    r.append(manifest_file_hash(manifest, "Extensions/UnitOutline/UnitOutline.dll").as_str());
    r.append(" modern_m2=");
    r.append(manifest_file_hash(manifest, "Extensions/wxl-modern-m2/wxl-modern-m2.dll").as_str());
    r.append(" manifest_sequence=");
    r.append(decimal_text(manifest.sequence).as_str());
    r.append(" monitor=");
    r.append(dimensions_text(resolution.monitor).as_str());
    r.append(" resolution_configured=");
    r.append(dimensions_text(resolution.configured).as_str());
    r.append(" resolution_source=");
    r.append(resolution.source.as_str());
    r.append(" hw_detect_disabled=");
    r.append(if resolution.hardware_detection_disabled {
        "true"
    } else {
        "false"
    });
    r
}

/// The record written when the game starts.
pub open spec fn start_record_of(
    rec: Record,
    session: Seq<char>,
    timestamp: u64,
    m: Manifest,
    context: Seq<char>,
    upload: bool,
) -> bool {
    &&& rec.schema == 1
    &&& rec.id@ == session + "-start"@
    &&& rec.timestamp == timestamp
    &&& rec.client_version@ == m.client_version@
    &&& rec.build@ == file_hash_of(m.files@, "Extensions/RivalsBeyond/RivalsBeyond.dll"@)
    &&& rec.kind@ == "game_started"@
    &&& rec.component@ == "launcher"@
    &&& rec.message@ == "Game started"@
    &&& rec.context@ == context
    &&& rec.trace@.len() == 0
    &&& rec.upload == upload
}

/// The record written when the game starts; `upload` is the player's consent.
pub fn start_record(session: &str, timestamp: u64, manifest: &Manifest, context: String, upload: bool) -> (r:
    Record)
    ensures
        start_record_of(r, session@, timestamp, *manifest, context@, upload),
{
    Record {
        schema: 1,
        id: join2(session, "-start"),
        timestamp,
        client_version: owned(manifest.client_version.as_str()),
        build: manifest_file_hash(manifest, "Extensions/RivalsBeyond/RivalsBeyond.dll"),
        kind: owned("game_started"),
        component: owned("launcher"),
        message: owned("Game started"),
        context,
        trace: String::new(),
        upload,
    }
}

/// How the game ended, as recorded: ` duration_seconds=… exit_code=…`, the code as eight
/// hexadecimal digits of its 32-bit pattern, or `signal` when there is none.
pub open spec fn exit_context_of(duration: u64, code: Option<i32>) -> Seq<char> {
    " duration_seconds="@ + decimal(duration as nat) + " exit_code="@ + match code {
        Some(c) => "0x"@ + hex_width((c as u32) as nat, 8),
        None => "signal"@,
    }
}

fn exit_context(duration: u64, code: Option<i32>) -> (r: String)
    ensures
        r@ == exit_context_of(duration, code),
{
    let mut r = join2(" duration_seconds=", decimal_text(duration).as_str());
    r.append(" exit_code=");
    match code {
        Some(c) => {
            r.append("0x");
            r.append(hex8_text(c as u32).as_str());
        },
        None => r.append("signal"),
    }
    r
}

/// The record written when the game ends: the start record's version, build, component,
/// context (extended by duration and exit code) and consent, under the id `{session}-exit`.
pub open spec fn exit_record_of(
    rec: Record,
    start: Record,
    session: Seq<char>,
    timestamp: u64,
    success: bool,
    duration: u64,
    code: Option<i32>,
) -> bool {
    &&& rec.schema == start.schema
    &&& rec.id@ == session + "-exit"@
    &&& rec.timestamp == timestamp
    &&& rec.client_version@ == start.client_version@
    &&& rec.build@ == start.build@
    &&& rec.kind@ == (if success {
        "game_exited"@
    } else {
        "client_crash"@
    })
    &&& rec.component@ == start.component@
    &&& rec.message@ == (if success {
        "Game exited"@
    } else {
        "Game exited abnormally"@
    })
    &&& rec.context@ == start.context@ + exit_context_of(duration, code)
    &&& rec.trace@ == start.trace@
    &&& rec.upload == start.upload
}

/// The record written when the game ends after `duration` seconds with exit status `success`
/// and `code` (none when a signal ended it).
pub fn exit_record(
    start: &Record,
    session: &str,
    timestamp: u64,
    success: bool,
    duration: u64,
    code: Option<i32>,
) -> (r: Record)
    ensures
        exit_record_of(r, *start, session@, timestamp, success, duration, code),
{
    let mut context = owned(start.context.as_str());
    context.append(exit_context(duration, code).as_str());
    Record {
        schema: start.schema,
        id: join2(session, "-exit"),
        timestamp,
        client_version: owned(start.client_version.as_str()),
        build: owned(start.build.as_str()),
        kind: owned(if success {
            "game_exited"
        } else {
            "client_crash"
        }),
        component: owned(start.component.as_str()),
        message: owned(if success {
            "Game exited"
        } else {
            "Game exited abnormally"
        }),
        context,
        trace: owned(start.trace.as_str()),
        upload: start.upload,
    }
}

/// An event that was delivered is never posted again: once its id is remembered, every later
/// step for it is a skip, whatever the hourly count or the batch.
pub proof fn delivered_events_are_skipped(
    sent: Seq<Seq<char>>,
    id: Seq<char>,
    sent_this_hour: u32,
    upload: bool,
    attempted: nat,
)
    ensures
        flush_step(sent_after(sent, id), sent_this_hour, upload, id, attempted) == FlushStep::Skip,
{
    let all = sent.push(id);
    let kept = sent_after(sent, id);
    if all.len() > MAX_SENT_IDS {
        assert(kept[kept.len() - 1] == id);
    } else {
        assert(kept[kept.len() - 1] == all[all.len() - 1]);
    }
    assert(kept.contains(id));
}

/// A record whose player did not consent to upload is never posted.
pub proof fn opted_out_records_are_skipped(
    sent: Seq<Seq<char>>,
    sent_this_hour: u32,
    id: Seq<char>,
    attempted: nat,
)
    ensures
        flush_step(sent, sent_this_hour, false, id, attempted) == FlushStep::Skip,
{
}

/// Once the hourly allowance or the batch is used up, nothing more is posted in the flush.
pub proof fn exhausted_allowance_posts_nothing(
    sent: Seq<Seq<char>>,
    sent_this_hour: u32,
    upload: bool,
    id: Seq<char>,
    attempted: nat,
)
    requires
        sent_this_hour >= MAX_HOURLY_EVENTS || attempted >= MAX_BATCH,
    ensures
        flush_step(sent, sent_this_hour, upload, id, attempted) != FlushStep::Send,
{
}

/// A delivery that asked for a back-off pauses the relay for the whole back-off: no flush
/// starts before `timestamp + backoff` (the retry time saturates at the last representable
/// second, which is itself never paused).
pub proof fn back_off_pauses_delivery(timestamp: u64, backoff: u64, later: u64)
    requires
        backoff > 0,
        later < timestamp + backoff,
        later < u64::MAX,
    ensures
        later < retry_time(timestamp, backoff),
{
}

/// The remembered delivery ids never exceed `MAX_SENT_IDS`, and those kept from a saved state
/// are all well formed.
pub proof fn remembered_ids_stay_bounded(sent: Seq<Seq<char>>, id: Seq<char>, saved: Seq<Seq<char>>)
    ensures
        sent_after(sent, id).len() <= MAX_SENT_IDS,
        keep_last(well_formed_ids(saved), MAX_SENT_IDS as nat).len() <= MAX_SENT_IDS,
        forall|i: int|
            0 <= i < keep_last(well_formed_ids(saved), MAX_SENT_IDS as nat).len() ==> sent_id_ok(
                #[trigger] keep_last(well_formed_ids(saved), MAX_SENT_IDS as nat)[i],
            ),
{
    lemma_well_formed_ids(saved);
    let w = well_formed_ids(saved);
    let k = keep_last(w, MAX_SENT_IDS as nat);
    assert forall|i: int| 0 <= i < k.len() implies sent_id_ok(#[trigger] k[i]) by {
        if w.len() > MAX_SENT_IDS {
            assert(k[i] == w[i + (w.len() - MAX_SENT_IDS)]);
        }
    }
}

proof fn lemma_well_formed_ids(s: Seq<Seq<char>>)
    ensures
        forall|i: int| 0 <= i < well_formed_ids(s).len() ==> sent_id_ok(#[trigger] well_formed_ids(s)[i]),
    decreases s.len(),
{
    if s.len() > 0 {
        lemma_well_formed_ids(s.drop_last());
        let before = well_formed_ids(s.drop_last());
        assert forall|i: int| 0 <= i < well_formed_ids(s).len() implies sent_id_ok(
            #[trigger] well_formed_ids(s)[i],
        ) by {
            if i < before.len() {
                assert(well_formed_ids(s)[i] == before[i]);
            }
        }
    }
}

proof fn lemma_complete_lines(parts: Seq<Seq<u8>>)
    ensures
        forall|i: int|
            0 <= i < complete_lines(parts).len() ==> (#[trigger] complete_lines(parts)[i]).len() > 0
                && complete_lines(parts)[i].last() == 10 && complete_lines(parts)[i].len()
                <= MAX_LINE_BYTES,
    decreases parts.len(),
{
    if parts.len() > 0 {
        lemma_complete_lines(parts.drop_last());
        let before = complete_lines(parts.drop_last());
        assert forall|i: int| 0 <= i < complete_lines(parts).len() implies (
        #[trigger] complete_lines(parts)[i]).len() > 0 && complete_lines(parts)[i].last() == 10
            && complete_lines(parts)[i].len() <= MAX_LINE_BYTES by {
            if i < before.len() {
                assert(complete_lines(parts)[i] == before[i]);
            }
        }
    }
}

/// Only complete lines reach the decoder: every journal line handed on ends with its newline
/// and is at most `MAX_LINE_BYTES` long.
pub proof fn journal_lines_are_complete_and_bounded(bytes: Seq<u8>)
    ensures
        forall|i: int|
            0 <= i < journal_lines_of(bytes).len() ==> (#[trigger] journal_lines_of(bytes)[i]).len()
                > 0 && journal_lines_of(bytes)[i].last() == 10 && journal_lines_of(bytes)[i].len()
                <= MAX_LINE_BYTES,
{
    lemma_complete_lines(split_seq(bytes, 10u8).drop_last());
}

/// The lines of a native log tail read from byte `start`: whole lines only, decoded as UTF-8
/// with invalid sequences replaced.
pub fn native_log_lines(bytes: Vec<u8>, start: u64) -> (r: Vec<String>)
    ensures
        string_views(r@) == lines_of(crate::bindings::utf8_lossy(if start > 0 {
            after_first_newline(bytes@)
        } else {
            bytes@
        })),
{
    let whole = whole_lines_from(bytes, start);
    let text = lossy_text(whole.as_slice());
    text_lines(text.as_str())
}

/// Whether the native log belongs to the current launch: it was modified at or after the
/// launch record's time (a stale log is never attributed to a later launch).
pub fn native_log_is_current(modified: u64, launch_timestamp: u64) -> (r: bool)
    ensures
        r == (modified >= launch_timestamp),
{
    modified >= launch_timestamp
}

/// Largest number of native log reports made for one launch.
pub const MAX_NATIVE_REPORTS: usize = 20;

/// Whether a sequence holds no element twice.
pub open spec fn distinct(s: Seq<Seq<char>>) -> bool {
    forall|i: int, j: int| 0 <= i < j < s.len() ==> #[trigger] s[i] != #[trigger] s[j]
}

/// How the collection of native reports goes on from line `i`, with the digests `seen`
/// remembered, when the records handed on are written or not as `written` says, in order.
/// `id_fits` tells whether the launch record's id has a 24-byte prefix. Each line is looked
/// at while fewer than `MAX_NATIVE_REPORTS` digests are remembered; an error or warning whose
/// digest is not remembered is reported, and its digest remembered once it was written. A
/// line due for a report whose launch id does not fit stops the collection. Gives the
/// digests remembered, the lines reported, and whether the collection stopped on the id.
pub open spec fn collect_from(
    lines: Seq<Seq<char>>,
    seen: Seq<Seq<char>>,
    id_fits: bool,
    i: int,
    written: Seq<bool>,
) -> (Seq<Seq<char>>, Seq<int>, bool)
    decreases lines.len() - i,
{
    if i < 0 || i >= lines.len() || seen.len() >= MAX_NATIVE_REPORTS {
        (seen, Seq::empty(), false)
    } else {
        match line_report(lines[i]) {
            None => collect_from(lines, seen, id_fits, i + 1, written),
            Some(rep) => {
                if seen.contains(rep.2) {
                    collect_from(lines, seen, id_fits, i + 1, written)
                } else if !id_fits {
                    (seen, Seq::empty(), true)
                } else {
                    let now_seen = if written.len() > 0 && written[0] {
                        seen.push(rep.2)
                    } else {
                        seen
                    };
                    let rest = collect_from(lines, now_seen, id_fits, i + 1, written.drop_first());
                    (rest.0, seq![i] + rest.1, rest.2)
                }
            },
        }
    }
}

/// One record handed on by the collection of native reports.
pub struct Appended {
    /// The position of the reported line.
    pub line: usize,
    /// The record reporting it.
    pub record: Record,
    /// Whether the record was written.
    pub written: bool,
}

/// What a collection of native reports did.
pub struct NativeScan {
    /// The records handed on, in order.
    pub appended: Vec<Appended>,
    /// The collection stopped at a line due for a report because the launch record's id has
    /// no 24-byte prefix.
    pub session_id_unfit: bool,
}

/// The lines reported by a collection.
pub open spec fn appended_lines(log: Seq<Appended>) -> Seq<int> {
    log.map_values(|a: Appended| a.line as int)
}

/// Whether each record handed on was written.
pub open spec fn appended_written(log: Seq<Appended>) -> Seq<bool> {
    log.map_values(|a: Appended| a.written)
}

/// The collection from line `i` with `cur` remembered continues the one started from `seen`,
/// whose records so far were written as `done` and reported the lines `done_at`.
spec fn collect_continues(
    lines: Seq<Seq<char>>,
    seen: Seq<Seq<char>>,
    id_fits: bool,
    done: Seq<bool>,
    done_at: Seq<int>,
    cur: Seq<Seq<char>>,
    i: int,
) -> bool {
    forall|rest: Seq<bool>|
        #![trigger collect_from(lines, cur, id_fits, i, rest)]
        collect_from(lines, seen, id_fits, 0, done + rest) == (
            collect_from(lines, cur, id_fits, i, rest).0,
            done_at + collect_from(lines, cur, id_fits, i, rest).1,
            collect_from(lines, cur, id_fits, i, rest).2,
        )
}

proof fn lemma_collect_skip(
    lines: Seq<Seq<char>>,
    seen: Seq<Seq<char>>,
    id_fits: bool,
    done: Seq<bool>,
    done_at: Seq<int>,
    cur: Seq<Seq<char>>,
    i: int,
)
    requires
        0 <= i < lines.len(),
        cur.len() < MAX_NATIVE_REPORTS,
        collect_continues(lines, seen, id_fits, done, done_at, cur, i),
        match line_report(lines[i]) {
            None => true,
            Some(rep) => cur.contains(rep.2),
        },
    ensures
        collect_continues(lines, seen, id_fits, done, done_at, cur, i + 1),
{
    assert forall|rest: Seq<bool>|
        #![trigger collect_from(lines, cur, id_fits, i + 1, rest)]
        collect_from(lines, seen, id_fits, 0, done + rest) == (
            collect_from(lines, cur, id_fits, i + 1, rest).0,
            done_at + collect_from(lines, cur, id_fits, i + 1, rest).1,
            collect_from(lines, cur, id_fits, i + 1, rest).2,
        ) by {
        assert(collect_from(lines, cur, id_fits, i, rest) == collect_from(
            lines,
            cur,
            id_fits,
            i + 1,
            rest,
        ));
    }
}

proof fn lemma_collect_ends(
    lines: Seq<Seq<char>>,
    seen: Seq<Seq<char>>,
    id_fits: bool,
    done: Seq<bool>,
    done_at: Seq<int>,
    cur: Seq<Seq<char>>,
    i: int,
)
    requires
        0 <= i,
        collect_continues(lines, seen, id_fits, done, done_at, cur, i),
        i >= lines.len() || cur.len() >= MAX_NATIVE_REPORTS,
    ensures
        collect_from(lines, seen, id_fits, 0, done) == (cur, done_at, false),
{
    let none = Seq::<bool>::empty();
    let r = collect_from(lines, cur, id_fits, i, none);
    assert(done + none =~= done);
    assert(done_at + r.1 =~= done_at);
}

proof fn lemma_collect_halts(
    lines: Seq<Seq<char>>,
    seen: Seq<Seq<char>>,
    done: Seq<bool>,
    done_at: Seq<int>,
    cur: Seq<Seq<char>>,
    i: int,
)
    requires
        0 <= i < lines.len(),
        cur.len() < MAX_NATIVE_REPORTS,
        collect_continues(lines, seen, false, done, done_at, cur, i),
        line_report(lines[i]) matches Some(rep) && !cur.contains(rep.2),
    ensures
        collect_from(lines, seen, false, 0, done) == (cur, done_at, true),
{
    let none = Seq::<bool>::empty();
    let r = collect_from(lines, cur, false, i, none);
    assert(done + none =~= done);
    assert(done_at + r.1 =~= done_at);
}

proof fn lemma_collect_reports(
    lines: Seq<Seq<char>>,
    seen: Seq<Seq<char>>,
    done: Seq<bool>,
    done_at: Seq<int>,
    cur: Seq<Seq<char>>,
    i: int,
    written: bool,
)
    requires
        0 <= i < lines.len(),
        cur.len() < MAX_NATIVE_REPORTS,
        collect_continues(lines, seen, true, done, done_at, cur, i),
        line_report(lines[i]) matches Some(rep) && !cur.contains(rep.2),
    ensures
        collect_continues(
            lines,
            seen,
            true,
            done.push(written),
            done_at.push(i),
            if written {
                cur.push(line_report(lines[i]).unwrap().2)
            } else {
                cur
            },
            i + 1,
        ),
{
    let hash = line_report(lines[i]).unwrap().2;
    let next = if written {
        cur.push(hash)
    } else {
        cur
    };
    assert forall|rest: Seq<bool>|
        #![trigger collect_from(lines, next, true, i + 1, rest)]
        collect_from(lines, seen, true, 0, done.push(written) + rest) == (
            collect_from(lines, next, true, i + 1, rest).0,
            done_at.push(i) + collect_from(lines, next, true, i + 1, rest).1,
            collect_from(lines, next, true, i + 1, rest).2,
        ) by {
        let all = seq![written] + rest;
        assert(all.drop_first() =~= rest);
        assert(done + all =~= done.push(written) + rest);
        let r = collect_from(lines, next, true, i + 1, rest);
        assert(collect_from(lines, cur, true, i, all) == (r.0, seq![i] + r.1, r.2));
        assert(done_at + (seq![i] + r.1) =~= done_at.push(i) + r.1);
    }
}

/// A collection reports only errors and warnings whose text was not remembered, in line
/// order; the digests remembered before stay first, no more than `MAX_NATIVE_REPORTS` are
/// remembered (a list already longer is left as it is), and digests never repeat.
pub proof fn collected_lines_are_new_errors_or_warnings(
    lines: Seq<Seq<char>>,
    seen: Seq<Seq<char>>,
    id_fits: bool,
    i: int,
    written: Seq<bool>,
)
    requires
        0 <= i,
    ensures
        ({
            let r = collect_from(lines, seen, id_fits, i, written);
            &&& seen.len() <= r.0.len()
            &&& r.0.take(seen.len() as int) == seen
            &&& seen.len() < MAX_NATIVE_REPORTS ==> r.0.len() <= MAX_NATIVE_REPORTS
            &&& seen.len() >= MAX_NATIVE_REPORTS ==> r.0 == seen && r.1.len() == 0
            &&& distinct(seen) ==> distinct(r.0)
            &&& forall|j: int|
                0 <= j < r.1.len() ==> i <= #[trigger] r.1[j] < lines.len() && (line_report(
                    lines[r.1[j]],
                ) matches Some(rep) && !seen.contains(rep.2))
            &&& forall|a: int, b: int| 0 <= a < b < r.1.len() ==> r.1[a] < r.1[b]
        }),
    decreases lines.len() - i,
{
    let r = collect_from(lines, seen, id_fits, i, written);
    if i >= lines.len() || seen.len() >= MAX_NATIVE_REPORTS {
        assert(seen.take(seen.len() as int) =~= seen);
    } else {
        match line_report(lines[i]) {
            None => {
                collected_lines_are_new_errors_or_warnings(lines, seen, id_fits, i + 1, written);
            },
            Some(rep) => {
                if seen.contains(rep.2) {
                    collected_lines_are_new_errors_or_warnings(lines, seen, id_fits, i + 1, written);
                } else if !id_fits {
                    assert(seen.take(seen.len() as int) =~= seen);
                } else {
                    let w = written.len() > 0 && written[0];
                    let now_seen = if w {
                        seen.push(rep.2)
                    } else {
                        seen
                    };
                    collected_lines_are_new_errors_or_warnings(
                        lines,
                        now_seen,
                        id_fits,
                        i + 1,
                        written.drop_first(),
                    );
                    let rest = collect_from(lines, now_seen, id_fits, i + 1, written.drop_first());
                    assert(r.1 == seq![i] + rest.1);
                    assert(now_seen.take(seen.len() as int) =~= seen);
                    assert(r.0.take(seen.len() as int) =~= now_seen.take(now_seen.len() as int).take(
                        seen.len() as int,
                    ));
                    if w {
                        assert(distinct(seen) ==> distinct(now_seen)) by {
                            if distinct(seen) {
                                assert forall|a: int, b: int|
                                    0 <= a < b < now_seen.len() implies #[trigger] now_seen[a]
                                    != #[trigger] now_seen[b] by {
                                    if b == seen.len() {
                                        assert(now_seen[a] == seen[a]);
                                    }
                                }
                            }
                        }
                    }
                    assert forall|j: int| 0 <= j < r.1.len() implies i <= #[trigger] r.1[j]
                        < lines.len() && (line_report(lines[r.1[j]]) matches Some(rp)
                        && !seen.contains(rp.2)) by {
                        if j > 0 {
                            assert(r.1[j] == rest.1[j - 1]);
                            let rp = line_report(lines[r.1[j]]).unwrap();
                            if seen.contains(rp.2) {
                                let x = choose|x: int| 0 <= x < seen.len() && seen[x] == rp.2;
                                assert(now_seen[x] == rp.2);
                            }
                        }
                    }
                    assert forall|a: int, b: int| 0 <= a < b < r.1.len() implies r.1[a] < r.1[b] by {
                        assert(r.1[b] == rest.1[b - 1]);
                        if a > 0 {
                            assert(r.1[a] == rest.1[a - 1]);
                        }
                    }
                }
            },
        }
    }
}

proof fn lemma_collect_covers(lines: Seq<Seq<char>>, seen: Seq<Seq<char>>, i: int, written: Seq<bool>)
    requires
        0 <= i,
        written.len() >= lines.len() - i,
        forall|k: int| 0 <= k < written.len() ==> #[trigger] written[k],
    ensures
        ({
            let r = collect_from(lines, seen, true, i, written);
            &&& !r.2
            &&& forall|x: Seq<char>| seen.contains(x) ==> #[trigger] r.0.contains(x)
            &&& r.0.len() >= MAX_NATIVE_REPORTS || forall|k: int|
                i <= k < lines.len() ==> (#[trigger] line_report(lines[k]) matches Some(rep)
                    ==> r.0.contains(rep.2))
        }),
    decreases lines.len() - i,
{
    let r = collect_from(lines, seen, true, i, written);
    if i < lines.len() && seen.len() < MAX_NATIVE_REPORTS {
        match line_report(lines[i]) {
            None => {
                lemma_collect_covers(lines, seen, i + 1, written);
            },
            Some(rep) => {
                if seen.contains(rep.2) {
                    lemma_collect_covers(lines, seen, i + 1, written);
                } else {
                    assert(written[0]);
                    let now_seen = seen.push(rep.2);
                    lemma_collect_covers(lines, now_seen, i + 1, written.drop_first());
                    assert forall|x: Seq<char>| seen.contains(x) implies #[trigger] r.0.contains(x) by {
                        let y = choose|y: int| 0 <= y < seen.len() && seen[y] == x;
                        assert(now_seen[y] == x);
                    }
                    assert(now_seen[seen.len() as int] == rep.2);
                    assert(r.0.contains(rep.2));
                }
            },
        }
    }
}

proof fn lemma_collect_nothing_new(lines: Seq<Seq<char>>, seen: Seq<Seq<char>>, id_fits: bool, i: int, written: Seq<bool>)
    requires
        0 <= i,
        seen.len() >= MAX_NATIVE_REPORTS || forall|k: int|
            i <= k < lines.len() ==> (#[trigger] line_report(lines[k]) matches Some(rep)
                ==> seen.contains(rep.2)),
    ensures
        collect_from(lines, seen, id_fits, i, written).1.len() == 0,
    decreases lines.len() - i,
{
    if i < lines.len() && seen.len() < MAX_NATIVE_REPORTS {
        assert(line_report(lines[i]) matches Some(rep) ==> seen.contains(rep.2));
        lemma_collect_nothing_new(lines, seen, id_fits, i + 1, written);
    }
}

proof fn lemma_collect_unfit(lines: Seq<Seq<char>>, seen: Seq<Seq<char>>, i: int, written: Seq<bool>)
    requires
        0 <= i,
    ensures
        collect_from(lines, seen, false, i, written).1.len() == 0,
    decreases lines.len() - i,
{
    if i < lines.len() && seen.len() < MAX_NATIVE_REPORTS {
        lemma_collect_unfit(lines, seen, i + 1, written);
    }
}

/// Each native error or warning is reported once: after a collection whose records were all
/// written, collecting the same lines again with the digests it remembered reports nothing.
pub proof fn native_lines_are_reported_once(
    lines: Seq<Seq<char>>,
    seen: Seq<Seq<char>>,
    id_fits: bool,
    again: Seq<bool>,
)
    ensures
        collect_from(
            lines,
            collect_from(lines, seen, id_fits, 0, Seq::new(lines.len(), |k: int| true)).0,
            id_fits,
            0,
            again,
        ).1.len() == 0,
{
    let all = Seq::new(lines.len(), |k: int| true);
    let first = collect_from(lines, seen, id_fits, 0, all);
    if id_fits {
        lemma_collect_covers(lines, seen, 0, all);
        lemma_collect_nothing_new(lines, first.0, id_fits, 0, again);
    } else {
        lemma_collect_unfit(lines, first.0, 0, again);
    }
}

/// Reports the native log lines of the current launch: nothing when the log was last
/// modified (`modified`, in seconds since the epoch) before the launch record's time, since
/// a stale log is never attributed to a later launch. Otherwise each line is looked at in
/// order while fewer than `MAX_NATIVE_REPORTS` digests are remembered in `seen`; a line
/// holding an error or warning whose text was not reported yet becomes a record handed to
/// `append`, and its digest is remembered when `append` says the record was written.
pub fn collect_native_reports<F: Fn(&Record) -> bool>(
    lines: &Vec<String>,
    session: &Record,
    modified: u64,
    seen: &mut Vec<String>,
    append: F,
) -> (scan: NativeScan)
    requires
        forall|r: &Record| #![trigger call_requires(append, (r,))] call_requires(append, (r,)),
    ensures
        modified < session.timestamp ==> scan.appended@.len() == 0 && !scan.session_id_unfit
            && final(seen)@ == old(seen)@,
        modified >= session.timestamp ==> collect_from(
            string_views(lines@),
            string_views(old(seen)@),
            is_char_boundary(bytes_of(session.id@), 24),
            0,
            appended_written(scan.appended@),
        ) == (string_views(final(seen)@), appended_lines(scan.appended@), scan.session_id_unfit),
        forall|j: int|
            0 <= j < scan.appended@.len() ==> {
                let a = #[trigger] scan.appended@[j];
                &&& (a.line as int) < lines@.len()
                &&& line_report(lines@[a.line as int]@) matches Some(rep) && native_record(
                    a.record,
                    *session,
                    rep.0,
                    rep.1,
                    rep.2,
                    a.record.timestamp,
                )
                &&& call_ensures(append, (&a.record,), a.written)
            },
{
    let mut log: Vec<Appended> = Vec::new();
    if !native_log_is_current(modified, session.timestamp) {
        return NativeScan { appended: log, session_id_unfit: false };
    }
    let ghost views = string_views(lines@);
    let ghost start = string_views(seen@);
    let ghost fits = is_char_boundary(bytes_of(session.id@), 24);
    assert(collect_continues(views, start, fits, appended_written(log@), appended_lines(log@), start, 0)) by {
        assert forall|rest: Seq<bool>|
            #![trigger collect_from(views, start, fits, 0, rest)]
            collect_from(views, start, fits, 0, appended_written(log@) + rest) == (
                collect_from(views, start, fits, 0, rest).0,
                appended_lines(log@) + collect_from(views, start, fits, 0, rest).1,
                collect_from(views, start, fits, 0, rest).2,
            ) by {
            assert(appended_written(log@) + rest =~= rest);
            assert(appended_lines(log@) + collect_from(views, start, fits, 0, rest).1
                =~= collect_from(views, start, fits, 0, rest).1);
        }
    }
    let mut i: usize = 0;
    while i < lines.len()
        invariant
            i <= lines@.len(),
            views == string_views(lines@),
            start == string_views(old(seen)@),
            fits == is_char_boundary(bytes_of(session.id@), 24),
            modified >= session.timestamp,
            forall|r: &Record| #![trigger call_requires(append, (r,))] call_requires(append, (r,)),
            collect_continues(
                views,
                start,
                fits,
                appended_written(log@),
                appended_lines(log@),
                string_views(seen@),
                i as int,
            ),
            forall|j: int|
                0 <= j < log@.len() ==> {
                    let a = #[trigger] log@[j];
                    &&& (a.line as int) < lines@.len()
                    &&& line_report(lines@[a.line as int]@) matches Some(rep) && native_record(
                        a.record,
                        *session,
                        rep.0,
                        rep.1,
                        rep.2,
                        a.record.timestamp,
                    )
                    &&& call_ensures(append, (&a.record,), a.written)
                },
        decreases lines.len() - i,
    {
        let ghost cur = string_views(seen@);
        if seen.len() >= MAX_NATIVE_REPORTS {
            proof {
                lemma_collect_ends(views, start, fits, appended_written(log@), appended_lines(log@), cur, i as int);
            }
            return NativeScan { appended: log, session_id_unfit: false };
        }
        assert(views[i as int] == lines@[i as int]@);
        match native_line(lines[i].as_str()) {
            None => {
                proof {
                    lemma_collect_skip(views, start, fits, appended_written(log@), appended_lines(log@), cur, i as int);
                }
            },
            Some((kind, text, hash)) => {
                if sent_contains(seen, hash.as_str()) {
                    proof {
                        lemma_collect_skip(views, start, fits, appended_written(log@), appended_lines(log@), cur, i as int);
                    }
                } else if !session.id.as_str().is_char_boundary(24) {
                    proof {
                        lemma_collect_halts(views, start, appended_written(log@), appended_lines(log@), cur, i as int);
                    }
                    return NativeScan { appended: log, session_id_unfit: true };
                } else {
                    let record = native_record_for(kind, text.as_str(), hash.as_str(), session, now());
                    let written = append(&record);
                    proof {
                        lemma_collect_reports(views, start, appended_written(log@), appended_lines(log@), cur, i as int, written);
                    }
                    if written {
                        let ghost hv = hash@;
                        seen.push(hash);
                        assert(string_views(seen@) =~= cur.push(hv));
                    }
                    let ghost before_log = log@;
                    log.push(Appended { line: i, record, written });
                    proof {
                        assert(appended_written(log@) =~= appended_written(before_log).push(written));
                        assert(appended_lines(log@) =~= appended_lines(before_log).push(i as int));
                        assert forall|j: int| 0 <= j < log@.len() implies {
                            let a = #[trigger] log@[j];
                            &&& (a.line as int) < lines@.len()
                            &&& line_report(lines@[a.line as int]@) matches Some(rep) && native_record(
                                a.record,
                                *session,
                                rep.0,
                                rep.1,
                                rep.2,
                                a.record.timestamp,
                            )
                            &&& call_ensures(append, (&a.record,), a.written)
                        } by {
                            if j < before_log.len() {
                                assert(log@[j] == before_log[j]);
                            }
                        }
                    }
                }
            },
        }
        i += 1;
    }
    proof {
        lemma_collect_ends(views, start, fits, appended_written(log@), appended_lines(log@), string_views(seen@), i as int);
    }
    NativeScan { appended: log, session_id_unfit: false }
}

/// The deliveries already counted for the hour of `timestamp`.
pub open spec fn counted_this_hour(state: DeliveryState, timestamp: u64) -> u32 {
    if state.hour == hour_of(timestamp) {
        state.sent_this_hour
    } else {
        0
    }
}

/// The relay's state as plain values: delivered ids, retry time, hour and the deliveries
/// counted for that hour.
pub type DeliveryView = (Seq<Seq<char>>, u64, u64, u32);

/// The plain view of a relay state.
pub open spec fn delivery_view(s: DeliveryState) -> DeliveryView {
    (string_views(s.sent@), s.retry_at, s.hour, s.sent_this_hour)
}

/// The state once a flush at `timestamp` has started: the hourly count restarts when the
/// clock hour changed.
pub open spec fn flush_started(v: DeliveryView, timestamp: u64) -> DeliveryView {
    (v.0, v.1, hour_of(timestamp), if v.2 == hour_of(timestamp) {
        v.3
    } else {
        0
    })
}

/// The state once the delivery of event `id` at `timestamp` came out as `result` (success,
/// back-off): a success remembers the id and counts it; the retry time follows the back-off.
pub open spec fn delivered(v: DeliveryView, id: Seq<char>, result: (bool, u64), timestamp: u64) -> DeliveryView {
    (
        if result.0 {
            sent_after(v.0, id)
        } else {
            v.0
        },
        retry_time(timestamp, result.1),
        v.2,
        if result.0 {
            (v.3 + 1) as u32
        } else {
            v.3
        },
    )
}

/// How a flush goes on from state `v` over the journal records below position `i` (newest
/// first), whose event ids are `ids` and upload consents `uploads`, after `attempted` posts,
/// when the posts come out, in order, as `outcomes` (the delivery result, and whether the
/// state was saved afterwards). Gives the final state, the positions of the records posted,
/// and the state handed to the save after each post. The flush ends at a used-up batch or
/// hourly allowance, and after a post that failed, asked for a back-off or was not saved.
pub open spec fn flush_from(
    v: DeliveryView,
    timestamp: u64,
    ids: Seq<Seq<char>>,
    uploads: Seq<bool>,
    i: int,
    attempted: nat,
    outcomes: Seq<((bool, u64), bool)>,
) -> (DeliveryView, Seq<int>, Seq<DeliveryView>)
    decreases i,
{
    if i <= 0 {
        (v, Seq::empty(), Seq::empty())
    } else {
        let k = i - 1;
        match flush_step(v.0, v.3, uploads[k], ids[k], attempted) {
            FlushStep::Skip => flush_from(v, timestamp, ids, uploads, k, attempted, outcomes),
            FlushStep::Stop => (v, Seq::empty(), Seq::empty()),
            FlushStep::Send => {
                if outcomes.len() == 0 {
                    (v, seq![k], seq![v])
                } else {
                    let after = delivered(v, ids[k], outcomes[0].0, timestamp);
                    if outcomes[0].0.0 && outcomes[0].0.1 == 0 && outcomes[0].1 {
                        let rest = flush_from(
                            after,
                            timestamp,
                            ids,
                            uploads,
                            k,
                            attempted + 1,
                            outcomes.drop_first(),
                        );
                        (rest.0, seq![k] + rest.1, seq![after] + rest.2)
                    } else {
                        (after, seq![k], seq![after])
                    }
                }
            },
        }
    }
}

/// One post of a flush.
pub struct Posted {
    /// The position of the posted record in the journal.
    pub index: usize,
    /// What the endpoint answered; `None` when no answer came.
    pub reply: Option<Reply>,
    /// Whether the state was saved after the post.
    pub saved: bool,
}

/// The event ids of journal records.
pub open spec fn journal_ids(records: Seq<Record>) -> Seq<Seq<char>> {
    records.map_values(|r: Record| event_id_of(r.build@, r.id@))
}

/// The upload consents of journal records.
pub open spec fn journal_uploads(records: Seq<Record>) -> Seq<bool> {
    records.map_values(|r: Record| r.upload)
}

/// The outcomes of posts: the delivery result of each reply, and whether the state was saved.
pub open spec fn post_outcomes(log: Seq<Posted>) -> Seq<((bool, u64), bool)> {
    log.map_values(|p: Posted| (delivery_result(reply_view(p.reply)), p.saved))
}

/// The journal positions of posts.
pub open spec fn post_indices(log: Seq<Posted>) -> Seq<int> {
    log.map_values(|p: Posted| p.index as int)
}

/// The flush at `timestamp` from state `v` over `records`, given the outcomes of its posts.
pub open spec fn flush_run(
    v: DeliveryView,
    timestamp: u64,
    records: Seq<Record>,
    outcomes: Seq<((bool, u64), bool)>,
) -> (DeliveryView, Seq<int>, Seq<DeliveryView>) {
    flush_from(
        flush_started(v, timestamp),
        timestamp,
        journal_ids(records),
        journal_uploads(records),
        records.len() as int,
        0,
        outcomes,
    )
}

/// `reply` is an answer of `post` to `record` and its event.
pub open spec fn answered<P: Fn(&Record, &Event) -> Option<Reply>>(
    post: P,
    record: Record,
    launcher_version: Seq<char>,
    reply: Option<Reply>,
) -> bool {
    exists|e: Event|
        event_of(record, launcher_version, e) && #[trigger] call_ensures(post, (&record, &e), reply)
}

/// `saved` is an answer of `save` to a state whose view is `view`.
pub open spec fn saved_as<S: Fn(&DeliveryState) -> bool>(save: S, view: DeliveryView, saved: bool) -> bool {
    exists|d: DeliveryState| delivery_view(d) == view && #[trigger] call_ensures(save, (&d,), saved)
}

/// The flush from state `cur` at position `i` after `attempted` posts continues the one
/// started from `v0` over `n` records, whose posts so far came out as `done`, were made at
/// `done_at` and left the saved states `done_saved`.
spec fn flush_continues(
    v0: DeliveryView,
    timestamp: u64,
    ids: Seq<Seq<char>>,
    uploads: Seq<bool>,
    n: int,
    done: Seq<((bool, u64), bool)>,
    done_at: Seq<int>,
    done_saved: Seq<DeliveryView>,
    cur: DeliveryView,
    i: int,
    attempted: nat,
) -> bool {
    forall|rest: Seq<((bool, u64), bool)>|
        #![trigger flush_from(cur, timestamp, ids, uploads, i, attempted, rest)]
        flush_from(v0, timestamp, ids, uploads, n, 0, done + rest) == (
            flush_from(cur, timestamp, ids, uploads, i, attempted, rest).0,
            done_at + flush_from(cur, timestamp, ids, uploads, i, attempted, rest).1,
            done_saved + flush_from(cur, timestamp, ids, uploads, i, attempted, rest).2,
        )
}

proof fn lemma_flush_skip(
    v0: DeliveryView,
    timestamp: u64,
    ids: Seq<Seq<char>>,
    uploads: Seq<bool>,
    n: int,
    done: Seq<((bool, u64), bool)>,
    done_at: Seq<int>,
    done_saved: Seq<DeliveryView>,
    cur: DeliveryView,
    i: int,
    attempted: nat,
)
    requires
        i > 0,
        flush_continues(v0, timestamp, ids, uploads, n, done, done_at, done_saved, cur, i, attempted),
        flush_step(cur.0, cur.3, uploads[i - 1], ids[i - 1], attempted) == FlushStep::Skip,
    ensures
        flush_continues(v0, timestamp, ids, uploads, n, done, done_at, done_saved, cur, i - 1, attempted),
{
    assert forall|rest: Seq<((bool, u64), bool)>|
        #![trigger flush_from(cur, timestamp, ids, uploads, i - 1, attempted, rest)]
        flush_from(v0, timestamp, ids, uploads, n, 0, done + rest) == (
            flush_from(cur, timestamp, ids, uploads, i - 1, attempted, rest).0,
            done_at + flush_from(cur, timestamp, ids, uploads, i - 1, attempted, rest).1,
            done_saved + flush_from(cur, timestamp, ids, uploads, i - 1, attempted, rest).2,
        ) by {
        assert(flush_from(cur, timestamp, ids, uploads, i, attempted, rest) == flush_from(
            cur,
            timestamp,
            ids,
            uploads,
            i - 1,
            attempted,
            rest,
        ));
    }
}

proof fn lemma_flush_ends(
    v0: DeliveryView,
    timestamp: u64,
    ids: Seq<Seq<char>>,
    uploads: Seq<bool>,
    n: int,
    done: Seq<((bool, u64), bool)>,
    done_at: Seq<int>,
    done_saved: Seq<DeliveryView>,
    cur: DeliveryView,
    i: int,
    attempted: nat,
)
    requires
        flush_continues(v0, timestamp, ids, uploads, n, done, done_at, done_saved, cur, i, attempted),
        i <= 0 || flush_step(cur.0, cur.3, uploads[i - 1], ids[i - 1], attempted) == FlushStep::Stop,
    ensures
        flush_from(v0, timestamp, ids, uploads, n, 0, done) == (cur, done_at, done_saved),
{
    let none = Seq::<((bool, u64), bool)>::empty();
    let r = flush_from(cur, timestamp, ids, uploads, i, attempted, none);
    assert(done + none =~= done);
    assert(done_at + r.1 =~= done_at);
    assert(done_saved + r.2 =~= done_saved);
}

proof fn lemma_flush_post(
    v0: DeliveryView,
    timestamp: u64,
    ids: Seq<Seq<char>>,
    uploads: Seq<bool>,
    n: int,
    done: Seq<((bool, u64), bool)>,
    done_at: Seq<int>,
    done_saved: Seq<DeliveryView>,
    cur: DeliveryView,
    i: int,
    attempted: nat,
    outcome: ((bool, u64), bool),
)
    requires
        i > 0,
        flush_continues(v0, timestamp, ids, uploads, n, done, done_at, done_saved, cur, i, attempted),
        flush_step(cur.0, cur.3, uploads[i - 1], ids[i - 1], attempted) == FlushStep::Send,
    ensures
        ({
            let after = delivered(cur, ids[i - 1], outcome.0, timestamp);
            if outcome.0.0 && outcome.0.1 == 0 && outcome.1 {
                flush_continues(
                    v0,
                    timestamp,
                    ids,
                    uploads,
                    n,
                    done.push(outcome),
                    done_at.push(i - 1),
                    done_saved.push(after),
                    after,
                    i - 1,
                    attempted + 1,
                )
            } else {
                flush_from(v0, timestamp, ids, uploads, n, 0, done.push(outcome)) == (
                    after,
                    done_at.push(i - 1),
                    done_saved.push(after),
                )
            }
        }),
{
    let k = i - 1;
    let after = delivered(cur, ids[k], outcome.0, timestamp);
    if outcome.0.0 && outcome.0.1 == 0 && outcome.1 {
        assert forall|rest: Seq<((bool, u64), bool)>|
            #![trigger flush_from(after, timestamp, ids, uploads, k, attempted + 1, rest)]
            flush_from(v0, timestamp, ids, uploads, n, 0, done.push(outcome) + rest) == (
                flush_from(after, timestamp, ids, uploads, k, attempted + 1, rest).0,
                done_at.push(k) + flush_from(after, timestamp, ids, uploads, k, attempted + 1, rest).1,
                done_saved.push(after) + flush_from(
                    after,
                    timestamp,
                    ids,
                    uploads,
                    k,
                    attempted + 1,
                    rest,
                ).2,
            ) by {
            let all = seq![outcome] + rest;
            assert(all.drop_first() =~= rest);
            assert(done + all =~= done.push(outcome) + rest);
            let r = flush_from(after, timestamp, ids, uploads, k, attempted + 1, rest);
            assert(flush_from(cur, timestamp, ids, uploads, i, attempted, all) == (
                r.0,
                seq![k] + r.1,
                seq![after] + r.2,
            ));
            assert(done_at + (seq![k] + r.1) =~= done_at.push(k) + r.1);
            assert(done_saved + (seq![after] + r.2) =~= done_saved.push(after) + r.2);
        }
    } else {
        let all = seq![outcome];
        assert(done + all =~= done.push(outcome));
        assert(flush_from(cur, timestamp, ids, uploads, i, attempted, all) == (
            after,
            seq![k],
            seq![after],
        ));
        assert(done_at + seq![k] =~= done_at.push(k));
        assert(done_saved + seq![after] =~= done_saved.push(after));
    }
}

/// A flush posts only records whose player consented to upload and whose event was not
/// delivered yet when it was posted (the state before the first post is the one the flush
/// started from, before each later post the one saved after the previous post); it posts
/// them newest first.
pub proof fn flush_posts_only_consenting_undelivered_records(
    v: DeliveryView,
    timestamp: u64,
    ids: Seq<Seq<char>>,
    uploads: Seq<bool>,
    i: int,
    attempted: nat,
    outcomes: Seq<((bool, u64), bool)>,
)
    requires
        0 <= i <= ids.len(),
        ids.len() == uploads.len(),
    ensures
        ({
            let r = flush_from(v, timestamp, ids, uploads, i, attempted, outcomes);
            &&& r.1.len() == r.2.len()
            &&& forall|j: int|
                0 <= j < r.1.len() ==> 0 <= #[trigger] r.1[j] < i && uploads[r.1[j]] && !(if j
                    == 0 {
                    v.0
                } else {
                    r.2[j - 1].0
                }).contains(ids[r.1[j]])
            &&& forall|a: int, b: int| 0 <= a < b < r.1.len() ==> r.1[a] > r.1[b]
        }),
    decreases i,
{
    if i > 0 {
        let k = i - 1;
        match flush_step(v.0, v.3, uploads[k], ids[k], attempted) {
            FlushStep::Skip => {
                flush_posts_only_consenting_undelivered_records(
                    v,
                    timestamp,
                    ids,
                    uploads,
                    k,
                    attempted,
                    outcomes,
                );
            },
            FlushStep::Stop => {},
            FlushStep::Send => {
                if outcomes.len() > 0 {
                    let after = delivered(v, ids[k], outcomes[0].0, timestamp);
                    if outcomes[0].0.0 && outcomes[0].0.1 == 0 && outcomes[0].1 {
                        let rest = flush_from(
                            after,
                            timestamp,
                            ids,
                            uploads,
                            k,
                            attempted + 1,
                            outcomes.drop_first(),
                        );
                        flush_posts_only_consenting_undelivered_records(
                            after,
                            timestamp,
                            ids,
                            uploads,
                            k,
                            attempted + 1,
                            outcomes.drop_first(),
                        );
                        let r = flush_from(v, timestamp, ids, uploads, i, attempted, outcomes);
                        assert(r.1 == seq![k] + rest.1);
                        assert(r.2 == seq![after] + rest.2);
                        assert forall|j: int| 0 <= j < r.1.len() implies 0 <= #[trigger] r.1[j] < i
                            && uploads[r.1[j]] && !(if j == 0 {
                            v.0
                        } else {
                            r.2[j - 1].0
                        }).contains(ids[r.1[j]]) by {
                            if j > 0 {
                                assert(r.1[j] == rest.1[j - 1]);
                                assert(r.2[j - 1] == (if j - 1 == 0 {
                                    after
                                } else {
                                    rest.2[j - 2]
                                }));
                            }
                        }
                        assert forall|a: int, b: int| 0 <= a < b < r.1.len() implies r.1[a] > r.1[b] by {
                            assert(r.1[b] == rest.1[b - 1]);
                            if a > 0 {
                                assert(r.1[a] == rest.1[a - 1]);
                            }
                        }
                    }
                }
            },
        }
    }
}

/// A flush keeps its allowances: at most `MAX_BATCH` posts in all, never more deliveries in
/// the hour than `MAX_HOURLY_EVENTS` (a count already above it is left as it is), the clock
/// hour unchanged, and no more than `MAX_SENT_IDS` remembered ids when there were no more
/// before.
pub proof fn flush_keeps_its_allowances(
    v: DeliveryView,
    timestamp: u64,
    ids: Seq<Seq<char>>,
    uploads: Seq<bool>,
    i: int,
    attempted: nat,
    outcomes: Seq<((bool, u64), bool)>,
)
    requires
        0 <= i <= ids.len(),
        ids.len() == uploads.len(),
        attempted <= MAX_BATCH,
    ensures
        ({
            let r = flush_from(v, timestamp, ids, uploads, i, attempted, outcomes);
            &&& attempted + r.1.len() <= MAX_BATCH
            &&& r.1.len() == 0 || v.3 + r.1.len() <= MAX_HOURLY_EVENTS
            &&& r.0.3 <= (if v.3 > MAX_HOURLY_EVENTS {
                v.3
            } else {
                MAX_HOURLY_EVENTS
            })
            &&& r.0.2 == v.2
            &&& v.0.len() <= MAX_SENT_IDS ==> r.0.0.len() <= MAX_SENT_IDS
        }),
    decreases i,
{
    if i > 0 {
        let k = i - 1;
        match flush_step(v.0, v.3, uploads[k], ids[k], attempted) {
            FlushStep::Skip => {
                flush_keeps_its_allowances(v, timestamp, ids, uploads, k, attempted, outcomes);
            },
            FlushStep::Stop => {},
            FlushStep::Send => {
                if outcomes.len() > 0 {
                    remembered_ids_stay_bounded(v.0, ids[k], Seq::empty());
                    let after = delivered(v, ids[k], outcomes[0].0, timestamp);
                    if outcomes[0].0.0 && outcomes[0].0.1 == 0 && outcomes[0].1 {
                        flush_keeps_its_allowances(
                            after,
                            timestamp,
                            ids,
                            uploads,
                            k,
                            attempted + 1,
                            outcomes.drop_first(),
                        );
                    }
                }
            },
        }
    }
}

/// A flush with no record due (every record opted out or already delivered) posts nothing
/// and leaves the state as it found it.
pub proof fn flush_without_due_records_changes_nothing(
    v: DeliveryView,
    timestamp: u64,
    ids: Seq<Seq<char>>,
    uploads: Seq<bool>,
    i: int,
    attempted: nat,
    outcomes: Seq<((bool, u64), bool)>,
)
    requires
        0 <= i <= ids.len(),
        ids.len() == uploads.len(),
        forall|k: int| 0 <= k < i ==> !uploads[k] || v.0.contains(#[trigger] ids[k]),
    ensures
        flush_from(v, timestamp, ids, uploads, i, attempted, outcomes) == (
            v,
            Seq::<int>::empty(),
            Seq::<DeliveryView>::empty(),
        ),
    decreases i,
{
    if i > 0 {
        assert(!uploads[i - 1] || v.0.contains(ids[i - 1]));
        flush_without_due_records_changes_nothing(v, timestamp, ids, uploads, i - 1, attempted, outcomes);
    }
}

/// A flush whose batch or hourly allowance is used up posts nothing and leaves the state as
/// it found it.
pub proof fn flush_past_its_allowance_changes_nothing(
    v: DeliveryView,
    timestamp: u64,
    ids: Seq<Seq<char>>,
    uploads: Seq<bool>,
    i: int,
    attempted: nat,
    outcomes: Seq<((bool, u64), bool)>,
)
    requires
        0 <= i <= ids.len(),
        ids.len() == uploads.len(),
        v.3 >= MAX_HOURLY_EVENTS || attempted >= MAX_BATCH,
    ensures
        flush_from(v, timestamp, ids, uploads, i, attempted, outcomes) == (
            v,
            Seq::<int>::empty(),
            Seq::<DeliveryView>::empty(),
        ),
    decreases i,
{
    if i > 0 {
        flush_past_its_allowance_changes_nothing(v, timestamp, ids, uploads, i - 1, attempted, outcomes);
    }
}

/// A flush posts the newest record first when it is due and the allowances are not used up;
/// the state saved after that post is the one its outcome leaves (a success remembers the
/// id and counts it, the retry time follows the back-off), and a post that failed, asked for
/// a back-off or was not saved ends the flush in that state.
pub proof fn flush_posts_the_newest_due_record(
    v: DeliveryView,
    timestamp: u64,
    ids: Seq<Seq<char>>,
    uploads: Seq<bool>,
    i: int,
    attempted: nat,
    outcomes: Seq<((bool, u64), bool)>,
)
    requires
        0 < i <= ids.len(),
        ids.len() == uploads.len(),
        uploads[i - 1],
        !v.0.contains(ids[i - 1]),
        attempted < MAX_BATCH,
        v.3 < MAX_HOURLY_EVENTS,
        outcomes.len() > 0,
    ensures
        ({
            let r = flush_from(v, timestamp, ids, uploads, i, attempted, outcomes);
            let after = delivered(v, ids[i - 1], outcomes[0].0, timestamp);
            &&& r.1.len() >= 1
            &&& r.1[0] == i - 1
            &&& r.2[0] == after
            &&& !(outcomes[0].0.0 && outcomes[0].0.1 == 0 && outcomes[0].1) ==> r.0 == after
                && r.1.len() == 1
        }),
{
}

impl DeliveryState {
    /// One flush at `timestamp` over the journal `records` (oldest first), newest first: each
    /// record's event is handed to `post` when the step says so, the outcome recorded, and the
    /// state handed to `save`; the flush ends at the first failed or back-off outcome, failed
    /// save, or used-up batch or hourly allowance. Returns the posts made, in order.
    pub fn flush<P: Fn(&Record, &Event) -> Option<Reply>, S: Fn(&DeliveryState) -> bool>(
        &mut self,
        timestamp: u64,
        records: &Vec<Record>,
        launcher_version: &str,
        post: P,
        save: S,
    ) -> (log: Vec<Posted>)
        requires
            forall|r: &Record, e: &Event| #![trigger call_requires(post, (r, e))] call_requires(
                post,
                (r, e),
            ),
            forall|d: &DeliveryState| #![trigger call_requires(save, (d,))] call_requires(
                save,
                (d,),
            ),
        ensures
            timestamp < old(self).retry_at ==> log@.len() == 0 && delivery_view(*final(self))
                == delivery_view(*old(self)),
            timestamp >= old(self).retry_at ==> flush_run(
                delivery_view(*old(self)),
                timestamp,
                records@,
                post_outcomes(log@),
            ).0 == delivery_view(*final(self)) && flush_run(
                delivery_view(*old(self)),
                timestamp,
                records@,
                post_outcomes(log@),
            ).1 == post_indices(log@) && forall|j: int|
                0 <= j < log@.len() ==> saved_as(
                    save,
                    flush_run(delivery_view(*old(self)), timestamp, records@, post_outcomes(log@)).2[j],
                    #[trigger] log@[j].saved,
                ),
            forall|j: int|
                0 <= j < log@.len() ==> (log@[j].index as int) < records@.len() && answered(
                    post,
                    records@[log@[j].index as int],
                    launcher_version@,
                    #[trigger] log@[j].reply,
                ),
            log@.len() <= MAX_BATCH,
    {
        let ghost v_old = delivery_view(*self);
        let mut log: Vec<Posted> = Vec::new();
        if !self.begin_flush(timestamp) {
            return log;
        }
        let ghost v0 = delivery_view(*self);
        assert(v0 == flush_started(v_old, timestamp));
        let ghost ids = journal_ids(records@);
        let ghost uploads = journal_uploads(records@);
        let ghost n = records@.len() as int;
        let ghost mut saved_views: Seq<DeliveryView> = Seq::empty();
        assert(flush_continues(v0, timestamp, ids, uploads, n, post_outcomes(log@), post_indices(log@), saved_views, v0, n, 0)) by {
            assert forall|rest: Seq<((bool, u64), bool)>|
                #![trigger flush_from(v0, timestamp, ids, uploads, n, 0, rest)]
                flush_from(v0, timestamp, ids, uploads, n, 0, post_outcomes(log@) + rest) == (
                    flush_from(v0, timestamp, ids, uploads, n, 0, rest).0,
                    post_indices(log@) + flush_from(v0, timestamp, ids, uploads, n, 0, rest).1,
                    saved_views + flush_from(v0, timestamp, ids, uploads, n, 0, rest).2,
                ) by {
                let r = flush_from(v0, timestamp, ids, uploads, n, 0, rest);
                assert(post_outcomes(log@) + rest =~= rest);
                assert(post_indices(log@) + r.1 =~= r.1);
                assert(saved_views + r.2 =~= r.2);
            }
        }
        let mut attempted: usize = 0;
        let mut i: usize = records.len();
        while i > 0
            invariant
                i <= records@.len(),
                n == records@.len(),
                ids == journal_ids(records@),
                uploads == journal_uploads(records@),
                forall|r: &Record, e: &Event| #![trigger call_requires(post, (r, e))] call_requires(
                    post,
                    (r, e),
                ),
                forall|d: &DeliveryState| #![trigger call_requires(save, (d,))] call_requires(
                    save,
                    (d,),
                ),
                timestamp >= old(self).retry_at,
                v_old == delivery_view(*old(self)),
                v0 == flush_started(v_old, timestamp),
                attempted == log@.len(),
                attempted <= MAX_BATCH,
                saved_views.len() == log@.len(),
                flush_continues(
                    v0,
                    timestamp,
                    ids,
                    uploads,
                    n,
                    post_outcomes(log@),
                    post_indices(log@),
                    saved_views,
                    delivery_view(*self),
                    i as int,
                    attempted as nat,
                ),
                forall|j: int| 0 <= j < log@.len() ==> saved_as(save, saved_views[j], #[trigger] log@[j].saved),
                forall|j: int|
                    0 <= j < log@.len() ==> (log@[j].index as int) < records@.len() && answered(
                        post,
                        records@[log@[j].index as int],
                        launcher_version@,
                        #[trigger] log@[j].reply,
                    ),
            decreases i,
        {
            i -= 1;
            let record = &records[i];
            let ev = event(record, launcher_version);
            let id = owned(ev.event_id.as_str());
            assert(id@ == ids[i as int]);
            assert(record.upload == uploads[i as int]);
            let ghost cur = delivery_view(*self);
            match self.next_step(record.upload, id.as_str(), attempted) {
                FlushStep::Skip => {
                    proof {
                        lemma_flush_skip(v0, timestamp, ids, uploads, n, post_outcomes(log@), post_indices(log@), saved_views, cur, i + 1, attempted as nat);
                    }
                },
                FlushStep::Stop => {
                    proof {
                        lemma_flush_ends(v0, timestamp, ids, uploads, n, post_outcomes(log@), post_indices(log@), saved_views, cur, i + 1, attempted as nat);
                    }
                    return log;
                },
                FlushStep::Send => {
                    let reply = post(record, &ev);
                    assert(answered(post, records@[i as int], launcher_version@, reply));
                    let (success, backoff) = delivery_outcome(&reply);
                    let go_on = self.record_delivery(id, success, backoff, timestamp);
                    let saved = save(&*self);
                    let ghost after = delivery_view(*self);
                    assert(after == delivered(cur, ids[i as int], (success, backoff), timestamp));
                    assert(saved_as(save, after, saved));
                    let ghost outcome = ((success, backoff), saved);
                    let ghost before_log = log@;
                    proof {
                        lemma_flush_post(v0, timestamp, ids, uploads, n, post_outcomes(log@), post_indices(log@), saved_views, cur, i + 1, attempted as nat, outcome);
                    }
                    log.push(Posted { index: i, reply, saved });
                    attempted += 1;
                    proof {
                        assert(post_outcomes(log@) =~= post_outcomes(before_log).push(outcome));
                        assert(post_indices(log@) =~= post_indices(before_log).push(i as int));
                        saved_views = saved_views.push(after);
                        assert forall|j: int| 0 <= j < log@.len() implies saved_as(save, saved_views[j], #[trigger] log@[j].saved) by {
                            if j < before_log.len() {
                                assert(log@[j] == before_log[j]);
                            }
                        }
                        assert forall|j: int|
                            0 <= j < log@.len() implies (log@[j].index as int) < records@.len() && answered(
                                post,
                                records@[log@[j].index as int],
                                launcher_version@,
                                #[trigger] log@[j].reply,
                            ) by {
                            if j < before_log.len() {
                                assert(log@[j] == before_log[j]);
                            }
                        }
                    }
                    if !(go_on && saved) {
                        return log;
                    }
                },
            }
        }
        proof {
            lemma_flush_ends(v0, timestamp, ids, uploads, n, post_outcomes(log@), post_indices(log@), saved_views, delivery_view(*self), i as int, attempted as nat);
        }
        log
    }
}

} // verus!
