//! The chat API's data as plain values, and the decisions taken around its
//! calls: which channels to export, where to request, how to page through a
//! channel and when to retry.

use vstd::prelude::*;
use vstd::string::{StringExecFns, StringSliceAdditionalSpecFns, StrSliceExecFns};

verus! {

/// Permission bit: see the channel.
pub const VIEW_CHANNEL: u64 = 0x0000_0400;

/// Permission bit: read the channel's history.
pub const READ_MESSAGE_HISTORY: u64 = 0x0001_0000;

/// Where a page of messages starts, relative to a message id.
#[derive(Clone, Debug)]
pub enum RangeParam<T> {
    Around(T),
    Before(T),
    After(T),
}

impl<T> RangeParam<T> {
    pub open spec fn spec_value(&self) -> T {
        match self {
            RangeParam::Around(v) => *v,
            RangeParam::Before(v) => *v,
            RangeParam::After(v) => *v,
        }
    }

    /// The query parameter's name and value.
    pub fn query_pair(&self) -> (r: (&'static str, &T))
        ensures
            *r.1 == self.spec_value(),
            r.0@ == match self {
                RangeParam::Around(_) => "around"@,
                RangeParam::Before(_) => "before"@,
                RangeParam::After(_) => "after"@,
            },
    {
        match self {
            RangeParam::Around(v) => ("around", v),
            RangeParam::Before(v) => ("before", v),
            RangeParam::After(v) => ("after", v),
        }
    }
}

/// A channel of a guild.
pub struct Channel {
    pub id: String,
    pub channel_type: i32,
    pub name: String,
    pub last_message_id: Option<String>,
    pub permission_overwrites: Option<Vec<Overwrite>>,
}

/// A chat message; `timestamp` is in seconds since the Unix epoch.
pub struct Message {
    pub id: String,
    pub channel_id: String,
    pub timestamp: i64,
    pub content: String,
    pub author: Author,
}

pub struct Author {
    pub id: String,
    pub username: String,
}

/// A permission overwrite on a channel for a role or a member.
pub struct Overwrite {
    pub id: String,
    pub overwrite_type: OverwriteType,
    pub allow: u64,
    pub deny: u64,
}

pub enum OverwriteType {
    Role,
    Member,
}

/// Splits `"handle/id"` at its first `/`.
pub fn parse_guild_input(input: &str) -> (r: Option<(String, String)>)
    ensures
        (r is None) <==> !input@.contains('/'),
        r matches Some(p) ==> input@ == p.0@ + seq!['/'] + p.1@ && !p.0@.contains('/'),
{
    let n = input.unicode_len();
    let mut i: usize = 0;
    while i < n
        invariant
            n == input@.len(),
            i <= n,
            forall|j: int| 0 <= j < i ==> input@[j] != '/',
        decreases n - i,
    {
        if input.get_char(i) == '/' {
            let head = input.substring_char(0, i);
            let tail = input.substring_char(i + 1, n);
            assert(input@ =~= head@ + seq!['/'] + tail@);
            assert(!head@.contains('/')) by {
                if head@.contains('/') {
                    let j = choose|j: int| 0 <= j < head@.len() && head@[j] == '/';
                    assert(input@[j] == '/');
                }
            }
            return Some((String::from_str(head), String::from_str(tail)));
        }
        i = i + 1;
    }
    None
}

/// The permission bits whose denial to everyone hides a channel.
pub open spec fn hiding_bits() -> u64 {
    READ_MESSAGE_HISTORY | VIEW_CHANNEL
}

/// Whether `o` denies everyone in guild `guild_id` reading the channel.
pub open spec fn hides(o: Overwrite, guild_id: Seq<char>) -> bool {
    o.id@ == guild_id && o.deny & hiding_bits() != 0
}

/// Whether a channel is exported: it is a text channel and, unless every
/// channel is asked for, no overwrite hides it from everyone.
pub open spec fn exported(c: Channel, guild_id: Seq<char>, dump_all: bool) -> bool {
    c.channel_type == 0 && (dump_all || match c.permission_overwrites {
        Some(os) => none_hides(os@, guild_id),
        None => true,
    })
}

/// Whether none of `os` hides a channel from everyone in guild `guild_id`.
pub open spec fn none_hides(os: Seq<Overwrite>, guild_id: Seq<char>) -> bool {
    forall|i: int| 0 <= i < os.len() ==> !hides(#[trigger] os[i], guild_id)
}

/// Decides whether a channel is exported.
pub fn is_exported(channel: &Channel, guild_id: &String, dump_all: bool) -> (r: bool)
    ensures
        r == exported(*channel, guild_id@, dump_all),
{
    if channel.channel_type != 0 {
        return false;
    }
    if dump_all {
        return true;
    }
    match &channel.permission_overwrites {
        None => true,
        Some(os) => {
            let mask: u64 = READ_MESSAGE_HISTORY | VIEW_CHANNEL;
            let mut i: usize = 0;
            while i < os.len()
                invariant
                    i <= os@.len(),
                    mask == hiding_bits(),
                    channel.permission_overwrites == Some(*os),
                    channel.channel_type == 0,
                    !dump_all,
                    forall|j: int| 0 <= j < i ==> !hides(#[trigger] os@[j], guild_id@),
                decreases os@.len() - i,
            {
                if os[i].id == *guild_id && os[i].deny & mask != 0 {
                    assert(hides(os@[i as int], guild_id@));
                    return false;
                }
                i = i + 1;
            }
            true
        },
    }
}

pub open spec fn is_alphanumeric(b: u8) -> bool {
    (48 <= b <= 57) || (65 <= b <= 90) || (97 <= b <= 122)
}

pub open spec fn hex_digit(n: u8) -> char {
    if n < 10 {
        (48 + n) as char
    } else {
        (55 + n) as char
    }
}

/// One byte in a URL path segment: ASCII letters and digits stand as they
/// are, every other byte becomes `%` and two upper-case hex digits.
pub open spec fn escaped_byte(b: u8) -> Seq<char> {
    if is_alphanumeric(b) {
        seq![b as char]
    } else {
        seq!['%', hex_digit(b / 16), hex_digit(b % 16)]
    }
}

pub open spec fn escaped(bs: Seq<u8>) -> Seq<char>
    decreases bs.len(),
{
    if bs.len() == 0 {
        seq![]
    } else {
        escaped_byte(bs[0]) + escaped(bs.drop_first())
    }
}

/// Relies on percent_encoding::utf8_percent_encode with NON_ALPHANUMERIC,
/// which escapes each byte of the UTF-8 encoding that is not an ASCII letter
/// or digit as `%XX` in upper-case hex.
#[verifier::external_body]
fn url_escape(segment: &str) -> (r: String)
    ensures
        r@ == escaped(segment.spec_bytes()),
{
    percent_encoding::utf8_percent_encode(segment, percent_encoding::NON_ALPHANUMERIC).to_string()
}

/// The endpoint that lists a guild's channels.
pub fn guild_channels_url(guild_id: &str) -> (r: String)
    ensures
        r@ == "https://discordapp.com/api/v6/guilds/"@ + escaped(guild_id.spec_bytes())
            + "/channels"@,
{
    let base = String::from_str("https://discordapp.com/api/v6/guilds/");
    let id = url_escape(guild_id);
    base.concat(id.as_str()).concat("/channels")
}

/// The endpoint that pages through a channel's messages.
pub fn channel_messages_url(channel_id: &str) -> (r: String)
    ensures
        r@ == "https://discordapp.com/api/v6/channels/"@ + escaped(channel_id.spec_bytes())
            + "/messages"@,
{
    let base = String::from_str("https://discordapp.com/api/v6/channels/");
    let id = url_escape(channel_id);
    base.concat(id.as_str()).concat("/messages")
}

/// A page as the API returns it, newest first, turned into reading order;
/// with the cursor for the next page, just after its newest message. `None`
/// when the page is empty: the end of the channel is reached.
pub fn next_page(page: Vec<Message>) -> (r: Option<(Vec<Message>, RangeParam<String>)>)
    ensures
        (r is None) <==> page@.len() == 0,
        r matches Some(p) ==> p.0@ == page@.reverse(),
        r matches Some(p) ==> (p.1 matches RangeParam::After(id) && id@ == page@[0].id@),
{
    if page.len() == 0 {
        return None;
    }
    let ghost orig = page@;
    let mut rest = page;
    let mut out: Vec<Message> = Vec::new();
    while rest.len() > 0
        invariant
            orig.reverse() == out@ + rest@.reverse(),
            rest@ == orig.take(rest@.len() as int),
            rest@.len() <= orig.len(),
            orig.len() > 0,
            rest@.len() == 0 ==> out@.len() > 0,
        decreases rest@.len(),
    {
        let ghost before = rest@;
        let m = rest.pop().unwrap();
        assert(before.reverse() =~= seq![m] + rest@.reverse());
        assert(rest@ =~= orig.take(rest@.len() as int));
        out.push(m);
        assert(orig.reverse() =~= out@ + rest@.reverse());
    }
    assert(out@ =~= orig.reverse());
    assert(out@[out@.len() - 1] == orig[0]);
    let last = out.len() - 1;
    let cursor = out[last].id.clone();
    Some((out, RangeParam::After(cursor)))
}

/// The next polling round of a channel: every round but the first waits
/// first, and a round starts just after the last message seen, or where the
/// previous one started if none was seen.
pub fn next_round(start: &RangeParam<String>, last_seen: Option<&String>, first: bool) -> (r: (
    bool,
    RangeParam<String>,
))
    ensures
        r.0 == !first,
        last_seen matches Some(id) ==> (r.1 matches RangeParam::After(x) && x@ == id@),
        (last_seen is None) ==> r.1 == *start,
{
    let pos = match last_seen {
        Some(id) => RangeParam::After(id.clone()),
        None => match start {
            RangeParam::Around(v) => RangeParam::Around(v.clone()),
            RangeParam::Before(v) => RangeParam::Before(v.clone()),
            RangeParam::After(v) => RangeParam::After(v.clone()),
        },
    };
    (!first, pos)
}

/// The minute bucket of a message: whole minutes since the epoch, rounded
/// toward zero.
pub fn minute_of(timestamp: i64) -> (r: i64)
    ensures
        timestamp >= 0 ==> r == timestamp / 60,
        timestamp < 0 ==> r == -((-timestamp) / 60),
{
    timestamp / 60
}

pub open spec fn is_digit(c: char) -> bool {
    '0' <= c <= '9'
}

pub open spec fn all_digits(s: Seq<char>) -> bool {
    forall|i: int| 0 <= i < s.len() ==> is_digit(#[trigger] s[i])
}

/// The number a string of decimal digits denotes.
pub open spec fn digits_value(s: Seq<char>) -> nat
    decreases s.len(),
{
    if s.len() == 0 {
        0
    } else {
        digits_value(s.drop_last()) * 10 + ((s.last() as u32) - 48) as nat
    }
}

/// The digits of an unsigned number, after an optional leading `+`.
pub open spec fn unsigned_digits(s: Seq<char>) -> Seq<char> {
    if s.len() > 0 && s[0] == '+' {
        s.drop_first()
    } else {
        s
    }
}

/// Whether `s` is an unsigned decimal number that fits in a `u64`.
pub open spec fn parses_as_u64(s: Seq<char>) -> bool {
    let d = unsigned_digits(s);
    d.len() > 0 && all_digits(d) && digits_value(d) <= u64::MAX
}

proof fn lemma_digits_prefix(d: Seq<char>, k: int)
    requires
        all_digits(d),
        0 <= k <= d.len(),
    ensures
        digits_value(d.take(k)) <= digits_value(d),
    decreases d.len(),
{
    if k < d.len() {
        let e = d.drop_last();
        assert(e.take(k) =~= d.take(k));
        lemma_digits_prefix(e, k);
    } else {
        assert(d.take(k) =~= d);
    }
}

/// Reads the rate-limit reset header: an unsigned decimal number, with an
/// optional leading `+`, as Rust's `u64` parsing accepts it.
pub fn parse_reset(s: &str) -> (r: Option<u64>)
    ensures
        (r is Some) <==> parses_as_u64(s@),
        r matches Some(v) ==> v == digits_value(unsigned_digits(s@)),
{
    let n = s.unicode_len();
    let start: usize = if n > 0 && s.get_char(0) == '+' { 1 } else { 0 };
    let ghost d = unsigned_digits(s@);
    assert(d =~= s@.skip(start as int));
    if start == n {
        return None;
    }
    let mut v: u64 = 0;
    let mut i: usize = start;
    assert(d.take(0) =~= Seq::<char>::empty());
    while i < n
        invariant
            n == s@.len(),
            start <= i <= n,
            d == s@.skip(start as int),
            d == unsigned_digits(s@),
            all_digits(d.take(i - start)),
            v as nat == digits_value(d.take(i - start)),
        decreases n - i,
    {
        let c = s.get_char(i);
        let ghost j = i - start;
        assert(d[j] == c);
        if !('0' <= c && c <= '9') {
            assert(!is_digit(d[j]));
            return None;
        }
        let digit: u64 = (c as u32 - 48) as u64;
        assert(d.take(j + 1).drop_last() =~= d.take(j));
        assert(d.take(j + 1).last() == c);
        assert(all_digits(d.take(j + 1))) by {
            assert forall|k: int| 0 <= k < j + 1 implies is_digit(#[trigger] d.take(j + 1)[k]) by {
                if k < j {
                    assert(d.take(j + 1)[k] == d.take(j)[k]);
                }
            }
        }
        assert(digits_value(d.take(j + 1)) == v * 10 + digit);
        match v.checked_mul(10) {
            None => {
                proof {
                    if all_digits(d) {
                        lemma_digits_prefix(d, j + 1);
                    }
                }
                return None;
            },
            Some(m) => match m.checked_add(digit) {
                None => {
                    proof {
                        if all_digits(d) {
                            lemma_digits_prefix(d, j + 1);
                        }
                    }
                    return None;
                },
                Some(w) => {
                    v = w;
                },
            },
        }
        i = i + 1;
    }
    assert(d.take(n - start) =~= d);
    Some(v)
}

/// How one request ended.
pub enum Attempt {
    /// A successful response.
    Success,
    /// Too many requests; the `X-RateLimit-Reset` header, if it held a
    /// number, in seconds since the epoch.
    RateLimited { reset: Option<u64> },
    /// Any other failure.
    Failed,
}

/// What to do after a request.
#[derive(Debug, PartialEq, Eq)]
pub enum RetryAction {
    /// Hand the response back.
    Return,
    /// Wait this many milliseconds, then send the request again.
    Retry { wait_ms: u64 },
    /// Every attempt failed: hand the last error back.
    GiveUp,
}

/// Retries a request up to `max_retries` times in all, waiting a default
/// delay between attempts or, once rate limited, until the announced reset.
pub struct RetryPolicy {
    max_retries: i32,
    default_delay_ms: u64,
    attempts: i32,
    deadline_ms: Option<u64>,
}

/// The deadline a rate-limited response sets: the reset time, if it is known,
/// representable in milliseconds and not in the past.
pub open spec fn reset_deadline(reset: Option<u64>, now_ms: u64) -> Option<u64> {
    match reset {
        Some(s) => if s * 1000 <= u64::MAX && s * 1000 >= now_ms {
            Some((s * 1000) as u64)
        } else {
            None
        },
        None => None,
    }
}

/// How long to wait before the next attempt: until the deadline if one is
/// set (at once if it has passed), else the default delay.
pub open spec fn retry_wait(deadline: Option<u64>, default_ms: u64, now_ms: u64) -> u64 {
    match deadline {
        Some(d) => if d >= now_ms {
            (d - now_ms) as u64
        } else {
            0
        },
        None => default_ms,
    }
}

impl RetryPolicy {
    pub closed spec fn max_tries(&self) -> int {
        self.max_retries as int
    }

    pub closed spec fn default_delay(&self) -> u64 {
        self.default_delay_ms
    }

    /// How many attempts are made at most.
    pub fn max_retries(&self) -> (r: i32)
        ensures
            r == self.max_tries(),
    {
        self.max_retries
    }

    /// The wait between attempts when no deadline is set.
    pub fn default_delay_ms(&self) -> (r: u64)
        ensures
            r == self.default_delay(),
    {
        self.default_delay_ms
    }

    pub closed spec fn attempts(&self) -> int {
        self.attempts as int
    }

    pub closed spec fn deadline(&self) -> Option<u64> {
        self.deadline_ms
    }

    pub closed spec fn wf(&self) -> bool {
        0 <= self.attempts < self.max_retries
    }

    /// A fresh policy; at least one attempt is made.
    pub fn new(max_retries: i32, default_delay_ms: u64) -> (r: RetryPolicy)
        requires
            max_retries > 0,
        ensures
            r.wf(),
            r.max_tries() == max_retries,
            r.default_delay() == default_delay_ms,
            r.attempts() == 0,
            r.deadline() is None,
    {
        RetryPolicy { max_retries, default_delay_ms, attempts: 0, deadline_ms: None }
    }

    /// Fifty attempts, one second apart.
    pub fn standard() -> (r: RetryPolicy)
        ensures
            r.wf(),
            r.max_tries() == 50,
            r.default_delay() == 1000,
            r.attempts() == 0,
            r.deadline() is None,
    {
        RetryPolicy::new(50, 1000)
    }

    /// Decides what follows a request that ended with `outcome` at `now_ms`
    /// (milliseconds since the epoch). A rate-limited response replaces the
    /// deadline; other failures keep it.
    pub fn on_outcome(&mut self, outcome: Attempt, now_ms: u64) -> (r: RetryAction)
        requires
            old(self).wf(),
        ensures
            final(self).max_tries() == old(self).max_tries(),
            final(self).default_delay() == old(self).default_delay(),
            (outcome is Success) ==> r == RetryAction::Return && *final(self) == *old(self),
            !(outcome is Success) ==> final(self).attempts() == old(self).attempts() + 1,
            outcome matches Attempt::RateLimited { reset } ==> final(self).deadline()
                == reset_deadline(reset, now_ms),
            (outcome is Failed) ==> final(self).deadline() == old(self).deadline(),
            !(outcome is Success) && final(self).attempts() >= final(self).max_tries() ==> r
                == RetryAction::GiveUp,
            !(outcome is Success) && final(self).attempts() < final(self).max_tries() ==> final(self).wf(),
            !(outcome is Success) && final(self).attempts() < final(self).max_tries() ==> r == (RetryAction::Retry {
                wait_ms: retry_wait(final(self).deadline(), final(self).default_delay(), now_ms),
            }),
    {
        match outcome {
            Attempt::Success => {
                return RetryAction::Return;
            },
            Attempt::RateLimited { reset } => {
                self.deadline_ms = match reset {
                    Some(s) => match s.checked_mul(1000) {
                        Some(ms) => if ms >= now_ms {
                            Some(ms)
                        } else {
                            None
                        },
                        None => None,
                    },
                    None => None,
                };
            },
            Attempt::Failed => {},
        }
        self.attempts = self.attempts + 1;
        if self.attempts >= self.max_retries {
            return RetryAction::GiveUp;
        }
        let wait_ms = match self.deadline_ms {
            Some(d) => d.saturating_sub(now_ms),
            None => self.default_delay_ms,
        };
        RetryAction::Retry { wait_ms }
    }
}

} // verus!
