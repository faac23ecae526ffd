//! Outbound webhooks for `trigger` actions: which hook an event goes to, how
//! a delivery is signed, and when it is retried or dead-lettered.
use vstd::prelude::*;
use vstd::utf8::encode_utf8;
use crate::auth::{hex_text, hmac_sha256_tag, hmac_sign};
use crate::text::{owned, push_str, str_eq};

verus! {

/// One entry of the `webhooks:` section of the server configuration.
#[derive(Debug, Clone)]
pub struct WebhookConfig {
    pub event: String,
    pub url: String,
    pub secret: Option<String>,
    /// Requested number of retries; at most three are made.
    pub max_retries: u32,
}

/// Retries requested when a hook says nothing.
pub fn default_retries() -> (r: u32)
    ensures
        r == 3,
{
    3
}

/// Index of the hook an event goes to: the last one registered for it.
pub open spec fn hook_index(hooks: Seq<WebhookConfig>, event: Seq<char>) -> Option<int>
    decreases hooks.len(),
{
    if hooks.len() == 0 {
        None
    } else if hooks.last().event@ == event {
        Some(hooks.len() - 1)
    } else {
        hook_index(hooks.drop_last(), event)
    }
}

/// The hook registered for `event`; when several are, the last one.
pub fn find_hook(hooks: &Vec<WebhookConfig>, event: &str) -> (r: Option<usize>)
    ensures
        match r {
            Some(i) => hook_index(hooks@, event@) == Some(i as int),
            None => hook_index(hooks@, event@) is None,
        },
{
    let mut i: usize = hooks.len();
    assert(hooks@.take(i as int) =~= hooks@);
    while i > 0
        invariant
            i <= hooks@.len(),
            hook_index(hooks@, event@) == hook_index(hooks@.take(i as int), event@),
        decreases i,
    {
        let j = i - 1;
        assert(hooks@.take(i as int).drop_last() =~= hooks@.take(j as int));
        assert(hooks@.take(i as int).last() == hooks@[j as int]);
        if str_eq(hooks[j].event.as_str(), event) {
            return Some(j);
        }
        i = j;
    }
    None
}

/// Retries made for a hook: its request, capped at three.
pub open spec fn retry_cap(max_retries: u32) -> u32 {
    if max_retries < 3 {
        max_retries
    } else {
        3
    }
}

/// Seconds to wait after failed attempt `attempt` (0-based): 1, 4, 16.
pub open spec fn backoff_secs(attempt: u32) -> u64 {
    if attempt == 0 {
        1
    } else if attempt == 1 {
        4
    } else {
        16
    }
}

/// What a dispatcher does after an attempt.
#[derive(Debug, Clone, Copy, PartialEq, Eq, Structural)]
pub enum RetryAction {
    /// The hook answered with success: stop.
    Delivered,
    /// Wait this many seconds, then make the next attempt.
    RetryAfter(u64),
    /// Every attempt failed: write the delivery to the dead-letter store.
    DeadLetter,
}

/// The decision after attempt `attempt` (0-based) of a hook allowing
/// `max_retries` retries, given whether it succeeded.
pub open spec fn retry_decision(max_retries: u32, attempt: u32, success: bool) -> RetryAction {
    if success {
        RetryAction::Delivered
    } else if attempt < retry_cap(max_retries) {
        RetryAction::RetryAfter(backoff_secs(attempt))
    } else {
        RetryAction::DeadLetter
    }
}

/// Decides what follows an attempt: stop on success, otherwise retry after
/// 1, 4 and 16 seconds while fewer than `min(max_retries, 3)` retries were
/// made, then dead-letter.
pub fn next_after_attempt(max_retries: u32, attempt: u32, success: bool) -> (r: RetryAction)
    requires
        attempt <= retry_cap(max_retries),
    ensures
        r == retry_decision(max_retries, attempt, success),
{
    let cap = if max_retries < 3 {
        max_retries
    } else {
        3
    };
    if success {
        RetryAction::Delivered
    } else if attempt < cap {
        let d: u64 = if attempt == 0 {
            1
        } else if attempt == 1 {
            4
        } else {
            16
        };
        RetryAction::RetryAfter(d)
    } else {
        RetryAction::DeadLetter
    }
}

/// A response status is a success (`StatusCode::is_success`: 200 to 299).
pub fn is_success_status(status: u16) -> (r: bool)
    ensures
        r == (200 <= status <= 299),
{
    200 <= status && status <= 299
}

/// The `X-Axiom-Signature` header value of a body signed with `secret`.
pub fn signature_header(secret: &str, body: &str) -> (r: String)
    ensures
        r@ == "sha256="@ + hex_text(hmac_sha256_tag(encode_utf8(secret@), encode_utf8(body@))),
{
    let mut out = owned("sha256=");
    let sig = hmac_sign(secret, body);
    push_str(&mut out, sig.as_str());
    out
}

/// Name of the dead-letter file of an event, given a unique id.
pub fn dead_letter_file_name(event: &str, unique: &str) -> (r: String)
    ensures
        r@ == event@ + "-"@ + unique@ + ".json"@,
{
    let mut out = owned(event);
    push_str(&mut out, "-");
    push_str(&mut out, unique);
    push_str(&mut out, ".json");
    out
}

/// Where failed deliveries go when the configuration names no place.
pub fn default_dead_letter_dir() -> (r: String)
    ensures
        r@ == "/data/dead-letter"@,
{
    owned("/data/dead-letter")
}

/// The dead-letter directory: the configured one, or the default.
pub fn dead_letter_dir(configured: &Option<String>) -> (r: String)
    ensures
        match configured {
            Some(p) => r@ == p@,
            None => r@ == "/data/dead-letter"@,
        },
{
    match configured {
        Some(p) => p.clone(),
        None => default_dead_letter_dir(),
    }
}

} // verus!
