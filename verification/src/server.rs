//! Decisions of the HTTP server that do not depend on the network: who a
//! key authenticates as, which rules a listing keeps, key ids and hashes,
//! version numbering, and request limits.
use vstd::prelude::*;
use vstd::utf8::encode_utf8;
use crate::auth::{
    hash_key, hex_text, key_matches, role_named, sha256_digest, verify_key, Identity, Role,
};
use crate::config::ConfigKey;
use crate::schema::{Rule, Strategy};
use crate::text::{
    chars_of, compare_chars, lemma_lex_order_antisym, lemma_lex_order_equal, lex_order, Ord3,
};
use crate::text::{nat_text, owned, push_nat, push_str, str_eq, string_from_chars, slice_to_vec_range};
use crate::trace::string_views;

verus! {

// ---------------------------------------------------------------------------
// Authentication
// ---------------------------------------------------------------------------

/// The identity a plaintext key authenticates as: the first configured key
/// whose hash it matches decides; when that key's role is not a known role,
/// nobody.
pub open spec fn identity_of(keys: Seq<ConfigKey>, plaintext: Seq<char>) -> Option<(Seq<char>, Role)>
    decreases keys.len(),
{
    if keys.len() == 0 {
        None
    } else if key_matches(plaintext, keys[0].hash@) {
        match role_named(keys[0].role@) {
            Some(role) => Some((keys[0].id@, role)),
            None => None,
        }
    } else {
        identity_of(keys.drop_first(), plaintext)
    }
}

/// Authenticates a plaintext API key against the configured keys.
pub fn authenticate(keys: &Vec<ConfigKey>, plaintext: &str) -> (r: Option<Identity>)
    ensures
        match identity_of(keys@, plaintext@) {
            Some((id, role)) => r matches Some(x) && x.key_id@ == id && x.role == role,
            None => r is None,
        },
{
    let mut i: usize = 0;
    assert(keys@.skip(0) =~= keys@);
    while i < keys.len()
        invariant
            i <= keys@.len(),
            identity_of(keys@, plaintext@) == identity_of(keys@.skip(i as int), plaintext@),
        decreases keys@.len() - i,
    {
        assert(keys@.skip(i as int)[0] == keys@[i as int]);
        assert(keys@.skip(i as int).drop_first() =~= keys@.skip(i + 1));
        if verify_key(plaintext, keys[i].hash.as_str()) {
            return match Role::from_str(keys[i].role.as_str()) {
                Some(role) => Some(Identity { key_id: owned(keys[i].id.as_str()), role }),
                None => None,
            };
        }
        i = i + 1;
    }
    None
}

/// The identity a plaintext key authenticates as when the store may hold
/// keys created through the API: the first configured key whose hash it
/// matches decides; when none matches, the active stored key under the
/// key's stored hash (`stored`: its id and role), if any.
pub open spec fn identity_with_stored(
    keys: Seq<ConfigKey>,
    plaintext: Seq<char>,
    stored: Option<(Seq<char>, Seq<char>)>,
) -> Option<(Seq<char>, Role)>
    decreases keys.len(),
{
    if keys.len() == 0 {
        match stored {
            Some((id, role)) => match role_named(role) {
                Some(r) => Some((id, r)),
                None => None,
            },
            None => None,
        }
    } else if key_matches(plaintext, keys[0].hash@) {
        match role_named(keys[0].role@) {
            Some(role) => Some((keys[0].id@, role)),
            None => None,
        }
    } else {
        identity_with_stored(keys.drop_first(), plaintext, stored)
    }
}

/// Authenticates a plaintext API key against the configured keys, then
/// against the key stored through the API: `stored` is the id and role of
/// the active stored key whose stored hash is `stored_hash_for(plaintext)`,
/// as the store reports it.
pub fn authenticate_with_store(keys: &Vec<ConfigKey>, plaintext: &str, stored: Option<(String, String)>) -> (r:
    Option<Identity>)
    ensures
        match identity_with_stored(
            keys@,
            plaintext@,
            match stored {
                Some(p) => Some((p.0@, p.1@)),
                None => None,
            },
        ) {
            Some((id, role)) => r matches Some(x) && x.key_id@ == id && x.role == role,
            None => r is None,
        },
{
    let ghost sv: Option<(Seq<char>, Seq<char>)> = match stored {
        Some(ref p) => Some((p.0@, p.1@)),
        None => None,
    };
    let mut i: usize = 0;
    assert(keys@.skip(0) =~= keys@);
    while i < keys.len()
        invariant
            i <= keys@.len(),
            sv == (match stored {
                Some(p) => Some((p.0@, p.1@)),
                None => None,
            }),
            identity_with_stored(keys@, plaintext@, sv) == identity_with_stored(keys@.skip(i as int), plaintext@, sv),
        decreases keys@.len() - i,
    {
        assert(keys@.skip(i as int)[0] == keys@[i as int]);
        assert(keys@.skip(i as int).drop_first() =~= keys@.skip(i + 1));
        if verify_key(plaintext, keys[i].hash.as_str()) {
            return match Role::from_str(keys[i].role.as_str()) {
                Some(role) => Some(Identity { key_id: owned(keys[i].id.as_str()), role }),
                None => None,
            };
        }
        i = i + 1;
    }
    assert(keys@.skip(i as int).len() == 0);
    match stored {
        Some((id, role)) => match Role::from_str(role.as_str()) {
            Some(r) => Some(Identity { key_id: id, role: r }),
            None => None,
        },
        None => None,
    }
}

/// Paths served without a key.
pub open spec fn public_path(path: Seq<char>) -> bool {
    path == "/health"@ || path == "/ready"@ || path == "/metrics"@
}

/// Whether a request path is served without authentication.
pub fn is_public_path(path: &str) -> (r: bool)
    ensures
        r == public_path(path@),
{
    str_eq(path, "/health") || str_eq(path, "/ready") || str_eq(path, "/metrics")
}

// ---------------------------------------------------------------------------
// Key management
// ---------------------------------------------------------------------------

/// Body of a key-creation request.
#[derive(Debug)]
pub struct CreateKeyRequest {
    pub role: String,
    pub description: Option<String>,
}

impl CreateKeyRequest {
    /// The requested role is one of `admin`, `editor`, `viewer`.
    pub fn has_valid_role(&self) -> (r: bool)
        ensures
            r == (role_named(self.role@) is Some),
    {
        Role::from_str(self.role.as_str()).is_some()
    }
}

/// The stored form of a key: `"sha256:" + hex(SHA-256(plaintext))`.
pub fn stored_hash_for(plaintext: &str) -> (r: String)
    ensures
        r@ == "sha256:"@ + hex_text(sha256_digest(encode_utf8(plaintext@))),
{
    let mut out = owned("sha256:");
    let h = hash_key(plaintext);
    push_str(&mut out, h.as_str());
    out
}

/// The id of a created key: `"key-"` and the first eight characters of the
/// (hexadecimal) plaintext.
pub fn key_id_for(plaintext: &str) -> (r: String)
    requires
        plaintext@.len() >= 8,
    ensures
        r@ == "key-"@ + plaintext@.take(8),
{
    let cs = chars_of(plaintext);
    let head = string_from_chars(slice_to_vec_range(cs.as_slice(), 0, 8).as_slice());
    let mut out = owned("key-");
    push_str(&mut out, head.as_str());
    assert(cs@.subrange(0, 8) =~= plaintext@.take(8));
    out
}

/// One stored API key as the store lists it: its id and role when present,
/// and whether it was revoked.
#[derive(Debug)]
pub struct StoredKey {
    pub id: Option<String>,
    pub role: Option<String>,
    pub revoked: bool,
}

/// A stored key that remains an active admin once `revoking` is revoked.
pub open spec fn other_active_admin(k: StoredKey, revoking: Seq<char>) -> bool {
    &&& k.role matches Some(r) && r@ == "admin"@
    &&& !k.revoked
    &&& !(k.id matches Some(i) && i@ == revoking)
}

/// Number of configured keys with role `admin`.
pub open spec fn config_admins(keys: Seq<ConfigKey>) -> nat
    decreases keys.len(),
{
    if keys.len() == 0 {
        0
    } else {
        config_admins(keys.drop_last()) + if keys.last().role@ == "admin"@ {
            1nat
        } else {
            0nat
        }
    }
}

/// Number of stored keys that stay active admins after revoking `revoking`.
pub open spec fn stored_admins(keys: Seq<StoredKey>, revoking: Seq<char>) -> nat
    decreases keys.len(),
{
    if keys.len() == 0 {
        0
    } else {
        stored_admins(keys.drop_last(), revoking) + if other_active_admin(keys.last(), revoking) {
            1nat
        } else {
            0nat
        }
    }
}

/// Refuses a request to revoke the key that makes it: an admin may revoke
/// any key but its own.
pub fn guard_self_revocation(requester: &str, revoking: &str) -> (r: Result<(), String>)
    ensures
        match r {
            Ok(()) => requester@ != revoking@,
            Err(m) => requester@ == revoking@ && m@ == "cannot revoke your own key"@,
        },
{
    if str_eq(requester, revoking) {
        Err(owned("cannot revoke your own key"))
    } else {
        Ok(())
    }
}

/// Refuses to revoke the last admin key: some configured admin key, or some
/// other active stored admin key, must remain.
pub fn guard_last_admin(config_keys: &Vec<ConfigKey>, stored: &Vec<StoredKey>, revoking: &str) -> (r: Result<(), String>)
    ensures
        match r {
            Ok(()) => config_admins(config_keys@) + stored_admins(stored@, revoking@) > 0,
            Err(m) => config_admins(config_keys@) + stored_admins(stored@, revoking@) == 0 && m@
                == "cannot revoke the last admin key"@,
        },
{
    let mut i: usize = 0;
    assert(config_keys@.take(0) =~= Seq::<ConfigKey>::empty());
    while i < config_keys.len()
        invariant
            i <= config_keys@.len(),
            config_admins(config_keys@.take(i as int)) == 0,
        decreases config_keys@.len() - i,
    {
        assert(config_keys@.take(i + 1).drop_last() =~= config_keys@.take(i as int));
        if str_eq(config_keys[i].role.as_str(), "admin") {
            proof {
                lemma_config_admins_prefix(config_keys@, i + 1);
            }
            return Ok(());
        }
        i = i + 1;
    }
    assert(config_keys@.take(i as int) =~= config_keys@);
    let mut j: usize = 0;
    assert(stored@.take(0) =~= Seq::<StoredKey>::empty());
    while j < stored.len()
        invariant
            j <= stored@.len(),
            config_admins(config_keys@) == 0,
            stored_admins(stored@.take(j as int), revoking@) == 0,
        decreases stored@.len() - j,
    {
        assert(stored@.take(j + 1).drop_last() =~= stored@.take(j as int));
        let k = &stored[j];
        let admin = match &k.role {
            Some(r) => str_eq(r.as_str(), "admin"),
            None => false,
        };
        let other = match &k.id {
            Some(x) => !str_eq(x.as_str(), revoking),
            None => true,
        };
        if admin && !k.revoked && other {
            proof {
                lemma_stored_admins_prefix(stored@, revoking@, j + 1);
            }
            return Ok(());
        }
        j = j + 1;
    }
    assert(stored@.take(j as int) =~= stored@);
    Err(owned("cannot revoke the last admin key"))
}

proof fn lemma_config_admins_prefix(keys: Seq<ConfigKey>, k: int)
    requires
        0 <= k <= keys.len(),
    ensures
        config_admins(keys.take(k)) <= config_admins(keys),
    decreases keys.len() - k,
{
    if k < keys.len() {
        assert(keys.take(k + 1).drop_last() =~= keys.take(k));
        lemma_config_admins_prefix(keys, k + 1);
    } else {
        assert(keys.take(k) =~= keys);
    }
}

proof fn lemma_stored_admins_prefix(keys: Seq<StoredKey>, revoking: Seq<char>, k: int)
    requires
        0 <= k <= keys.len(),
    ensures
        stored_admins(keys.take(k), revoking) <= stored_admins(keys, revoking),
    decreases keys.len() - k,
{
    if k < keys.len() {
        assert(keys.take(k + 1).drop_last() =~= keys.take(k));
        lemma_stored_admins_prefix(keys, revoking, k + 1);
    } else {
        assert(keys.take(k) =~= keys);
    }
}

/// Whether `key_id` names a configured key (those cannot be revoked through
/// the API).
pub fn is_config_key(config_keys: &Vec<ConfigKey>, key_id: &str) -> (r: bool)
    ensures
        r == exists|i: int| 0 <= i < config_keys@.len() && config_keys@[i].id@ == key_id@,
{
    let mut i: usize = 0;
    while i < config_keys.len()
        invariant
            i <= config_keys@.len(),
            forall|j: int| 0 <= j < i ==> config_keys@[j].id@ != key_id@,
        decreases config_keys@.len() - i,
    {
        if str_eq(config_keys[i].id.as_str(), key_id) {
            return true;
        }
        i = i + 1;
    }
    false
}

// ---------------------------------------------------------------------------
// Rules
// ---------------------------------------------------------------------------

/// Query parameters of a rule listing.
#[derive(Debug)]
pub struct RuleListQuery {
    pub tag: Option<String>,
    pub enabled: Option<bool>,
    pub ruleset: Option<String>,
}

/// A filter of stored rules: by tag and by enabled state.
#[derive(Debug)]
pub struct StoreFilter {
    pub tag: Option<String>,
    pub enabled: Option<bool>,
}

impl RuleListQuery {
    /// The store filter of a listing: its tag and enabled state.
    pub fn store_filter(&self) -> (r: StoreFilter)
        ensures
            match (r.tag, self.tag) {
                (Some(a), Some(b)) => a@ == b@,
                (None, None) => true,
                _ => false,
            },
            r.enabled == self.enabled,
    {
        let tag = match &self.tag {
            Some(t) => Some(owned(t.as_str())),
            None => None,
        };
        StoreFilter { tag, enabled: self.enabled }
    }
}

impl StoreFilter {
    /// The filter lets `rule` through: its enabled state matches, and it
    /// carries the tag.
    pub open spec fn admits(&self, rule: Rule) -> bool {
        &&& match self.enabled {
            Some(e) => rule.enabled == e,
            None => true,
        }
        &&& match &self.tag {
            Some(t) => string_views(rule.tags@).contains(t@),
            None => true,
        }
    }

    /// Whether the filter lets `rule` through.
    pub fn matches(&self, rule: &Rule) -> (r: bool)
        ensures
            r == self.admits(*rule),
    {
        match self.enabled {
            Some(e) => {
                if rule.enabled != e {
                    return false;
                }
            },
            None => {},
        }
        match &self.tag {
            Some(t) => tags_contain(&rule.tags, t.as_str()),
            None => true,
        }
    }
}

/// Whether a tag list contains `t`.
pub fn tags_contain(tags: &Vec<String>, t: &str) -> (r: bool)
    ensures
        r == string_views(tags@).contains(t@),
{
    let mut i: usize = 0;
    while i < tags.len()
        invariant
            i <= tags@.len(),
            forall|j: int| 0 <= j < i ==> tags@[j]@ != t@,
        decreases tags@.len() - i,
    {
        if str_eq(tags[i].as_str(), t) {
            proof {
                assert(string_views(tags@)[i as int] == t@);
            }
            return true;
        }
        i = i + 1;
    }
    proof {
        let sv = string_views(tags@);
        assert forall|j: int| 0 <= j < sv.len() implies sv[j] != t@ by {
            assert(sv[j] == tags@[j]@);
        }
    }
    false
}

/// The version a replaced rule gets: one more than its last stored version,
/// or than `fallback` when none is stored.
pub open spec fn next_version_spec(versions: Seq<u32>, fallback: u32) -> int {
    if versions.len() == 0 {
        fallback + 1
    } else {
        versions.last() + 1
    }
}

/// One more than the last stored version, or than `fallback` when none is
/// stored.
pub fn next_version(versions: &Vec<u32>, fallback: u32) -> (r: u32)
    requires
        next_version_spec(versions@, fallback) <= u32::MAX,
    ensures
        r == next_version_spec(versions@, fallback),
{
    if versions.len() == 0 {
        fallback + 1
    } else {
        versions[versions.len() - 1] + 1
    }
}

// ---------------------------------------------------------------------------
// Evaluation requests
// ---------------------------------------------------------------------------

/// The most contexts one batch request may hold.
pub const MAX_BATCH: usize = 1000;

/// A batch of `n` contexts is accepted: at most 1,000.
pub fn batch_size_ok(n: usize) -> (r: bool)
    ensures
        r == (n <= 1000),
{
    n <= MAX_BATCH
}

/// The metrics label of a strategy: its name in lower case, without
/// separators.
pub open spec fn strategy_label_spec(s: Strategy) -> Seq<char> {
    match s {
        Strategy::FirstMatch => "firstmatch"@,
        Strategy::AllMatch => "allmatch"@,
        Strategy::Scored => "scored"@,
    }
}

/// The metrics label of a strategy.
pub fn strategy_label(s: Strategy) -> (r: &'static str)
    ensures
        r@ == strategy_label_spec(s),
{
    match s {
        Strategy::FirstMatch => "firstmatch",
        Strategy::AllMatch => "allmatch",
        Strategy::Scored => "scored",
    }
}

/// The metrics label of a request's ruleset: its name, or empty.
pub fn ruleset_label(ruleset: &Option<String>) -> (r: String)
    ensures
        match ruleset {
            Some(n) => r@ == n@,
            None => r@ == Seq::<char>::empty(),
        },
{
    match ruleset {
        Some(n) => owned(n.as_str()),
        None => String::new(),
    }
}

/// `s` is in strictly increasing order, each element before the next.
pub open spec fn ascending_strings(s: Seq<Seq<char>>) -> bool {
    forall|i: int| 0 <= i < s.len() - 1 ==> lex_order(#[trigger] s[i], s[i + 1]) == Ord3::Less
}

/// `s` holds each of its members once, in strictly increasing order.
#[verifier::opaque]
pub open spec fn ordered_unique(s: Seq<Seq<char>>) -> bool {
    s.no_duplicates() && ascending_strings(s)
}

/// `a` comes strictly before `b`, character by character.
fn precedes(a: &str, b: &str) -> (r: bool)
    ensures
        r == (lex_order(a@, b@) == Ord3::Less),
{
    let xs = chars_of(a);
    let ys = chars_of(b);
    compare_chars(xs.as_slice(), ys.as_slice()) == Ord3::Less
}

/// `a` holds the members of `b` and `x`, and nothing else.
#[verifier::opaque]
pub open spec fn members_plus(a: Seq<Seq<char>>, b: Seq<Seq<char>>, x: Seq<char>) -> bool {
    forall|y: Seq<char>| a.contains(y) <==> (b.contains(y) || y == x)
}

/// `a` and `b` have the same members.
#[verifier::opaque]
pub open spec fn same_members(a: Seq<Seq<char>>, b: Seq<Seq<char>>) -> bool {
    forall|y: Seq<char>| a.contains(y) <==> b.contains(y)
}

/// Adding the same element to lists with the same members, or adding an
/// element that one of them already has to the other, keeps them alike.
proof fn lemma_same_members_step(a: Seq<Seq<char>>, b: Seq<Seq<char>>, a2: Seq<Seq<char>>, b2: Seq<Seq<char>>, x: Seq<char>)
    requires
        same_members(a, b),
        members_plus(a2, a, x),
        members_plus(b2, b, x) || (b2 == b && b.contains(x)),
    ensures
        same_members(a2, b2),
{
    reveal(same_members);
    reveal(members_plus);
}

/// Inserting `x` at `pos` adds exactly `x` to the members.
proof fn lemma_insert_members(before: Seq<Seq<char>>, x: Seq<char>, pos: int)
    requires
        0 <= pos <= before.len(),
    ensures
        members_plus(before.insert(pos, x), before, x),
{
    reveal(members_plus);
    let now = before.insert(pos, x);
    assert forall|y: Seq<char>| now.contains(y) <==> (before.contains(y) || y == x) by {
        if now.contains(y) {
            let i = choose|i: int| 0 <= i < now.len() && now[i] == y;
            if i < pos {
                assert(before[i] == y);
            } else if i > pos {
                assert(before[i - 1] == y);
            }
        }
        if before.contains(y) {
            let i = choose|i: int| 0 <= i < before.len() && before[i] == y;
            if i < pos {
                assert(now[i] == y);
            } else {
                assert(now[i + 1] == y);
            }
        }
        if y == x {
            assert(now[pos] == y);
        }
    }
}

/// Inserting an element that is not there keeps a list free of duplicates.
proof fn lemma_insert_unique(before: Seq<Seq<char>>, x: Seq<char>, pos: int)
    requires
        before.no_duplicates(),
        !before.contains(x),
        0 <= pos <= before.len(),
    ensures
        before.insert(pos, x).no_duplicates(),
{
    let now = before.insert(pos, x);
    assert forall|i: int, m: int| 0 <= i < now.len() && 0 <= m < now.len() && i != m implies now[i]
        != now[m] by {
        if i != pos && m != pos {
            let bi = if i < pos {
                i
            } else {
                i - 1
            };
            let bm = if m < pos {
                m
            } else {
                m - 1
            };
            assert(now[i] == before[bi]);
            assert(now[m] == before[bm]);
        } else if i == pos {
            let bm = if m < pos {
                m
            } else {
                m - 1
            };
            assert(now[m] == before[bm]);
        } else {
            let bi = if i < pos {
                i
            } else {
                i - 1
            };
            assert(now[i] == before[bi]);
        }
    }
}

/// Inserting an element between its neighbours keeps a list ascending.
#[verifier::spinoff_prover]
#[verifier::rlimit(40)]
proof fn lemma_insert_ascending(before: Seq<Seq<char>>, x: Seq<char>, pos: int)
    requires
        ascending_strings(before),
        0 <= pos <= before.len(),
        pos > 0 ==> lex_order(before[pos - 1], x) == Ord3::Less,
        pos < before.len() ==> lex_order(x, before[pos]) == Ord3::Less,
    ensures
        ascending_strings(before.insert(pos, x)),
{
    let now = before.insert(pos, x);
    assert forall|i: int| 0 <= i < now.len() - 1 implies lex_order(#[trigger] now[i], now[i + 1])
        == Ord3::Less by {
        if i + 1 < pos {
            assert(now[i] == before[i]);
            assert(now[i + 1] == before[i + 1]);
        } else if i + 1 == pos {
            assert(now[i] == before[i]);
        } else if i == pos {
            assert(now[i + 1] == before[pos]);
        } else {
            assert(now[i] == before[i - 1]);
            assert(now[i + 1] == before[i]);
        }
    }
}

/// Inserting a new element at its place keeps a list ascending and free
/// of duplicates.
proof fn lemma_insert_in_order(before: Seq<Seq<char>>, x: Seq<char>, pos: int)
    requires
        ordered_unique(before),
        !before.contains(x),
        0 <= pos <= before.len(),
        pos > 0 ==> lex_order(x, before[pos - 1]) != Ord3::Less,
        pos < before.len() ==> lex_order(x, before[pos]) == Ord3::Less,
    ensures
        ordered_unique(before.insert(pos, x)),
        members_plus(before.insert(pos, x), before, x),
{
    reveal(ordered_unique);
    if pos > 0 {
        lemma_lex_order_equal(x, before[pos - 1]);
        lemma_lex_order_antisym(before[pos - 1], x);
        assert(before[pos - 1] != x);
    }
    lemma_insert_members(before, x, pos);
    lemma_insert_unique(before, x, pos);
    lemma_insert_ascending(before, x, pos);
}

/// The members of the first `k + 1` elements: those of the first `k`, and
/// element `k`.
proof fn lemma_take_members(s: Seq<Seq<char>>, k: int)
    requires
        0 <= k < s.len(),
    ensures
        members_plus(s.take(k + 1), s.take(k), s[k]),
{
    assert(s.take(k + 1) =~= s.take(k).push(s[k]));
    lemma_insert_members(s.take(k), s[k], k);
    assert(s.take(k).insert(k, s[k]) =~= s.take(k + 1));
}

/// Adds `x` to an ascending list without duplicates, at its place, unless
/// it is already there.
fn insert_path(out: &mut Vec<String>, x: &str)
    requires
        ordered_unique(string_views(old(out)@)),
    ensures
        ordered_unique(string_views(final(out)@)),
        members_plus(string_views(final(out)@), string_views(old(out)@), x@) || (final(out)@ == old(
            out,
        )@ && string_views(old(out)@).contains(x@)),
{
    let ghost before = string_views(out@);
    let mut j: usize = 0;
    while j < out.len()
        invariant
            j <= out@.len(),
            before == string_views(out@),
            before == string_views(old(out)@),
            ordered_unique(before),
            forall|i: int| 0 <= i < j ==> before[i] != x@,
        decreases out@.len() - j,
    {
        if str_eq(out[j].as_str(), x) {
            assert(before[j as int] == x@);
            return;
        }
        j = j + 1;
    }
    let mut pos: usize = 0;
    while pos < out.len() && !precedes(x, out[pos].as_str())
        invariant
            pos <= out@.len(),
            before == string_views(out@),
            forall|i: int| 0 <= i < pos ==> lex_order(x@, #[trigger] before[i]) != Ord3::Less,
        decreases out@.len() - pos,
    {
        pos = pos + 1;
    }
    out.insert(pos, owned(x));
    proof {
        assert(!before.contains(x@));
        lemma_insert_in_order(before, x@, pos as int);
        assert(string_views(out@) =~= before.insert(pos as int, x@));
    }
}

/// The changed paths the rules directory watcher collected in one window,
/// each once and in order.
#[verifier::spinoff_prover]
#[verifier::rlimit(40)]
pub fn sorted_unique_paths(paths: Vec<String>) -> (r: Vec<String>)
    ensures
        ordered_unique(string_views(r@)),
        forall|x: Seq<char>| string_views(paths@).contains(x) <==> string_views(r@).contains(x),
{
    let mut out: Vec<String> = Vec::new();
    let mut k: usize = 0;
    proof {
        reveal(same_members);
        reveal(ordered_unique);
        assert(string_views(paths@).take(0) =~= Seq::<Seq<char>>::empty());
        assert(string_views(out@) =~= Seq::<Seq<char>>::empty());
    }
    while k < paths.len()
        invariant
            k <= paths@.len(),
            ordered_unique(string_views(out@)),
            same_members(string_views(paths@).take(k as int), string_views(out@)),
        decreases paths@.len() - k,
    {
        let ghost before = string_views(out@);
        insert_path(&mut out, paths[k].as_str());
        proof {
            lemma_take_members(string_views(paths@), k as int);
            assert(string_views(paths@)[k as int] == paths@[k as int]@);
            if !members_plus(string_views(out@), before, paths@[k as int]@) {
                assert(string_views(out@) == before);
            }
            lemma_same_members_step(
                string_views(paths@).take(k as int),
                before,
                string_views(paths@).take(k + 1),
                string_views(out@),
                paths@[k as int]@,
            );
        }
        k = k + 1;
    }
    proof {
        assert(string_views(paths@).take(paths@.len() as int) =~= string_views(paths@));
        reveal(same_members);
    }
    out
}

/// A file the rules directory watcher reacts to: a `.yaml` or `.yml` one.
pub fn is_yaml_extension(ext: Option<&str>) -> (r: bool)
    ensures
        r == (ext matches Some(e) && (e@ == "yaml"@ || e@ == "yml"@)),
{
    match ext {
        Some(e) => str_eq(e, "yaml") || str_eq(e, "yml"),
        None => false,
    }
}

/// A rule submitted through the API must declare the schema version this
/// engine accepts; otherwise the message the request is refused with.
pub fn ars_version_problem(v: u32) -> (r: Option<String>)
    ensures
        match r {
            None => v == crate::schema::ARS_VERSION,
            Some(m) => v != crate::schema::ARS_VERSION && m@ == "unsupported ars_version: "@
                + nat_text(v as nat),
        },
{
    if v == crate::schema::ARS_VERSION {
        None
    } else {
        let mut m = owned("unsupported ars_version: ");
        push_nat(&mut m, v as u128);
        Some(m)
    }
}

} // verus!
