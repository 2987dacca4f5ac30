//! The command-line supervisor's decisions: how states are shown, how an
//! error is shortened, when the supervisor's heartbeat counts as live, how
//! orchestrator events and control requests change the runtime state, and
//! where its files live.

use vstd::prelude::*;
use vstd::string::*;
use crate::config::{char_index, lemma_char_index_prefix, DmnConfig};
use crate::logs::LogTimestamp;
use crate::json::{json_get, json_str, JsonValue};
use crate::orchestrator::OrchestratorEvent;
use crate::table::{find_key, first_index, key_seq, lemma_first_index};
use crate::text::{push_char, starts_with, str_chars, str_eq, str_starts_with, string_from_range, trim, trim_bounds};

verus! {

/// Seconds after the last heartbeat during which a supervisor counts as
/// alive.
pub const HEARTBEAT_STALE_AFTER_SECS: u64 = 5;

/// Bytes of the UTF-8 encoding of `c`.
pub open spec fn utf8_width(c: char) -> nat {
    if (c as u32) < 0x80 {
        1
    } else if (c as u32) < 0x800 {
        2
    } else if (c as u32) < 0x10000 {
        3
    } else {
        4
    }
}

/// Bytes of the UTF-8 encoding of `s`.
pub open spec fn utf8_len(s: Seq<char>) -> nat
    decreases s.len(),
{
    if s.len() == 0 {
        0
    } else {
        utf8_len(s.drop_last()) + utf8_width(s.last())
    }
}

fn char_width(c: char) -> (r: usize)
    ensures
        r == utf8_width(c),
{
    let u = c as u32;
    if u < 0x80 {
        1
    } else if u < 0x800 {
        2
    } else if u < 0x10000 {
        3
    } else {
        4
    }
}

proof fn lemma_utf8_len_prefix_grows(s: Seq<char>, i: int, j: int)
    requires
        0 <= i < j <= s.len(),
    ensures
        utf8_len(s.take(i)) < utf8_len(s.take(j)),
    decreases j - i,
{
    assert(s.take(j).drop_last() =~= s.take(j - 1));
    if i < j - 1 {
        lemma_utf8_len_prefix_grows(s, i, j - 1);
    }
}

/// The text before the first line feed.
pub open spec fn first_line(s: Seq<char>) -> Seq<char> {
    match char_index(s, '\n') {
        Some(p) => s.take(p),
        None => s,
    }
}

/// The number of characters of `s` that take up exactly `n` bytes.
pub open spec fn char_count_for_bytes(s: Seq<char>, n: nat) -> int {
    choose|k: int| 0 <= k <= s.len() && utf8_len(s.take(k)) == n
}

/// The first line of an error, trimmed, cut to 117 bytes and `...` when it
/// is longer than 120 bytes.
pub open spec fn compact_error_text(e: Seq<char>) -> Seq<char> {
    let l = trim(first_line(e));
    if utf8_len(l) > 120 {
        l.take(char_count_for_bytes(l, 117)) + "..."@
    } else {
        l
    }
}

/// Cutting the trimmed first line at 117 bytes falls between characters.
pub open spec fn compact_error_cuttable(e: Seq<char>) -> bool {
    let l = trim(first_line(e));
    utf8_len(l) > 120 ==> exists|k: int| 0 <= k <= l.len() && utf8_len(l.take(k)) == 117
}

/// Shortens an error for a one-line status.
pub fn compact_error(error: &str) -> (r: String)
    requires
        compact_error_cuttable(error@),
    ensures
        r@ == compact_error_text(error@),
{
    let cs = str_chars(error);
    let mut p: usize = 0;
    while p < cs.len() && cs[p] != '\n'
        invariant
            cs@ == error@,
            p <= cs@.len(),
            char_index(cs@.take(p as int), '\n') is None,
        decreases cs@.len() - p,
    {
        assert(cs@.take(p + 1).drop_last() =~= cs@.take(p as int));
        p = p + 1;
    }
    proof {
        if p < cs@.len() {
            assert(cs@.take(p + 1).drop_last() =~= cs@.take(p as int));
            lemma_char_index_prefix(cs@, '\n', p + 1);
        } else {
            assert(cs@.take(p as int) =~= cs@);
        }
        assert(cs@.subrange(0, p as int) =~= first_line(error@));
    }
    let (a, b) = trim_bounds(cs.as_slice(), 0, p);
    let ghost l = trim(first_line(error@));
    assert(cs@.subrange(a as int, b as int) == l);
    let mut bytes: usize = 0;
    let mut i: usize = a;
    while i < b && bytes <= 120
        invariant
            a <= i <= b,
            b <= cs@.len(),
            l == cs@.subrange(a as int, b as int),
            bytes == utf8_len(l.take(i - a)),
            bytes <= 124,
        decreases b - i,
    {
        assert(l.take(i - a + 1).drop_last() =~= l.take(i - a));
        bytes = bytes + char_width(cs[i]);
        i = i + 1;
    }
    if bytes <= 120 {
        assert(l.take(b - a) =~= l);
        return string_from_range(cs.as_slice(), a, b);
    }
    proof {
        assert(l.take(l.len() as int) =~= l);
        if i - a < l.len() {
            lemma_utf8_len_prefix_grows(l, i - a, l.len() as int);
        }
    }
    let ghost k = char_count_for_bytes(l, 117);
    let mut cut: usize = 0;
    let mut j: usize = a;
    while cut < 117
        invariant
            a <= j <= b,
            b <= cs@.len(),
            l == cs@.subrange(a as int, b as int),
            0 <= k <= l.len(),
            utf8_len(l.take(k)) == 117,
            cut == utf8_len(l.take(j - a)),
            j - a <= k,
        decreases k - (j - a),
    {
        proof {
            if j - a == k {
                assert(false);
            }
        }
        assert(l.take(j - a + 1).drop_last() =~= l.take(j - a));
        cut = cut + char_width(cs[j]);
        j = j + 1;
        proof {
            if j - a > k {
                lemma_utf8_len_prefix_grows(l, k, j - a);
            }
        }
    }
    proof {
        if j - a < k {
            lemma_utf8_len_prefix_grows(l, j - a, k);
        }
        assert(cs@.subrange(a as int, j as int) =~= l.take(k));
    }
    let mut r = string_from_range(cs.as_slice(), a, j);
    r.append("...");
    r
}


/// `s` with every leading copy of `p` removed.
pub open spec fn strip_prefixes(s: Seq<char>, p: Seq<char>) -> Seq<char>
    decreases s.len(),
{
    if p.len() > 0 && starts_with(s, p) {
        strip_prefixes(s.subrange(p.len() as int, s.len() as int), p)
    } else {
        s
    }
}

/// How the supervisor shows a recorded state: the known words capitalised,
/// `failed: <details>` as `Failed (<details>)` (or `Failed` without
/// details), anything else as it is.
pub open spec fn display_status_text(raw: Seq<char>) -> Seq<char> {
    if raw == "not_started"@ {
        "Not Started"@
    } else if raw == "starting"@ {
        "Starting"@
    } else if raw == "running"@ {
        "Running"@
    } else if raw == "stopped"@ {
        "Stopped"@
    } else if starts_with(raw, "failed:"@) {
        let details = trim(strip_prefixes(raw, "failed:"@));
        if details.len() == 0 {
            "Failed"@
        } else {
            "Failed ("@ + details + ")"@
        }
    } else {
        raw
    }
}

/// How the supervisor shows a recorded state, such as `Running` or
/// `Failed (Process exited with code 1)`.
pub fn display_status(raw: &str) -> (r: String)
    ensures
        r@ == display_status_text(raw@),
{
    if str_eq(raw, "not_started") {
        return String::from_str("Not Started");
    } else if str_eq(raw, "starting") {
        return String::from_str("Starting");
    } else if str_eq(raw, "running") {
        return String::from_str("Running");
    } else if str_eq(raw, "stopped") {
        return String::from_str("Stopped");
    } else if str_starts_with(raw, "failed:") {
        let cs = str_chars(raw);
        let prefix = str_chars("failed:");
        let plen = prefix.len();
        proof {
            reveal_strlit("failed:");
            assert(cs@.subrange(0, cs@.len() as int) =~= raw@);
        }
        let mut start: usize = 0;
        while plen <= cs.len() - start && slice_has_prefix_at(cs.as_slice(), start, prefix.as_slice())
            invariant
                cs@ == raw@,
                prefix@ == "failed:"@,
                plen == prefix@.len(),
                plen > 0,
                start <= cs@.len(),
                strip_prefixes(raw@, "failed:"@) == strip_prefixes(cs@.subrange(start as int, cs@.len() as int), "failed:"@),
            decreases cs@.len() - start,
        {
            let ghost rest = cs@.subrange(start as int, cs@.len() as int);
            proof {
                assert(starts_with(rest, "failed:"@));
                assert(rest.subrange(plen as int, rest.len() as int) =~= cs@.subrange(start + plen, cs@.len() as int));
            }
            start = start + plen;
        }
        proof {
            let rest = cs@.subrange(start as int, cs@.len() as int);
            assert(!starts_with(rest, "failed:"@));
        }
        let (a, b) = trim_bounds(cs.as_slice(), start, cs.len());
        if a == b {
            return String::from_str("Failed");
        }
        let mut r = String::new();
        r.append("Failed (");
        let d = string_from_range(cs.as_slice(), a, b);
        r.append(d.as_str());
        r.append(")");
        return r;
    }
    String::from_str(raw)
}

/// Whether `p` occurs in `cs` at `start`.
fn slice_has_prefix_at(cs: &[char], start: usize, p: &[char]) -> (r: bool)
    requires
        start + p.len() <= cs.len(),
    ensures
        r == starts_with(cs@.subrange(start as int, cs@.len() as int), p@),
{
    let mut i: usize = 0;
    while i < p.len()
        invariant
            start + p.len() <= cs.len(),
            i <= p@.len(),
            forall|j: int| 0 <= j < i ==> cs@[start + j] == p@[j],
        decreases p@.len() - i,
    {
        if cs[start + i] != p[i] {
            proof {
                let rest = cs@.subrange(start as int, cs@.len() as int);
                if starts_with(rest, p@) {
                    assert(rest.subrange(0, p@.len() as int)[i as int] == p@[i as int]);
                }
            }
            return false;
        }
        i = i + 1;
    }
    assert(cs@.subrange(start as int, cs@.len() as int).subrange(0, p@.len() as int) =~= p@);
    true
}

/// How a state reported by the extension daemon is shown: the known words
/// capitalised, a state starting with `failed` with its first letter
/// capitalised, anything else as it is.
pub open spec fn display_daemon_status_text(raw: Seq<char>) -> Seq<char> {
    if raw == "not_started"@ {
        "Not Started"@
    } else if raw == "starting"@ {
        "Starting"@
    } else if raw == "running"@ {
        "Running"@
    } else if raw == "stopped"@ {
        "Stopped"@
    } else if starts_with(raw, "failed"@) {
        seq!['F'] + raw.subrange(1, raw.len() as int)
    } else {
        raw
    }
}

/// How a state reported by the extension daemon is shown.
pub fn display_daemon_status(raw: &str) -> (r: String)
    ensures
        r@ == display_daemon_status_text(raw@),
{
    if str_eq(raw, "not_started") {
        String::from_str("Not Started")
    } else if str_eq(raw, "starting") {
        String::from_str("Starting")
    } else if str_eq(raw, "running") {
        String::from_str("Running")
    } else if str_eq(raw, "stopped") {
        String::from_str("Stopped")
    } else if str_starts_with(raw, "failed") {
        let cs = str_chars(raw);
        proof {
            reveal_strlit("failed");
        }
        let mut r = String::new();
        push_char(&mut r, 'F');
        let rest = string_from_range(cs.as_slice(), 1, cs.len());
        r.append(rest.as_str());
        assert(r@ =~= seq!['F'] + raw@.subrange(1, raw@.len() as int));
        r
    } else {
        String::from_str(raw)
    }
}

/// The heartbeat at `heartbeat` is fresh at time `now` (seconds since the
/// epoch): at most five seconds old, or from the future.
pub open spec fn heartbeat_fresh(heartbeat: u64, now: u64) -> bool {
    now <= heartbeat || now - heartbeat <= HEARTBEAT_STALE_AFTER_SECS
}

/// Whether a supervisor whose last heartbeat was at `heartbeat` counts as
/// alive at `now`.
pub fn is_state_active_at(heartbeat: u64, now: u64) -> (r: bool)
    ensures
        r == heartbeat_fresh(heartbeat, now),
{
    now.saturating_sub(heartbeat) <= HEARTBEAT_STALE_AFTER_SECS
}

/// Whole seconds since the epoch, by the system clock (0 before it).
pub fn now_unix_secs() -> u64 {
    LogTimestamp::now().epoch_secs()
}

/// The state of a `dmn start` supervisor, as kept in its state file.
#[derive(Debug)]
pub struct RuntimeState {
    pub config_path: String,
    pub started_at_unix: u64,
    pub heartbeat_unix: u64,
    /// The recorded state of each service (the first entry of a name
    /// counts).
    pub services: Vec<(String, String)>,
}

/// Whether a supervisor with this state counts as alive now, by the
/// system clock.
pub fn is_state_active(state: &RuntimeState) -> (r: bool)
    ensures
        exists|now: u64| r == heartbeat_fresh(state.heartbeat_unix, now),
{
    let now = now_unix_secs();
    is_state_active_at(state.heartbeat_unix, now)
}

/// Every service of the configuration, in order, as not started.
pub fn default_service_statuses(config: &DmnConfig) -> (r: Vec<(String, String)>)
    ensures
        r@.len() == config.services.entries().len(),
        forall|i: int| 0 <= i < r@.len() ==> #[trigger] r@[i].0@ == config.services.entries()[i].0@ && r@[i].1@ == "not_started"@,
{
    let entries = config.services.as_slice();
    let mut r: Vec<(String, String)> = Vec::new();
    let mut i: usize = 0;
    while i < entries.len()
        invariant
            entries@ == config.services.entries(),
            i <= entries@.len(),
            r@.len() == i,
            forall|j: int| 0 <= j < i ==> #[trigger] r@[j].0@ == entries@[j].0@ && r@[j].1@ == "not_started"@,
        decreases entries@.len() - i,
    {
        r.push((entries[i].0.clone(), String::from_str("not_started")));
        i = i + 1;
    }
    r
}

/// The recorded states with the state of `name` set to `status` (added
/// when `name` has none).
pub open spec fn with_service_status(s: Seq<(String, String)>, name: Seq<char>, status: Seq<char>) -> Seq<(Seq<char>, Seq<char>)> {
    let v = s.map_values(|p: (String, String)| (p.0@, p.1@));
    match first_index(key_seq(s), name) {
        Some(i) => v.update(i, (name, status)),
        None => v.push((name, status)),
    }
}

/// The recorded states as pairs of texts.
pub open spec fn status_pairs(s: Seq<(String, String)>) -> Seq<(Seq<char>, Seq<char>)> {
    s.map_values(|p: (String, String)| (p.0@, p.1@))
}

/// `failed: <compacted error>`.
pub open spec fn failed_status_text(error: Seq<char>) -> Seq<char> {
    "failed: "@ + compact_error_text(error)
}

impl RuntimeState {
    /// A fresh state for a supervisor started at `now`, every service not
    /// started.
    pub fn new(config_path: String, now: u64, config: &DmnConfig) -> (r: Self)
        ensures
            r.config_path == config_path,
            r.started_at_unix == now,
            r.heartbeat_unix == now,
            r.services@.len() == config.services.entries().len(),
            forall|i: int| 0 <= i < r.services@.len() ==> #[trigger] r.services@[i].0@ == config.services.entries()[i].0@ && r.services@[i].1@ == "not_started"@,
    {
        RuntimeState { config_path, started_at_unix: now, heartbeat_unix: now, services: default_service_statuses(config) }
    }

    /// Records the state of a service.
    pub fn set_service_status(&mut self, name: &str, status: String)
        ensures
            status_pairs(final(self).services@) == with_service_status(old(self).services@, name@, status@),
            final(self).config_path == old(self).config_path,
            final(self).started_at_unix == old(self).started_at_unix,
            final(self).heartbeat_unix == old(self).heartbeat_unix,
    {
        proof {
            lemma_first_index(key_seq(self.services@), name@);
        }
        let ghost before = self.services@;
        match find_key(&self.services, name) {
            Some(i) => {
                self.services.set(i, (String::from_str(name), status));
            },
            None => {
                self.services.push((String::from_str(name), status));
            },
        }
        assert(status_pairs(self.services@) =~= with_service_status(before, name@, status@));
    }

    /// Applies an orchestrator event: a service starting, ready, failed or
    /// stopped gets the matching state and the heartbeat is set to `now`;
    /// returns whether the state changed (and is to be saved).
    pub fn apply_event(&mut self, event: &OrchestratorEvent, now: u64) -> (changed: bool)
        requires
            event matches OrchestratorEvent::ServiceFailed { error, .. } ==> compact_error_cuttable(error@),
        ensures
            final(self).config_path == old(self).config_path,
            final(self).started_at_unix == old(self).started_at_unix,
            match *event {
                OrchestratorEvent::ServiceStarting { service } => changed && final(self).heartbeat_unix == now
                    && status_pairs(final(self).services@) == with_service_status(old(self).services@, service@, "starting"@),
                OrchestratorEvent::ServiceReady { service } => changed && final(self).heartbeat_unix == now
                    && status_pairs(final(self).services@) == with_service_status(old(self).services@, service@, "running"@),
                OrchestratorEvent::ServiceFailed { service, error } => changed && final(self).heartbeat_unix == now
                    && status_pairs(final(self).services@) == with_service_status(old(self).services@, service@, failed_status_text(error@)),
                OrchestratorEvent::ServiceStopped { service } => changed && final(self).heartbeat_unix == now
                    && status_pairs(final(self).services@) == with_service_status(old(self).services@, service@, "stopped"@),
                _ => !changed && final(self).services@ == old(self).services@ && final(self).heartbeat_unix == old(self).heartbeat_unix,
            },
    {
        match event {
            OrchestratorEvent::ServiceStarting { service } => {
                self.set_service_status(service.as_str(), String::from_str("starting"));
            },
            OrchestratorEvent::ServiceReady { service } => {
                self.set_service_status(service.as_str(), String::from_str("running"));
            },
            OrchestratorEvent::ServiceFailed { service, error } => {
                let status = failed_status(error.as_str());
                self.set_service_status(service.as_str(), status);
            },
            OrchestratorEvent::ServiceStopped { service } => {
                self.set_service_status(service.as_str(), String::from_str("stopped"));
            },
            _ => {
                return false;
            },
        }
        self.heartbeat_unix = now;
        true
    }

    /// Records that a control action on `service` failed with `error`, at
    /// `now`.
    pub fn record_failure(&mut self, service: &str, error: &str, now: u64)
        requires
            compact_error_cuttable(error@),
        ensures
            final(self).config_path == old(self).config_path,
            final(self).started_at_unix == old(self).started_at_unix,
            final(self).heartbeat_unix == now,
            status_pairs(final(self).services@) == with_service_status(old(self).services@, service@, failed_status_text(error@)),
    {
        let status = failed_status(error);
        self.set_service_status(service, status);
        self.heartbeat_unix = now;
    }

    /// Marks every service stopped, at `now`.
    pub fn mark_all_stopped(&mut self, now: u64)
        ensures
            final(self).config_path == old(self).config_path,
            final(self).started_at_unix == old(self).started_at_unix,
            final(self).heartbeat_unix == now,
            final(self).services@.len() == old(self).services@.len(),
            forall|i: int| 0 <= i < final(self).services@.len() ==> #[trigger] final(self).services@[i].0 == old(self).services@[i].0
                && final(self).services@[i].1@ == "stopped"@,
    {
        let ghost before = self.services@;
        let mut i: usize = 0;
        while i < self.services.len()
            invariant
                self.config_path == old(self).config_path,
                self.started_at_unix == old(self).started_at_unix,
                self.services@.len() == before.len(),
                i <= before.len(),
                forall|j: int| 0 <= j < before.len() ==> #[trigger] self.services@[j].0 == before[j].0,
                forall|j: int| 0 <= j < i ==> #[trigger] self.services@[j].1@ == "stopped"@,
            decreases before.len() - i,
        {
            let name = self.services[i].0.clone();
            self.services.set(i, (name, String::from_str("stopped")));
            i = i + 1;
        }
        self.heartbeat_unix = now;
    }
}

/// `failed: <compacted error>`.
fn failed_status(error: &str) -> (r: String)
    requires
        compact_error_cuttable(error@),
    ensures
        r@ == failed_status_text(error@),
{
    let mut r = String::new();
    r.append("failed: ");
    let c = compact_error(error);
    r.append(c.as_str());
    r
}


/// `a` comes before or equals `b` in the order of code points, character
/// by character.
pub open spec fn lex_le(a: Seq<char>, b: Seq<char>) -> bool
    decreases a.len(),
{
    if a.len() == 0 {
        true
    } else if b.len() == 0 {
        false
    } else if a[0] != b[0] {
        (a[0] as u32) < (b[0] as u32)
    } else {
        lex_le(a.drop_first(), b.drop_first())
    }
}

/// Sorts strings in ascending order.
///
/// Trusted: calls `slice::sort` on the strings, which orders them by
/// `Ord for String`: byte-wise lexicographic, which for UTF-8 text is the
/// order of code points. The contract says the result is a rearrangement
/// of the input that is in that order.
#[verifier::external_body]
pub(crate) fn sort_strings(v: &mut Vec<String>)
    ensures
        final(v)@.map_values(|s: String| s@).to_multiset() == old(v)@.map_values(|s: String| s@).to_multiset(),
        forall|i: int, j: int| 0 <= i < j < final(v)@.len() ==> lex_le(#[trigger] final(v)@[i]@, #[trigger] final(v)@[j]@),
{
    v.sort();
}

/// What `dmn start` does, given the runtime state found (if any).
#[derive(Debug)]
pub enum StartDecision {
    /// Start a new supervisor, after removing a stale state when told.
    Launch { cleanup_stale: bool },
    /// A supervisor for this configuration runs: ask it to start the service.
    RequestServiceStart(String),
    /// A supervisor for another configuration runs.
    OtherSupervisor(String),
    /// A supervisor for this configuration already runs.
    AlreadyRunning(String),
}

/// Decides what `dmn start` does at `now`.
pub fn start_decision(existing: Option<&RuntimeState>, config_id: &str, service: Option<&str>, now: u64) -> (r: StartDecision)
    ensures
        match existing {
            None => r == (StartDecision::Launch { cleanup_stale: false }),
            Some(st) => if !heartbeat_fresh(st.heartbeat_unix, now) {
                r == (StartDecision::Launch { cleanup_stale: true })
            } else if st.config_path@ != config_id@ {
                r matches StartDecision::OtherSupervisor(p) && p@ == st.config_path@
            } else {
                match service {
                    Some(s) => r matches StartDecision::RequestServiceStart(x) && x@ == s@,
                    None => r matches StartDecision::AlreadyRunning(p) && p@ == st.config_path@,
                }
            },
        },
{
    match existing {
        None => StartDecision::Launch { cleanup_stale: false },
        Some(st) => {
            if !is_state_active_at(st.heartbeat_unix, now) {
                StartDecision::Launch { cleanup_stale: true }
            } else if !str_eq(st.config_path.as_str(), config_id) {
                StartDecision::OtherSupervisor(st.config_path.clone())
            } else {
                match service {
                    Some(s) => StartDecision::RequestServiceStart(String::from_str(s)),
                    None => StartDecision::AlreadyRunning(st.config_path.clone()),
                }
            }
        },
    }
}

/// What `dmn stop` does, given the runtime state found (if any).
#[derive(Debug)]
pub enum StopDecision {
    NothingRunning,
    OtherSupervisor(String),
    CleanStale,
    RequestServiceStop(String),
    RequestShutdown,
}

/// Decides what `dmn stop` does at `now`.
pub fn stop_decision(state: Option<&RuntimeState>, config_id: &str, service: Option<&str>, now: u64) -> (r: StopDecision)
    ensures
        match state {
            None => r is NothingRunning,
            Some(st) => if st.config_path@ != config_id@ {
                r matches StopDecision::OtherSupervisor(p) && p@ == st.config_path@
            } else if !heartbeat_fresh(st.heartbeat_unix, now) {
                r is CleanStale
            } else {
                match service {
                    Some(s) => r matches StopDecision::RequestServiceStop(x) && x@ == s@,
                    None => r is RequestShutdown,
                }
            },
        },
{
    match state {
        None => StopDecision::NothingRunning,
        Some(st) => {
            if !str_eq(st.config_path.as_str(), config_id) {
                StopDecision::OtherSupervisor(st.config_path.clone())
            } else if !is_state_active_at(st.heartbeat_unix, now) {
                StopDecision::CleanStale
            } else {
                match service {
                    Some(s) => StopDecision::RequestServiceStop(String::from_str(s)),
                    None => StopDecision::RequestShutdown,
                }
            }
        },
    }
}

/// What `dmn restart` does, given the runtime state found (if any).
#[derive(Debug)]
pub enum RestartDecision {
    NotRunning,
    OtherSupervisor(String),
    Stale,
    Request,
}

/// Decides what `dmn restart` does at `now`.
pub fn restart_decision(state: Option<&RuntimeState>, config_id: &str, now: u64) -> (r: RestartDecision)
    ensures
        match state {
            None => r is NotRunning,
            Some(st) => if st.config_path@ != config_id@ {
                r matches RestartDecision::OtherSupervisor(p) && p@ == st.config_path@
            } else if !heartbeat_fresh(st.heartbeat_unix, now) {
                r is Stale
            } else {
                r is Request
            },
        },
{
    match state {
        None => RestartDecision::NotRunning,
        Some(st) => {
            if !str_eq(st.config_path.as_str(), config_id) {
                RestartDecision::OtherSupervisor(st.config_path.clone())
            } else if !is_state_active_at(st.heartbeat_unix, now) {
                RestartDecision::Stale
            } else {
                RestartDecision::Request
            }
        },
    }
}

/// Where a requested shutdown stands.
#[derive(Debug)]
pub enum ShutdownProgress {
    /// The state file is gone: all services stopped.
    Stopped,
    /// The supervisor stopped beating.
    Unresponsive,
    Waiting,
}

/// Where a requested shutdown stands at `now`, given the state found.
pub fn shutdown_progress(state: Option<&RuntimeState>, now: u64) -> (r: ShutdownProgress)
    ensures
        match state {
            None => r is Stopped,
            Some(st) => if heartbeat_fresh(st.heartbeat_unix, now) { r is Waiting } else { r is Unresponsive },
        },
{
    match state {
        None => ShutdownProgress::Stopped,
        Some(st) => {
            if is_state_active_at(st.heartbeat_unix, now) {
                ShutdownProgress::Waiting
            } else {
                ShutdownProgress::Unresponsive
            }
        },
    }
}

/// Where a control request stands.
#[derive(Debug)]
pub enum ControlWait {
    /// The supervisor took the request.
    Done,
    Failed(String),
    Waiting,
}

/// Where a control request stands at `now`: done once the request file is
/// gone; failed when the supervisor is gone, serves another configuration
/// or stopped beating.
pub fn control_wait_step(request_pending: bool, state: Option<&RuntimeState>, config_id: &str, now: u64) -> (r: ControlWait)
    ensures
        !request_pending ==> r is Done,
        request_pending ==> match state {
            None => r matches ControlWait::Failed(m) && m@ == "supervisor is no longer running"@,
            Some(st) => if st.config_path@ != config_id@ {
                r matches ControlWait::Failed(m) && m@ == "runtime state changed to a different configuration"@
            } else if !heartbeat_fresh(st.heartbeat_unix, now) {
                r matches ControlWait::Failed(m) && m@ == "supervisor is unresponsive"@
            } else {
                r is Waiting
            },
        },
{
    if !request_pending {
        return ControlWait::Done;
    }
    match state {
        None => ControlWait::Failed(String::from_str("supervisor is no longer running")),
        Some(st) => {
            if !str_eq(st.config_path.as_str(), config_id) {
                ControlWait::Failed(String::from_str("runtime state changed to a different configuration"))
            } else if !is_state_active_at(st.heartbeat_unix, now) {
                ControlWait::Failed(String::from_str("supervisor is unresponsive"))
            } else {
                ControlWait::Waiting
            }
        },
    }
}

/// A request to a running supervisor, as kept in its control file.
#[derive(Debug)]
pub struct ControlRequest {
    pub action: String,
    pub service: Option<String>,
    pub requested_at_unix: u64,
}

/// What a supervisor does with a control request.
#[derive(Debug)]
pub enum ControlPlan {
    Shutdown,
    StartService(String),
    StopService(String),
    RestartService(String),
    /// The request is refused; the text says why.
    Reject(String),
}

/// The plan for a service action: the action on the named service, or a
/// refusal when no service is named.
pub open spec fn service_plan_ok(service: Option<String>, action: Seq<char>, r: ControlPlan, make: spec_fn(ControlPlan, Seq<char>) -> bool) -> bool {
    match service {
        Some(s) => make(r, s@),
        None => r matches ControlPlan::Reject(m) && m@ == "Missing service name for "@ + action + " request"@,
    }
}

/// Decides what a supervisor does with a control request: `stop` shuts
/// down; `start_service`, `stop_service` and `restart_service` act on the
/// named service; anything else is refused.
pub fn control_plan(req: &ControlRequest) -> (r: ControlPlan)
    ensures
        if req.action@ == "stop"@ {
            r is Shutdown
        } else if req.action@ == "start_service"@ {
            service_plan_ok(req.service, "start_service"@, r, |p: ControlPlan, s: Seq<char>| p matches ControlPlan::StartService(x) && x@ == s)
        } else if req.action@ == "stop_service"@ {
            service_plan_ok(req.service, "stop_service"@, r, |p: ControlPlan, s: Seq<char>| p matches ControlPlan::StopService(x) && x@ == s)
        } else if req.action@ == "restart_service"@ {
            service_plan_ok(req.service, "restart_service"@, r, |p: ControlPlan, s: Seq<char>| p matches ControlPlan::RestartService(x) && x@ == s)
        } else {
            r matches ControlPlan::Reject(m) && m@ == "Unknown control action '"@ + req.action@ + "'"@
        },
{
    let a = req.action.as_str();
    if str_eq(a, "stop") {
        ControlPlan::Shutdown
    } else if str_eq(a, "start_service") {
        match &req.service {
            Some(s) => ControlPlan::StartService(s.clone()),
            None => ControlPlan::Reject(missing_service_message("start_service")),
        }
    } else if str_eq(a, "stop_service") {
        match &req.service {
            Some(s) => ControlPlan::StopService(s.clone()),
            None => ControlPlan::Reject(missing_service_message("stop_service")),
        }
    } else if str_eq(a, "restart_service") {
        match &req.service {
            Some(s) => ControlPlan::RestartService(s.clone()),
            None => ControlPlan::Reject(missing_service_message("restart_service")),
        }
    } else {
        let mut m = String::new();
        m.append("Unknown control action '");
        m.append(a);
        m.append("'");
        ControlPlan::Reject(m)
    }
}

fn missing_service_message(action: &str) -> (r: String)
    ensures
        r@ == "Missing service name for "@ + action@ + " request"@,
{
    let mut m = String::new();
    m.append("Missing service name for ");
    m.append(action);
    m.append(" request");
    m
}

/// What `dmn status` shows.
#[derive(Debug)]
pub struct StatusReport {
    /// A live supervisor serves this configuration.
    pub supervisor_running: bool,
    /// Service name and shown state, by name.
    pub rows: Vec<(String, String)>,
    /// A stale state of this configuration was found.
    pub stale_note: bool,
}

/// The state recorded for `name`, when a live supervisor serves the
/// configuration; `not_started` otherwise.
pub open spec fn recorded_status(state: Option<&RuntimeState>, running: bool, name: Seq<char>) -> Seq<char> {
    if running {
        match state {
            Some(st) => match first_index(key_seq(st.services@), name) {
                Some(i) => st.services@[i].1@,
                None => "not_started"@,
            },
            None => "not_started"@,
        }
    } else {
        "not_started"@
    }
}

/// The filter admits `name`: it names it, or there is no filter.
pub open spec fn admits(filter: Option<Seq<char>>, name: Seq<char>) -> bool {
    match filter {
        Some(f) => name == f,
        None => true,
    }
}

/// The view of an optional text.
pub open spec fn opt_view(o: Option<&str>) -> Option<Seq<char>> {
    match o {
        Some(s) => Some(s@),
        None => None,
    }
}

/// The rows `dmn status` shows at `now`: the services the filter admits,
/// in name order, each with its recorded state as shown.
pub fn status_report(names: Vec<String>, filter: Option<&str>, state: Option<&RuntimeState>, config_id: &str, now: u64) -> (r: StatusReport)
    ensures
        r.supervisor_running == match state {
            Some(st) => st.config_path@ == config_id@ && heartbeat_fresh(st.heartbeat_unix, now),
            None => false,
        },
        r.stale_note == match state {
            Some(st) => st.config_path@ == config_id@ && !heartbeat_fresh(st.heartbeat_unix, now),
            None => false,
        },
        r.rows@.map_values(|p: (String, String)| p.0@).to_multiset() == names@.map_values(|s: String| s@).filter(
            |n: Seq<char>| admits(opt_view(filter), n),
        ).to_multiset(),
        forall|i: int, j: int| 0 <= i < j < r.rows@.len() ==> lex_le(#[trigger] r.rows@[i].0@, #[trigger] r.rows@[j].0@),
        forall|i: int| 0 <= i < r.rows@.len() ==> (#[trigger] r.rows@[i]).1@ == display_status_text(
            recorded_status(state, r.supervisor_running, r.rows@[i].0@),
        ),
{
    let (running, stale) = match state {
        Some(st) => {
            let same = str_eq(st.config_path.as_str(), config_id);
            let fresh = is_state_active_at(st.heartbeat_unix, now);
            (same && fresh, same && !fresh)
        },
        None => (false, false),
    };
    let ghost views = names@.map_values(|s: String| s@);
    let ghost pred = |n: Seq<char>| admits(opt_view(filter), n);
    let mut kept: Vec<String> = Vec::new();
    let mut i: usize = 0;
    while i < names.len()
        invariant
            views == names@.map_values(|s: String| s@),
            pred == (|n: Seq<char>| admits(opt_view(filter), n)),
            i <= names@.len(),
            kept@.map_values(|s: String| s@) == views.take(i as int).filter(pred),
        decreases names@.len() - i,
    {
        proof {
            assert(views.take(i + 1).drop_last() =~= views.take(i as int));
            reveal(Seq::filter);
        }
        let keep = match filter {
            Some(f) => str_eq(names[i].as_str(), f),
            None => true,
        };
        let ghost before = kept@.map_values(|s: String| s@);
        if keep {
            kept.push(names[i].clone());
            assert(kept@.map_values(|s: String| s@) =~= before.push(views[i as int]));
        }
        assert(kept@.map_values(|s: String| s@) =~= views.take(i + 1).filter(pred));
        i = i + 1;
    }
    assert(views.take(names@.len() as int) =~= views);
    let ghost filtered = kept@.map_values(|s: String| s@);
    sort_strings(&mut kept);
    let mut rows: Vec<(String, String)> = Vec::new();
    let mut k: usize = 0;
    while k < kept.len()
        invariant
            k <= kept@.len(),
            rows@.len() == k,
            forall|m: int| 0 <= m < k ==> (#[trigger] rows@[m]).0@ == kept@[m]@,
            forall|m: int| 0 <= m < k ==> (#[trigger] rows@[m]).1@ == display_status_text(
                recorded_status(state, running, rows@[m].0@),
            ),
        decreases kept@.len() - k,
    {
        let name = &kept[k];
        let raw: String = if running {
            match state {
                Some(st) => {
                    proof {
                        lemma_first_index(key_seq(st.services@), name@);
                    }
                    match find_key(&st.services, name.as_str()) {
                        Some(x) => st.services[x].1.clone(),
                        None => String::from_str("not_started"),
                    }
                },
                None => String::from_str("not_started"),
            }
        } else {
            String::from_str("not_started")
        };
        let shown = display_status(raw.as_str());
        rows.push((name.clone(), shown));
        k = k + 1;
    }
    proof {
        assert(rows@.map_values(|p: (String, String)| p.0@) =~= kept@.map_values(|s: String| s@));
    }
    StatusReport { supervisor_running: running, rows, stale_note: stale }
}

/// The rows shown for the extension daemon's status answer: its
/// `services` object's members that the filter admits, in name order,
/// each with its state (or `unknown`) as shown. Fails when the answer has
/// no `services` object, or the filter admits no service.
pub fn daemon_status_rows(result: &JsonValue, filter: Option<&str>) -> (r: Result<Vec<(String, String)>, String>)
    ensures
        match json_get(*result, "services"@) {
            Some(JsonValue::Object(members)) => match r {
                Ok(rows) => {
                    &&& rows@.map_values(|p: (String, String)| p.0@).to_multiset() == key_seq(members@).filter(
                        |n: Seq<char>| admits(opt_view(filter), n),
                    ).to_multiset()
                    &&& forall|i: int, j: int| 0 <= i < j < rows@.len() ==> lex_le(#[trigger] rows@[i].0@, #[trigger] rows@[j].0@)
                    &&& forall|i: int| 0 <= i < rows@.len() ==> (#[trigger] rows@[i]).1@ == display_daemon_status_text(
                        member_status(members@, rows@[i].0@),
                    )
                    &&& (filter is Some ==> rows@.len() > 0)
                },
                Err(m) => filter matches Some(f) && m@ == "Service '"@ + f@ + "' not found in configuration."@
                    && key_seq(members@).filter(|n: Seq<char>| admits(opt_view(filter), n)).len() == 0,
            },
            _ => r matches Err(m) && m@ == "Invalid status response from extension daemon."@,
        },
{
    let members = match result.get("services") {
        Some(JsonValue::Object(ms)) => ms,
        _ => {
            return Err(String::from_str("Invalid status response from extension daemon."));
        },
    };
    let ghost views = key_seq(members@);
    let ghost pred = |n: Seq<char>| admits(opt_view(filter), n);
    let mut kept: Vec<String> = Vec::new();
    let mut i: usize = 0;
    while i < members.len()
        invariant
            views == key_seq(members@),
            pred == (|n: Seq<char>| admits(opt_view(filter), n)),
            i <= members@.len(),
            kept@.map_values(|s: String| s@) == views.take(i as int).filter(pred),
        decreases members@.len() - i,
    {
        proof {
            assert(views.take(i + 1).drop_last() =~= views.take(i as int));
            reveal(Seq::filter);
        }
        let keep = match filter {
            Some(f) => str_eq(members[i].0.as_str(), f),
            None => true,
        };
        let ghost before = kept@.map_values(|s: String| s@);
        if keep {
            kept.push(members[i].0.clone());
            assert(kept@.map_values(|s: String| s@) =~= before.push(views[i as int]));
        }
        assert(kept@.map_values(|s: String| s@) =~= views.take(i + 1).filter(pred));
        i = i + 1;
    }
    assert(views.take(members@.len() as int) =~= views);
    if kept.len() == 0 {
        match filter {
            Some(f) => {
                let mut m = String::new();
                m.append("Service '");
                m.append(f);
                m.append("' not found in configuration.");
                return Err(m);
            },
            None => {},
        }
    }
    let ghost kept_len = kept@.len();
    sort_strings(&mut kept);
    proof {
        let a = kept@.map_values(|s: String| s@);
        vstd::seq_lib::to_multiset_len(a);
        vstd::seq_lib::to_multiset_len(views.filter(pred));
        assert(a.len() == kept_len);
    }
    let mut rows: Vec<(String, String)> = Vec::new();
    let mut k: usize = 0;
    while k < kept.len()
        invariant
            k <= kept@.len(),
            rows@.len() == k,
            forall|m: int| 0 <= m < k ==> (#[trigger] rows@[m]).0@ == kept@[m]@,
            forall|m: int| 0 <= m < k ==> (#[trigger] rows@[m]).1@ == display_daemon_status_text(
                member_status(members@, rows@[m].0@),
            ),
        decreases kept@.len() - k,
    {
        let name = &kept[k];
        proof {
            lemma_first_index(key_seq(members@), name@);
        }
        let status: &str = match find_key(members, name.as_str()) {
            Some(x) => match members[x].1.as_str() {
                Some(t) => t,
                None => "unknown",
            },
            None => "unknown",
        };
        let shown = display_daemon_status(status);
        rows.push((name.clone(), shown));
        k = k + 1;
    }
    proof {
        assert(rows@.map_values(|p: (String, String)| p.0@) =~= kept@.map_values(|s: String| s@));
    }
    Ok(rows)
}

/// The state text of member `name`, or `unknown` when it is missing or not
/// a string.
pub open spec fn member_status(members: Seq<(String, JsonValue)>, name: Seq<char>) -> Seq<char> {
    match first_index(key_seq(members), name) {
        Some(i) => match json_str(members[i].1) {
            Some(t) => t,
            None => "unknown"@,
        },
        None => "unknown"@,
    }
}

} // verus!
