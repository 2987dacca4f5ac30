//! Readiness bookkeeping: which services are ready, which condition each
//! is watched with, and how long to wait; and the decisions taken while
//! watching (a matching log line, a successful HTTP answer).

use vstd::prelude::*;
use vstd::string::*;
use crate::config::ReadyCondition;
use crate::pattern::{regex_compile_error, regex_is_match, regex_search};
use crate::table::{find_key, first_index, key_seq, lemma_first_index};
use crate::text::{decimal, str_eq, u64_to_decimal};

verus! {

/// Why waiting for readiness failed.
#[derive(Debug)]
pub enum ReadyError {
    /// The service did not become ready in time: the service, the limit in
    /// whole seconds, the condition, what was seen while waiting, and what
    /// to check.
    Timeout { service: String, timeout_secs: u64, condition: String, details: String, troubleshooting: String },
    /// The log pattern does not compile; the text is the regex error.
    InvalidRegex(String),
    /// The HTTP request failed; the text is the error.
    HttpError(String),
}

/// Display text of a readiness error.
pub open spec fn ready_error_text(e: ReadyError) -> Seq<char> {
    match e {
        ReadyError::Timeout { service, timeout_secs, condition, details, troubleshooting } =>
            "Timeout waiting for service '"@ + service@ + "' to be ready after "@ + decimal(timeout_secs as nat)
                + " seconds.\nCondition: "@ + condition@ + "\n"@ + details@ + troubleshooting@,
        ReadyError::InvalidRegex(m) => "Invalid regex pattern: "@ + m@,
        ReadyError::HttpError(m) => "HTTP request failed: "@ + m@,
    }
}

impl ReadyError {
    /// Display text, such as `Timeout waiting for service 'db' to be ready
    /// after 30 seconds.` followed by the condition, the details and the
    /// troubleshooting advice.
    pub fn to_string(&self) -> (r: String)
        ensures
            r@ == ready_error_text(*self),
    {
        let mut r = String::new();
        match self {
            ReadyError::Timeout { service, timeout_secs, condition, details, troubleshooting } => {
                r.append("Timeout waiting for service '");
                r.append(service.as_str());
                r.append("' to be ready after ");
                let d = u64_to_decimal(*timeout_secs);
                r.append(d.as_str());
                r.append(" seconds.\nCondition: ");
                r.append(condition.as_str());
                r.append("\n");
                r.append(details.as_str());
                r.append(troubleshooting.as_str());
            },
            ReadyError::InvalidRegex(m) => {
                r.append("Invalid regex pattern: ");
                r.append(m.as_str());
            },
            ReadyError::HttpError(m) => {
                r.append("HTTP request failed: ");
                r.append(m.as_str());
            },
        }
        proof {
            assert(r@ =~= ready_error_text(*self));
        }
        r
    }
}

/// Tracks readiness per service.
pub struct ReadyWatcher {
    conditions: Vec<(String, ReadyCondition)>,
    ready_services: Vec<String>,
    default_timeout: std::time::Duration,
}

/// The names are pairwise distinct.
pub open spec fn distinct(names: Seq<Seq<char>>) -> bool {
    forall|i: int, j: int| 0 <= i < names.len() && 0 <= j < names.len() && i != j ==> names[i] != names[j]
}

impl ReadyWatcher {
    /// The services marked ready.
    pub closed spec fn ready(&self) -> Set<Seq<char>> {
        self.ready_services@.map_values(|s: String| s@).to_set()
    }

    /// The conditions being watched, by service.
    pub closed spec fn conditions(&self) -> Seq<(String, ReadyCondition)> {
        self.conditions@
    }

    /// The timeout used when none is given.
    pub closed spec fn timeout(&self) -> std::time::Duration {
        self.default_timeout
    }

    /// Each ready service is recorded once.
    pub closed spec fn wf(&self) -> bool {
        distinct(self.ready_services@.map_values(|s: String| s@))
    }

    /// No service ready, no condition watched.
    pub fn new(default_timeout: std::time::Duration) -> (r: Self)
        ensures
            r.wf(),
            r.ready() == Set::<Seq<char>>::empty(),
            r.conditions() == Seq::<(String, ReadyCondition)>::empty(),
            r.timeout() == default_timeout,
    {
        let r = ReadyWatcher { conditions: Vec::new(), ready_services: Vec::new(), default_timeout };
        assert(r.ready_services@.map_values(|s: String| s@) =~= Seq::<Seq<char>>::empty());
        assert(r.ready() =~= Set::<Seq<char>>::empty());
        r
    }

    /// The same watcher with another default timeout.
    pub fn with_timeout(self, timeout: std::time::Duration) -> (r: Self)
        ensures
            r.ready() == self.ready(),
            r.conditions() == self.conditions(),
            r.wf() == self.wf(),
            r.timeout() == timeout,
    {
        ReadyWatcher { conditions: self.conditions, ready_services: self.ready_services, default_timeout: timeout }
    }

    /// Sets the default timeout.
    pub fn set_timeout(&mut self, timeout: std::time::Duration)
        ensures
            final(self).ready() == old(self).ready(),
            final(self).conditions() == old(self).conditions(),
            final(self).wf() == old(self).wf(),
            final(self).timeout() == timeout,
    {
        self.default_timeout = timeout;
    }

    /// The default timeout.
    pub fn get_timeout(&self) -> (r: std::time::Duration)
        ensures
            r == self.timeout(),
    {
        self.default_timeout
    }

    /// The timeout to wait with: the one given, else the default.
    pub fn resolve_timeout(&self, custom: Option<std::time::Duration>) -> (r: std::time::Duration)
        ensures
            r == match custom {
                Some(d) => d,
                None => self.timeout(),
            },
    {
        match custom {
            Some(d) => d,
            None => self.default_timeout,
        }
    }

    fn position(&self, service_name: &str) -> (r: Option<usize>)
        ensures
            match r {
                Some(i) => i < self.ready_services@.len() && self.ready_services@[i as int]@ == service_name@,
                None => !self.ready().contains(service_name@),
            },
    {
        let mut i: usize = 0;
        while i < self.ready_services.len()
            invariant
                i <= self.ready_services@.len(),
                forall|j: int| 0 <= j < i ==> self.ready_services@[j]@ != service_name@,
            decreases self.ready_services@.len() - i,
        {
            if str_eq(self.ready_services[i].as_str(), service_name) {
                return Some(i);
            }
            i = i + 1;
        }
        proof {
            if self.ready().contains(service_name@) {
                let views = self.ready_services@.map_values(|s: String| s@);
                let j = choose|j: int| 0 <= j < views.len() && views[j] == service_name@;
                assert(self.ready_services@[j]@ == service_name@);
            }
        }
        None
    }

    /// Whether a service is marked ready.
    pub fn is_ready(&self, service_name: &str) -> (r: bool)
        ensures
            r == self.ready().contains(service_name@),
    {
        match self.position(service_name) {
            Some(i) => {
                assert(self.ready_services@.map_values(|s: String| s@)[i as int] == service_name@);
                true
            },
            None => false,
        }
    }

    /// Marks a service ready.
    pub fn mark_ready(&mut self, service_name: &str)
        requires
            old(self).wf(),
        ensures
            final(self).wf(),
            final(self).ready() == old(self).ready().insert(service_name@),
            final(self).conditions() == old(self).conditions(),
            final(self).timeout() == old(self).timeout(),
    {
        let ghost before = self.ready_services@.map_values(|s: String| s@);
        match self.position(service_name) {
            Some(i) => {
                assert(before[i as int] == service_name@);
                assert(self.ready() =~= self.ready().insert(service_name@));
            },
            None => {
                self.ready_services.push(String::from_str(service_name));
                let ghost after = self.ready_services@.map_values(|s: String| s@);
                assert(after =~= before.push(service_name@));
                assert(after.to_set() =~= before.to_set().insert(service_name@)) by {
                    assert forall|x: Seq<char>| after.to_set().contains(x) <==> before.to_set().insert(service_name@).contains(x) by {
                        if after.to_set().contains(x) {
                            let j = choose|j: int| 0 <= j < after.len() && after[j] == x;
                            if j < before.len() {
                                assert(before[j] == x);
                            }
                        }
                        if before.to_set().contains(x) {
                            let j = choose|j: int| 0 <= j < before.len() && before[j] == x;
                            assert(after[j] == x);
                        }
                        if x == service_name@ {
                            assert(after[before.len() as int] == x);
                        }
                    }
                }
                assert(distinct(after)) by {
                    assert forall|a: int, b: int| 0 <= a < after.len() && 0 <= b < after.len() && a != b implies after[a] != after[b] by {
                        if a < before.len() && b < before.len() {
                        } else if a < before.len() {
                            assert(before.to_set().contains(before[a]));
                        } else {
                            assert(before.to_set().contains(before[b]));
                        }
                    }
                }
            },
        }
    }

    /// Forgets that a service is ready and which condition it was watched
    /// with.
    pub fn reset_service(&mut self, service_name: &str)
        requires
            old(self).wf(),
        ensures
            final(self).wf(),
            final(self).ready() == old(self).ready().remove(service_name@),
            forall|i: int|
                0 <= i < final(self).conditions().len() ==> #[trigger] final(self).conditions()[i].0@ != service_name@,
            forall|i: int|
                0 <= i < old(self).conditions().len() && old(self).conditions()[i].0@ != service_name@
                    ==> final(self).conditions().contains(#[trigger] old(self).conditions()[i]),
            final(self).timeout() == old(self).timeout(),
    {
        let ghost before = self.ready_services@.map_values(|s: String| s@);
        match self.position(service_name) {
            Some(i) => {
                let _ = self.ready_services.remove(i);
                let ghost after = self.ready_services@.map_values(|s: String| s@);
                assert(after =~= before.remove(i as int));
                assert(after.to_set() =~= before.to_set().remove(service_name@)) by {
                    assert forall|x: Seq<char>| after.to_set().contains(x) <==> before.to_set().remove(service_name@).contains(x) by {
                        if after.to_set().contains(x) {
                            let j = choose|j: int| 0 <= j < after.len() && after[j] == x;
                            assert(before[i as int] == service_name@);
                            if j < i {
                                assert(before[j] == x);
                                assert(before[j] != before[i as int]);
                            } else {
                                assert(before[j + 1] == x);
                                assert(before[j + 1] != before[i as int]);
                            }
                        }
                        if before.to_set().remove(service_name@).contains(x) {
                            let j = choose|j: int| 0 <= j < before.len() && before[j] == x;
                            if j < i {
                                assert(after[j] == x);
                            } else if j > i {
                                assert(after[j - 1] == x);
                            }
                        }
                    }
                }
                assert(distinct(after)) by {
                    assert forall|a: int, b: int| 0 <= a < after.len() && 0 <= b < after.len() && a != b implies after[a] != after[b] by {
                        let a2 = if a < i { a } else { a + 1 };
                        let b2 = if b < i { b } else { b + 1 };
                        assert(after[a] == before[a2] && after[b] == before[b2]);
                    }
                }
            },
            None => {
                assert(self.ready() =~= self.ready().remove(service_name@));
            },
        }
        let ghost cbefore = self.conditions@;
        let mut kept: Vec<(String, ReadyCondition)> = Vec::new();
        let mut k: usize = 0;
        while k < self.conditions.len()
            invariant
                self.conditions@ == cbefore,
                k <= cbefore.len(),
                forall|j: int| 0 <= j < kept@.len() ==> #[trigger] kept@[j].0@ != service_name@,
                forall|j: int| 0 <= j < k && cbefore[j].0@ != service_name@ ==> kept@.contains(#[trigger] cbefore[j]),
            decreases cbefore.len() - k,
        {
            if !str_eq(self.conditions[k].0.as_str(), service_name) {
                let name = self.conditions[k].0.clone();
                let cond = self.conditions[k].1.clone();
                let ghost before_kept = kept@;
                kept.push((name, cond));
                proof {
                    assert(kept@[before_kept.len() as int] == cbefore[k as int]);
                    assert forall|j: int| 0 <= j < k + 1 && cbefore[j].0@ != service_name@ implies kept@.contains(#[trigger] cbefore[j]) by {
                        if j < k {
                            let m = choose|m: int| 0 <= m < before_kept.len() && before_kept[m] == cbefore[j];
                            assert(kept@[m] == cbefore[j]);
                        }
                    }
                }
            }
            k = k + 1;
        }
        self.conditions = kept;
    }

    /// Forgets all readiness and conditions.
    pub fn reset_all(&mut self)
        ensures
            final(self).wf(),
            final(self).ready() == Set::<Seq<char>>::empty(),
            final(self).conditions() == Seq::<(String, ReadyCondition)>::empty(),
            final(self).timeout() == old(self).timeout(),
    {
        self.ready_services = Vec::new();
        self.conditions = Vec::new();
        assert(self.ready_services@.map_values(|s: String| s@) =~= Seq::<Seq<char>>::empty());
        assert(self.ready() =~= Set::<Seq<char>>::empty());
    }

    /// Number of services marked ready.
    pub fn ready_count(&self) -> (r: usize)
        requires
            self.wf(),
        ensures
            r == self.ready().len(),
    {
        proof {
            let v = self.ready_services@.map_values(|s: String| s@);
            v.unique_seq_to_set();
        }
        self.ready_services.len()
    }

    /// Number of services with a condition being watched.
    pub fn condition_count(&self) -> (r: usize)
        ensures
            r == self.conditions().len(),
    {
        self.conditions.len()
    }

    /// Starts watching a service: records its condition (replacing an
    /// earlier one) and returns the timeout to wait with.
    pub fn begin_watch(
        &mut self,
        service_name: String,
        condition: ReadyCondition,
        custom_timeout: Option<std::time::Duration>,
    ) -> (r: std::time::Duration)
        requires
            old(self).wf(),
        ensures
            final(self).wf(),
            final(self).ready() == old(self).ready(),
            final(self).timeout() == old(self).timeout(),
            r == match custom_timeout {
                Some(d) => d,
                None => old(self).timeout(),
            },
            match first_index(key_seq(old(self).conditions()), service_name@) {
                Some(i) => final(self).conditions() == old(self).conditions().update(i, (service_name, condition)),
                None => final(self).conditions() == old(self).conditions().push((service_name, condition)),
            },
    {
        proof {
            lemma_first_index(key_seq(self.conditions@), service_name@);
        }
        match find_key(&self.conditions, service_name.as_str()) {
            Some(i) => {
                self.conditions.set(i, (service_name, condition));
            },
            None => {
                self.conditions.push((service_name, condition));
            },
        }
        self.resolve_timeout(custom_timeout)
    }

    /// A log line arrived while watching for `pattern`: a matching line
    /// marks the service ready. A pattern that does not compile is an
    /// error.
    pub fn observe_log_line(&mut self, service_name: &str, pattern: &str, line: &str) -> (r: Result<bool, ReadyError>)
        requires
            old(self).wf(),
        ensures
            final(self).wf(),
            final(self).conditions() == old(self).conditions(),
            final(self).timeout() == old(self).timeout(),
            match regex_compile_error(pattern@, false) {
                Some(m) => r matches Err(ReadyError::InvalidRegex(x)) && x@ == m && final(self).ready() == old(self).ready(),
                None => if regex_is_match(pattern@, false, line@) {
                    r == Ok::<bool, ReadyError>(true) && final(self).ready() == old(self).ready().insert(service_name@)
                } else {
                    r == Ok::<bool, ReadyError>(false) && final(self).ready() == old(self).ready()
                },
            },
    {
        match regex_search(pattern, false, line) {
            Err(m) => Err(ReadyError::InvalidRegex(m)),
            Ok(found) => {
                if found {
                    self.mark_ready(service_name);
                }
                Ok(found)
            },
        }
    }

    /// An HTTP check of the service's URL answered: a success status marks
    /// the service ready.
    pub fn observe_url_response(&mut self, service_name: &str, success: bool)
        requires
            old(self).wf(),
        ensures
            final(self).wf(),
            final(self).conditions() == old(self).conditions(),
            final(self).timeout() == old(self).timeout(),
            final(self).ready() == if success { old(self).ready().insert(service_name@) } else { old(self).ready() },
    {
        if success {
            self.mark_ready(service_name);
        }
    }
}

/// The most log lines a timeout error quotes.
pub const TIMEOUT_LOG_LINES: usize = 10;

/// How a timeout error names the condition.
pub open spec fn condition_summary(c: ReadyCondition) -> Seq<char> {
    match c {
        ReadyCondition::LogContains { pattern, .. } => "log_contains pattern: '"@ + pattern@ + "'"@,
        ReadyCondition::UrlResponds { url, .. } => "url_responds url: '"@ + url@ + "'"@,
    }
}

/// Each line indented by two spaces and ended by a newline.
pub open spec fn indented_lines(lines: Seq<Seq<char>>) -> Seq<char>
    decreases lines.len(),
{
    if lines.len() == 0 {
        Seq::empty()
    } else {
        indented_lines(lines.drop_last()) + "  "@ + lines.last() + "\n"@
    }
}

/// The last `n` lines (all of them when there are fewer).
pub open spec fn last_lines(lines: Seq<Seq<char>>, n: nat) -> Seq<Seq<char>> {
    if lines.len() <= n {
        lines
    } else {
        lines.subrange(lines.len() - n, lines.len() as int)
    }
}

/// What a timeout error reports was seen while waiting: for a log pattern,
/// the last lines received (at most ten) or that none came; for a URL, how
/// many requests were made.
pub open spec fn timeout_details(c: ReadyCondition, lines: Seq<Seq<char>>, attempts: nat) -> Seq<char> {
    match c {
        ReadyCondition::LogContains { .. } => if lines.len() == 0 {
            "No log output received before the timeout.\n"@
        } else {
            "Last "@ + decimal(last_lines(lines, 10).len()) + " log lines:\n"@ + indented_lines(last_lines(lines, 10))
        },
        ReadyCondition::UrlResponds { url, .. } => "Made "@ + decimal(attempts) + " connection attempts to "@ + url@
            + "; none answered with a success status.\n"@,
    }
}

/// What a timeout error advises to check.
pub open spec fn timeout_troubleshooting(c: ReadyCondition) -> Seq<char> {
    match c {
        ReadyCondition::LogContains { pattern, .. } =>
            "Troubleshooting:\n- Check that the service prints a line matching the pattern '"@ + pattern@
                + "'\n- Check the log lines above for errors\n- Raise the limit with 'timeout_seconds' in ready_when\n"@,
        ReadyCondition::UrlResponds { url, .. } =>
            "Troubleshooting:\n- Check that the service is listening at '"@ + url@
                + "'\n- Check that the URL answers with a success (2xx) status\n- Raise the limit with 'timeout_seconds' in ready_when\n"@,
    }
}

/// The text of the lines of `lines` from `start` on, each indented.
fn indent_from(lines: &Vec<String>, start: usize) -> (r: String)
    requires
        start <= lines@.len(),
    ensures
        r@ == indented_lines(lines@.map_values(|s: String| s@).subrange(start as int, lines@.len() as int)),
{
    let ghost all = lines@.map_values(|s: String| s@);
    let mut r = String::new();
    let mut i: usize = start;
    while i < lines.len()
        invariant
            start <= i <= lines@.len(),
            all == lines@.map_values(|s: String| s@),
            r@ == indented_lines(all.subrange(start as int, i as int)),
        decreases lines@.len() - i,
    {
        r.append("  ");
        r.append(lines[i].as_str());
        r.append("\n");
        proof {
            let next = all.subrange(start as int, i + 1);
            assert(next.drop_last() =~= all.subrange(start as int, i as int));
            assert(next.last() == lines@[i as int]@);
        }
        i = i + 1;
    }
    r
}

/// The error for a service that did not become ready within `timeout_secs`
/// seconds under `condition`, having received `lines` (for a log pattern)
/// or made `attempts` requests (for a URL).
pub fn timeout_error(
    service_name: &str,
    condition: &ReadyCondition,
    timeout_secs: u64,
    lines: &Vec<String>,
    attempts: u64,
) -> (r: ReadyError)
    ensures
        r matches ReadyError::Timeout { service, timeout_secs: t, condition: c, details, troubleshooting } && service@
            == service_name@ && t == timeout_secs && c@ == condition_summary(*condition) && details@ == timeout_details(
            *condition,
            lines@.map_values(|s: String| s@),
            attempts as nat,
        ) && troubleshooting@ == timeout_troubleshooting(*condition),
{
    let ghost all = lines@.map_values(|s: String| s@);
    let mut summary = String::new();
    let mut details = String::new();
    let mut advice = String::new();
    match condition {
        ReadyCondition::LogContains { pattern, .. } => {
            summary.append("log_contains pattern: '");
            summary.append(pattern.as_str());
            summary.append("'");
            if lines.len() == 0 {
                details.append("No log output received before the timeout.\n");
            } else {
                let start: usize = if lines.len() > TIMEOUT_LOG_LINES {
                    lines.len() - TIMEOUT_LOG_LINES
                } else {
                    0
                };
                let shown = indent_from(lines, start);
                details.append("Last ");
                let count = u64_to_decimal((lines.len() - start) as u64);
                details.append(count.as_str());
                details.append(" log lines:\n");
                details.append(shown.as_str());
                proof {
                    if all.len() <= 10 {
                        assert(all.subrange(0, all.len() as int) =~= all);
                    }
                    assert(last_lines(all, 10) == all.subrange(start as int, all.len() as int));
                }
            }
            advice.append("Troubleshooting:\n- Check that the service prints a line matching the pattern '");
            advice.append(pattern.as_str());
            advice.append("'\n- Check the log lines above for errors\n- Raise the limit with 'timeout_seconds' in ready_when\n");
        },
        ReadyCondition::UrlResponds { url, .. } => {
            summary.append("url_responds url: '");
            summary.append(url.as_str());
            summary.append("'");
            details.append("Made ");
            let count = u64_to_decimal(attempts);
            details.append(count.as_str());
            details.append(" connection attempts to ");
            details.append(url.as_str());
            details.append("; none answered with a success status.\n");
            advice.append("Troubleshooting:\n- Check that the service is listening at '");
            advice.append(url.as_str());
            advice.append("'\n- Check that the URL answers with a success (2xx) status\n- Raise the limit with 'timeout_seconds' in ready_when\n");
        },
    }
    proof {
        assert(summary@ =~= condition_summary(*condition));
        assert(details@ =~= timeout_details(*condition, all, attempts as nat));
        assert(advice@ =~= timeout_troubleshooting(*condition));
    }
    ReadyError::Timeout {
        service: String::from_str(service_name),
        timeout_secs,
        condition: summary,
        details,
        troubleshooting: advice,
    }
}

} // verus!
