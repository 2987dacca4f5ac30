//! The `dmn.json` model: services, their dependencies and readiness
//! conditions; validation of a configuration; `.env` file parsing.

use vstd::prelude::*;
use vstd::string::*;
use crate::text::{
    decimal, is_blank, join, join_strings, push_char, starts_with, str_chars, str_eq, string_from_range, trim,
    trim_bounds, u64_to_decimal,
};
use crate::pattern::{regex_compile_error, regex_search};
use crate::dag::{
    adj_closed, adj_edge, adj_has, adj_view, has_cycle, is_cycle, is_simple_cycle, lemma_ranked_acyclic, walk_step,
};

verus! {

/// When a service counts as ready.
#[derive(Debug)]
pub enum ReadyCondition {
    /// A log line of the service matches the regular expression `pattern`.
    LogContains { pattern: String, timeout_seconds: Option<u64> },
    /// An HTTP GET of `url` answers with a success status.
    UrlResponds { url: String, timeout_seconds: Option<u64> },
}

impl Clone for ReadyCondition {
    fn clone(&self) -> (r: Self)
        ensures
            r == *self,
    {
        match self {
            ReadyCondition::LogContains { pattern, timeout_seconds } =>
                ReadyCondition::LogContains { pattern: pattern.clone(), timeout_seconds: *timeout_seconds },
            ReadyCondition::UrlResponds { url, timeout_seconds } =>
                ReadyCondition::UrlResponds { url: url.clone(), timeout_seconds: *timeout_seconds },
        }
    }
}

/// The forms a readiness condition may take in a configuration file: the
/// tagged form (`{"type": "log_contains", "pattern": ..}`) and the legacy
/// keyed forms (`{"log_contains": ..}`, `{"url_responds": ..}`).
#[derive(Debug)]
pub enum ReadyConditionRepr {
    Tagged(ReadyCondition),
    LegacyLogContains { log_contains: String, timeout_seconds: Option<u64> },
    LegacyUrlResponds { url_responds: String, timeout_seconds: Option<u64> },
}

/// The condition a file form stands for.
pub open spec fn condition_of_repr(r: ReadyConditionRepr) -> ReadyCondition {
    match r {
        ReadyConditionRepr::Tagged(c) => c,
        ReadyConditionRepr::LegacyLogContains { log_contains, timeout_seconds } =>
            ReadyCondition::LogContains { pattern: log_contains, timeout_seconds },
        ReadyConditionRepr::LegacyUrlResponds { url_responds, timeout_seconds } =>
            ReadyCondition::UrlResponds { url: url_responds, timeout_seconds },
    }
}

/// ` (timeout: <t>s)` when a timeout is given, nothing otherwise.
pub open spec fn timeout_suffix(t: Option<u64>) -> Seq<char> {
    match t {
        Some(s) => " (timeout: "@ + decimal(s as nat) + "s)"@,
        None => Seq::empty(),
    }
}

/// Display text of a readiness condition.
pub open spec fn condition_text(c: ReadyCondition) -> Seq<char> {
    match c {
        ReadyCondition::LogContains { pattern, timeout_seconds } =>
            "log_contains: '"@ + pattern@ + "'"@ + timeout_suffix(timeout_seconds),
        ReadyCondition::UrlResponds { url, timeout_seconds } =>
            "url_responds: '"@ + url@ + "'"@ + timeout_suffix(timeout_seconds),
    }
}

fn append_timeout(r: &mut String, t: Option<u64>)
    ensures
        final(r)@ == old(r)@ + timeout_suffix(t),
{
    match t {
        Some(s) => {
            r.append(" (timeout: ");
            let d = u64_to_decimal(s);
            r.append(d.as_str());
            r.append("s)");
        }
        None => {
            assert(old(r)@ + Seq::<char>::empty() =~= old(r)@);
        }
    }
}

impl ReadyCondition {
    /// The condition a file form stands for: the legacy keys name the
    /// pattern or URL directly.
    pub fn from_repr(repr: ReadyConditionRepr) -> (r: ReadyCondition)
        ensures
            r == condition_of_repr(repr),
    {
        match repr {
            ReadyConditionRepr::Tagged(c) => c,
            ReadyConditionRepr::LegacyLogContains { log_contains, timeout_seconds } =>
                ReadyCondition::LogContains { pattern: log_contains, timeout_seconds },
            ReadyConditionRepr::LegacyUrlResponds { url_responds, timeout_seconds } =>
                ReadyCondition::UrlResponds { url: url_responds, timeout_seconds },
        }
    }

    /// The timeout the condition carries, if any.
    pub fn timeout_seconds(&self) -> (r: Option<u64>)
        ensures
            r == match *self {
                ReadyCondition::LogContains { timeout_seconds, .. } => timeout_seconds,
                ReadyCondition::UrlResponds { timeout_seconds, .. } => timeout_seconds,
            },
    {
        match self {
            ReadyCondition::LogContains { timeout_seconds, .. } => *timeout_seconds,
            ReadyCondition::UrlResponds { timeout_seconds, .. } => *timeout_seconds,
        }
    }

    /// Display text, such as `log_contains: 'Started' (timeout: 120s)`.
    pub fn to_string(&self) -> (r: String)
        ensures
            r@ == condition_text(*self),
    {
        let mut r = String::new();
        match self {
            ReadyCondition::LogContains { pattern, timeout_seconds } => {
                r.append("log_contains: '");
                r.append(pattern.as_str());
                r.append("'");
                append_timeout(&mut r, *timeout_seconds);
            }
            ReadyCondition::UrlResponds { url, timeout_seconds } => {
                r.append("url_responds: '");
                r.append(url.as_str());
                r.append("'");
                append_timeout(&mut r, *timeout_seconds);
            }
        }
        assert(r@ =~= condition_text(*self));
        r
    }
}

/// One service of a configuration.
#[derive(Debug)]
pub struct ServiceConfig {
    pub command: String,
    pub depends_on: Vec<String>,
    pub ready_when: Option<ReadyCondition>,
    pub env_file: Option<String>,
}

/// The dependency names of a service, as character sequences.
pub open spec fn dep_names(s: ServiceConfig) -> Seq<Seq<char>> {
    s.depends_on@.map_values(|d: String| d@)
}

fn clone_strings(v: &Vec<String>) -> (r: Vec<String>)
    ensures
        r@ == v@,
{
    let mut r: Vec<String> = Vec::new();
    let mut i: usize = 0;
    while i < v.len()
        invariant
            i <= v@.len(),
            r@ == v@.subrange(0, i as int),
        decreases v@.len() - i,
    {
        r.push(v[i].clone());
        i = i + 1;
    }
    assert(v@.subrange(0, v@.len() as int) =~= v@);
    r
}

impl Clone for ServiceConfig {
    fn clone(&self) -> (r: Self)
        ensures
            r.command == self.command,
            r.depends_on@ == self.depends_on@,
            r.ready_when == self.ready_when,
            r.env_file == self.env_file,
    {
        ServiceConfig {
            command: self.command.clone(),
            depends_on: clone_strings(&self.depends_on),
            ready_when: match &self.ready_when {
                Some(c) => Some(c.clone()),
                None => None,
            },
            env_file: match &self.env_file {
                Some(e) => Some(e.clone()),
                None => None,
            },
        }
    }
}

/// `'a', 'b', 'c'` for the names `a`, `b`, `c`.
pub open spec fn quoted_list(names: Seq<Seq<char>>) -> Seq<char>
    decreases names.len(),
{
    if names.len() == 0 {
        Seq::empty()
    } else if names.len() == 1 {
        "'"@ + names[0] + "'"@
    } else {
        quoted_list(names.drop_last()) + ", "@ + "'"@ + names.last() + "'"@
    }
}

/// Display text of a service.
pub open spec fn service_text(s: ServiceConfig) -> Seq<char> {
    "ServiceConfig { command: '"@ + s.command@ + "', depends_on: ["@ + quoted_list(dep_names(s)) + "]"@
        + match s.ready_when {
            Some(c) => ", ready_when: "@ + condition_text(c),
            None => Seq::empty(),
        }
        + match s.env_file {
            Some(e) => ", env_file: '"@ + e@ + "'"@,
            None => Seq::empty(),
        }
        + " }"@
}

impl ServiceConfig {
    /// Display text, such as
    /// `ServiceConfig { command: 'npm start', depends_on: ['db'], env_file: '.env' }`.
    pub fn to_string(&self) -> (r: String)
        ensures
            r@ == service_text(*self),
    {
        let mut r = String::new();
        r.append("ServiceConfig { command: '");
        r.append(self.command.as_str());
        r.append("', depends_on: [");
        let ghost names = dep_names(*self);
        let ghost start = r@;
        let mut i: usize = 0;
        while i < self.depends_on.len()
            invariant
                names == dep_names(*self),
                i <= self.depends_on@.len(),
                r@ == start + quoted_list(names.take(i as int)),
            decreases self.depends_on@.len() - i,
        {
            proof {
                assert(names.take(i + 1).drop_last() =~= names.take(i as int));
            }
            if i > 0 {
                r.append(", ");
            } else {
                assert(names.take(0) =~= Seq::<Seq<char>>::empty());
            }
            r.append("'");
            r.append(self.depends_on[i].as_str());
            r.append("'");
            proof {
                if i == 0 {
                    assert(names.take(1) =~= seq![names[0]]);
                }
            }
            i = i + 1;
        }
        assert(names.take(self.depends_on@.len() as int) =~= names);
        r.append("]");
        let ghost mid = r@;
        match &self.ready_when {
            Some(c) => {
                r.append(", ready_when: ");
                let t = c.to_string();
                r.append(t.as_str());
            }
            None => {}
        }
        let ghost mid2 = r@;
        match &self.env_file {
            Some(e) => {
                r.append(", env_file: '");
                r.append(e.as_str());
                r.append("'");
            }
            None => {}
        }
        r.append(" }");
        assert(r@ =~= service_text(*self));
        r
    }
}

/// Services by name, in insertion order, each name at most once.
#[derive(Debug)]
pub struct ServiceMap {
    entries: Vec<(String, ServiceConfig)>,
}

/// Whether the names of `e` are pairwise distinct.
pub open spec fn unique_names(e: Seq<(String, ServiceConfig)>) -> bool {
    forall|i: int, j: int|
        0 <= i < e.len() && 0 <= j < e.len() && i != j ==> #[trigger] e[i].0@ != #[trigger] e[j].0@
}

/// The names of `e`, in order.
pub open spec fn names_of(e: Seq<(String, ServiceConfig)>) -> Seq<Seq<char>> {
    e.map_values(|p: (String, ServiceConfig)| p.0@)
}

/// Whether `name` is one of the names of `e`.
pub open spec fn has_name(e: Seq<(String, ServiceConfig)>, name: Seq<char>) -> bool {
    exists|i: int| 0 <= i < e.len() && e[i].0@ == name
}

impl ServiceMap {
    /// The entries, in insertion order.
    pub closed spec fn entries(&self) -> Seq<(String, ServiceConfig)> {
        self.entries@
    }

    /// Each name occurs once.
    pub open spec fn wf(&self) -> bool {
        unique_names(self.entries())
    }

    /// No services.
    pub fn new() -> (r: Self)
        ensures
            r.wf(),
            r.entries() == Seq::<(String, ServiceConfig)>::empty(),
    {
        ServiceMap { entries: Vec::new() }
    }

    /// Adds a service, or replaces the configuration of a service of the
    /// same name in place.
    pub fn insert(&mut self, name: String, config: ServiceConfig)
        requires
            old(self).wf(),
        ensures
            final(self).wf(),
            has_name(old(self).entries(), name@) ==> exists|i: int|
                0 <= i < old(self).entries().len() && old(self).entries()[i].0@ == name@
                && final(self).entries() == old(self).entries().update(i, (name, config)),
            !has_name(old(self).entries(), name@) ==> final(self).entries()
                == old(self).entries().push((name, config)),
    {
        let ghost old_e = self.entries@;
        match self.position(name.as_str()) {
            Some(i) => {
                self.entries.set(i, (name, config));
                proof {
                    let e = self.entries@;
                    assert(old_e[i as int].0@ == name@);
                    assert(e == old_e.update(i as int, (name, config)));
                    assert forall|a: int, b: int|
                        0 <= a < e.len() && 0 <= b < e.len() && a != b
                        implies #[trigger] e[a].0@ != #[trigger] e[b].0@ by {
                        assert(e[a].0@ == old_e[a].0@);
                        assert(e[b].0@ == old_e[b].0@);
                    }
                }
            }
            None => {
                self.entries.push((name, config));
                proof {
                    let e = self.entries@;
                    assert forall|a: int, b: int|
                        0 <= a < e.len() && 0 <= b < e.len() && a != b
                        implies #[trigger] e[a].0@ != #[trigger] e[b].0@ by {
                        if a < old_e.len() && b < old_e.len() {
                            assert(e[a] == old_e[a]);
                            assert(e[b] == old_e[b]);
                        } else if a < old_e.len() {
                            assert(e[a] == old_e[a]);
                        } else {
                            assert(e[b] == old_e[b]);
                        }
                    }
                }
            }
        }
    }

    /// Index of the service named `name`.
    pub fn position(&self, name: &str) -> (r: Option<usize>)
        requires
            self.wf(),
        ensures
            match r {
                Some(i) => i < self.entries().len() && self.entries()[i as int].0@ == name@,
                None => !has_name(self.entries(), name@),
            },
    {
        let mut i: usize = 0;
        while i < self.entries.len()
            invariant
                i <= self.entries@.len(),
                forall|j: int| 0 <= j < i ==> self.entries@[j].0@ != name@,
            decreases self.entries@.len() - i,
        {
            if str_eq(self.entries[i].0.as_str(), name) {
                return Some(i);
            }
            i = i + 1;
        }
        None
    }

    /// The configuration of the service named `name`.
    pub fn get(&self, name: &str) -> (r: Option<&ServiceConfig>)
        requires
            self.wf(),
        ensures
            match r {
                Some(c) => exists|i: int|
                    0 <= i < self.entries().len() && self.entries()[i].0@ == name@
                    && self.entries()[i].1 == *c,
                None => !has_name(self.entries(), name@),
            },
    {
        match self.position(name) {
            Some(i) => Some(&self.entries[i].1),
            None => None,
        }
    }

    /// Whether a service is named `name`.
    pub fn contains_key(&self, name: &str) -> (r: bool)
        requires
            self.wf(),
        ensures
            r == has_name(self.entries(), name@),
    {
        self.position(name).is_some()
    }

    /// Number of services.
    pub fn len(&self) -> (r: usize)
        ensures
            r == self.entries().len(),
    {
        self.entries.len()
    }

    /// Whether there are no services.
    pub fn is_empty(&self) -> (r: bool)
        ensures
            r == (self.entries().len() == 0),
    {
        self.entries.len() == 0
    }

    /// The entries, in insertion order.
    pub fn as_slice(&self) -> (r: &[(String, ServiceConfig)])
        ensures
            r@ == self.entries(),
    {
        self.entries.as_slice()
    }

    /// The service names, in insertion order.
    pub fn keys(&self) -> (r: Vec<String>)
        ensures
            r@.map_values(|s: String| s@) == names_of(self.entries()),
    {
        let mut r: Vec<String> = Vec::new();
        let mut i: usize = 0;
        while i < self.entries.len()
            invariant
                i <= self.entries@.len(),
                r@.len() == i,
                forall|j: int| 0 <= j < i ==> #[trigger] r@[j]@ == self.entries@[j].0@,
            decreases self.entries@.len() - i,
        {
            r.push(self.entries[i].0.clone());
            i = i + 1;
        }
        assert(r@.map_values(|s: String| s@) =~= names_of(self.entries@));
        r
    }
}

/// A configuration: a version string and the services.
#[derive(Debug)]
pub struct DmnConfig {
    pub version: String,
    pub services: ServiceMap,
}

/// The service lines of the display text, from entry `i` on.
pub open spec fn services_text(e: Seq<(String, ServiceConfig)>) -> Seq<char>
    decreases e.len(),
{
    if e.len() == 0 {
        Seq::empty()
    } else {
        services_text(e.drop_last()) + "    '"@ + e.last().0@ + "': "@ + service_text(e.last().1) + "\n"@
    }
}

/// Display text of a configuration.
pub open spec fn config_text(c: DmnConfig) -> Seq<char> {
    "DmnConfig {\n"@ + "  version: '"@ + c.version@ + "'\n"@ + "  services: {\n"@
        + services_text(c.services.entries()) + "  }\n}"@
}

impl DmnConfig {
    /// Display text: the version and one line per service.
    pub fn to_string(&self) -> (r: String)
        ensures
            r@ == config_text(*self),
    {
        let mut r = String::new();
        r.append("DmnConfig {\n");
        r.append("  version: '");
        r.append(self.version.as_str());
        r.append("'\n");
        r.append("  services: {\n");
        let ghost start = r@;
        let entries = self.services.as_slice();
        let mut i: usize = 0;
        while i < entries.len()
            invariant
                entries@ == self.services.entries(),
                i <= entries@.len(),
                r@ == start + services_text(entries@.take(i as int)),
            decreases entries@.len() - i,
        {
            proof {
                assert(entries@.take(i + 1).drop_last() =~= entries@.take(i as int));
            }
            r.append("    '");
            r.append(entries[i].0.as_str());
            r.append("': ");
            let t = entries[i].1.to_string();
            r.append(t.as_str());
            r.append("\n");
            i = i + 1;
        }
        assert(entries@.take(entries@.len() as int) =~= entries@);
        r.append("  }\n}");
        assert(r@ =~= config_text(*self));
        r
    }
}


/// Why a configuration could not be loaded or accepted.
#[derive(Debug)]
pub enum ConfigError {
    /// Reading the file failed; the text is the I/O error.
    Io(String),
    /// The file is not a valid configuration; the text is the parse error.
    Json(String),
    /// The configuration breaks a rule; the text says which.
    Validation(String),
}

/// Display text of a configuration error.
pub open spec fn config_error_text(e: ConfigError) -> Seq<char> {
    match e {
        ConfigError::Io(m) => "IO error: "@ + m@,
        ConfigError::Json(m) => "JSON parse error: "@ + m@,
        ConfigError::Validation(m) => "Validation error: "@ + m@,
    }
}

impl ConfigError {
    /// Display text, such as `Validation error: version field cannot be empty`.
    pub fn to_string(&self) -> (r: String)
        ensures
            r@ == config_error_text(*self),
    {
        let mut r = String::new();
        match self {
            ConfigError::Io(m) => {
                r.append("IO error: ");
                r.append(m.as_str());
            }
            ConfigError::Json(m) => {
                r.append("JSON parse error: ");
                r.append(m.as_str());
            }
            ConfigError::Validation(m) => {
                r.append("Validation error: ");
                r.append(m.as_str());
            }
        }
        r
    }
}

/// Service `i` lists, among its dependencies, the name of service `j`.
pub open spec fn dep_has(e: Seq<(String, ServiceConfig)>, i: int, j: int) -> bool {
    &&& 0 <= i < e.len()
    &&& 0 <= j < e.len()
    &&& exists|k: int| 0 <= k < e[i].1.depends_on@.len() && #[trigger] e[i].1.depends_on@[k]@ == e[j].0@
}

/// The "depends on" relation between service indices.
pub open spec fn dep_edge(e: Seq<(String, ServiceConfig)>) -> spec_fn(int, int) -> bool {
    |i: int, j: int| dep_has(e, i, j)
}

/// Some services depend on each other in a circle.
pub open spec fn has_dependency_cycle(e: Seq<(String, ServiceConfig)>) -> bool {
    has_cycle(dep_edge(e), e.len() as int)
}

/// The message for a cycle through the services at the indices `p`:
/// `circular dependency detected: a -> b -> a`.
pub open spec fn cycle_message(e: Seq<(String, ServiceConfig)>, p: Seq<usize>) -> Seq<char> {
    "circular dependency detected: "@ + join(p.map_values(|k: usize| e[k as int].0@), " -> "@)
}

/// `err` reports a cycle of the relation `edge` among the services `e`, in
/// which no service but the first (which closes it) appears twice.
pub open spec fn reports_cycle(e: Seq<(String, ServiceConfig)>, edge: spec_fn(int, int) -> bool, err: ConfigError) -> bool {
    match err {
        ConfigError::Validation(m) => exists|p: Seq<usize>| is_simple_cycle(edge, e.len() as int, p) && m@ == cycle_message(e, p),
        _ => false,
    }
}

/// Progress of a depth-first search for a cycle.
#[derive(Clone, Copy, PartialEq, Eq, Structural, Debug)]
enum VisitState {
    Unvisited,
    Visiting,
    Visited,
}

/// Number of unvisited nodes.
spec fn unvisited_count(s: Seq<VisitState>) -> nat
    decreases s.len(),
{
    if s.len() == 0 {
        0
    } else {
        unvisited_count(s.drop_last()) + if s.last() == VisitState::Unvisited { 1nat } else { 0nat }
    }
}

proof fn lemma_count_update(s: Seq<VisitState>, i: int, x: VisitState)
    requires
        0 <= i < s.len(),
        s[i] == VisitState::Unvisited,
        x != VisitState::Unvisited,
    ensures
        unvisited_count(s.update(i, x)) + 1 == unvisited_count(s),
    decreases s.len(),
{
    let t = s.update(i, x);
    if i == s.len() - 1 {
        assert(t.drop_last() =~= s.drop_last());
    } else {
        assert(t.drop_last() =~= s.drop_last().update(i, x));
        lemma_count_update(s.drop_last(), i, x);
    }
}

proof fn lemma_count_mono(s: Seq<VisitState>, t: Seq<VisitState>)
    requires
        s.len() == t.len(),
        forall|k: int| 0 <= k < t.len() && t[k] == VisitState::Unvisited ==> s[k] == VisitState::Unvisited,
    ensures
        unvisited_count(t) <= unvisited_count(s),
    decreases s.len(),
{
    if s.len() > 0 {
        let s2 = s.drop_last();
        let t2 = t.drop_last();
        assert forall|k: int| 0 <= k < t2.len() && t2[k] == VisitState::Unvisited implies s2[k]
            == VisitState::Unvisited by {
            assert(t2[k] == t[k] && s2[k] == s[k]);
        }
        lemma_count_mono(s2, t2);
    }
}

/// The search: adjacency lists, a state per node, the nodes being visited
/// in visiting order, and (for the proof) the order in which nodes finished.
struct CycleSearch {
    adj: Vec<Vec<usize>>,
    states: Vec<VisitState>,
    stack: Vec<usize>,
    rank: Ghost<Seq<int>>,
    finished: Ghost<int>,
}

impl CycleSearch {
    spec fn graph(&self) -> Seq<Seq<usize>> {
        adj_view(self.adj)
    }

    /// Finished nodes reach only finished nodes, which finished earlier; the
    /// nodes being visited form a walk.
    spec fn inv(&self) -> bool {
        let a = self.graph();
        let n = a.len();
        let st = self.states@;
        let r = self.rank@;
        let stk = self.stack@;
        &&& adj_closed(a)
        &&& st.len() == n
        &&& r.len() == n
        &&& forall|v: int| 0 <= v < n && (#[trigger] st[v]) == VisitState::Visited ==> r[v] < self.finished@
        &&& forall|v: int, w: int|
            0 <= v < n && st[v] == VisitState::Visited && #[trigger] adj_has(a, v, w)
                ==> st[w] == VisitState::Visited && r[w] < r[v]
        &&& forall|k: int| 0 <= k < stk.len() ==> #[trigger] stk[k] < n && st[stk[k] as int] == VisitState::Visiting
        &&& forall|v: int| 0 <= v < n && (#[trigger] st[v]) == VisitState::Visiting ==> exists|k: int|
            0 <= k < stk.len() && stk[k] == v
        &&& forall|k: int| 0 <= k < stk.len() - 1 ==> #[trigger] walk_step(adj_edge(a), stk, k)
        &&& forall|k1: int, k2: int| 0 <= k1 < k2 < stk.len() ==> #[trigger] stk[k1] != #[trigger] stk[k2]
    }
}

impl DmnConfig {
    /// For each service, the indices of the services it depends on, in the
    /// order of its `depends_on` list; names that are no service are left out.
    fn dependency_lists(&self) -> (adj: Vec<Vec<usize>>)
        requires
            self.services.wf(),
        ensures
            adj_view(adj).len() == self.services.entries().len(),
            adj_closed(adj_view(adj)),
            forall|i: int, j: int| adj_has(adj_view(adj), i, j) <==> dep_has(self.services.entries(), i, j),
    {
        let entries = self.services.as_slice();
        let ghost e = self.services.entries();
        let n = entries.len();
        let mut adj: Vec<Vec<usize>> = Vec::new();
        let mut i: usize = 0;
        while i < n
            invariant
                entries@ == e,
                self.services.entries() == e,
                n == e.len(),
                unique_names(e),
                i <= n,
                adj@.len() == i,
                forall|a: int, k: int|
                    0 <= a < i && 0 <= k < adj_view(adj)[a].len() ==> #[trigger] adj_view(adj)[a][k] < n,
                forall|a: int, j: int| 0 <= a < i ==> (adj_has(adj_view(adj), a, j) <==> dep_has(e, a, j)),
            decreases n - i,
        {
            let deps = &entries[i].1.depends_on;
            let mut list: Vec<usize> = Vec::new();
            let mut m: usize = 0;
            while m < deps.len()
                invariant
                    entries@ == e,
                    self.services.entries() == e,
                    n == e.len(),
                    unique_names(e),
                    i < n,
                    deps@ == e[i as int].1.depends_on@,
                    m <= deps@.len(),
                    forall|k: int| 0 <= k < list@.len() ==> #[trigger] list@[k] < n && exists|mm: int|
                        0 <= mm < m && deps@[mm]@ == e[list@[k] as int].0@,
                    forall|mm: int, j: int|
                        0 <= mm < m && 0 <= j < n && #[trigger] deps@[mm]@ == #[trigger] e[j].0@ ==> exists|k: int|
                            0 <= k < list@.len() && list@[k] == j,
                decreases deps@.len() - m,
            {
                let found = self.services.position(deps[m].as_str());
                let ghost before = list@;
                match found {
                    Some(j) => {
                        list.push(j);
                        proof {
                            assert forall|mm: int, jj: int|
                                0 <= mm < m + 1 && 0 <= jj < n && #[trigger] deps@[mm]@ == #[trigger] e[jj].0@
                                implies exists|k: int| 0 <= k < list@.len() && list@[k] == jj by {
                                if mm == m {
                                    assert(e[j as int].0@ == e[jj].0@);
                                    assert(list@[before.len() as int] == j);
                                } else {
                                    let k = choose|k: int| 0 <= k < before.len() && before[k] == jj;
                                    assert(list@[k] == jj);
                                }
                            }
                            assert forall|k: int| 0 <= k < list@.len() implies #[trigger] list@[k] < n
                                && exists|mm: int| 0 <= mm < m + 1 && deps@[mm]@ == e[list@[k] as int].0@ by {
                                if k < before.len() {
                                    assert(list@[k] == before[k]);
                                } else {
                                    assert(deps@[m as int]@ == e[list@[k] as int].0@);
                                }
                            }
                        }
                    }
                    None => {
                        proof {
                            assert forall|mm: int, jj: int|
                                0 <= mm < m + 1 && 0 <= jj < n && #[trigger] deps@[mm]@ == #[trigger] e[jj].0@
                                implies exists|k: int| 0 <= k < list@.len() && list@[k] == jj by {
                                if mm == m {
                                    assert(!has_name(e, deps@[m as int]@));
                                    assert(e[jj].0@ == deps@[m as int]@);
                                }
                            }
                        }
                    }
                }
                m = m + 1;
            }
            let ghost prev = adj_view(adj);
            adj.push(list);
            proof {
                let a = adj_view(adj);
                assert(a =~= prev.push(list@));
                assert forall|j: int| adj_has(a, i as int, j) <==> dep_has(e, i as int, j) by {
                    if adj_has(a, i as int, j) {
                        let k = choose|k: int| 0 <= k < a[i as int].len() && a[i as int][k] == j;
                        assert(list@[k] < n);
                        let mm = choose|mm: int| 0 <= mm < m && deps@[mm]@ == e[list@[k] as int].0@;
                        assert(e[i as int].1.depends_on@[mm]@ == e[j].0@);
                    }
                    if dep_has(e, i as int, j) {
                        let mm = choose|mm: int|
                            0 <= mm < e[i as int].1.depends_on@.len() && #[trigger] e[i as int].1.depends_on@[mm]@
                                == e[j].0@;
                        assert(deps@[mm]@ == e[j].0@);
                        let k = choose|k: int| 0 <= k < list@.len() && list@[k] == j;
                        assert(a[i as int][k] == j);
                    }
                }
                assert forall|b: int, j: int| 0 <= b < i + 1 implies (adj_has(a, b, j) <==> dep_has(e, b, j)) by {
                    if b < i {
                        assert(a[b] == prev[b]);
                        assert(adj_has(prev, b, j) == adj_has(a, b, j));
                    }
                }
                assert forall|b: int, k: int| 0 <= b < i + 1 && 0 <= k < a[b].len() implies #[trigger] a[b][k] < n by {
                    if b < i {
                        assert(a[b] == prev[b]);
                    }
                }
            }
            i = i + 1;
        }
        adj
    }
}


impl DmnConfig {
    /// The error for the cycle closed by an edge from the top of the stack
    /// back to `w`, which is on the stack: the stack from `w` on, then `w`.
    fn cycle_error_at(&self, search: &CycleSearch, w: usize) -> (err: ConfigError)
        requires
            search.inv(),
            search.graph().len() == self.services.entries().len(),
            search.stack@.len() > 0,
            w < search.states@.len(),
            search.states@[w as int] == VisitState::Visiting,
            adj_has(search.graph(), search.stack@.last() as int, w as int),
        ensures
            reports_cycle(self.services.entries(), adj_edge(search.graph()), err),
    {
        let ghost e = self.services.entries();
        let ghost a = search.graph();
        let stack = &search.stack;
        let len = stack.len();
        let mut pos: usize = 0;
        while stack[pos] != w
            invariant
                search.inv(),
                len == stack@.len(),
                stack@ == search.stack@,
                a == search.graph(),
                w < a.len(),
                search.states@[w as int] == VisitState::Visiting,
                pos < stack@.len(),
                exists|k: int| pos <= k < stack@.len() && stack@[k] == w,
            decreases stack@.len() - pos,
        {
            pos = pos + 1;
        }
        let mut path: Vec<usize> = Vec::new();
        let mut j: usize = pos;
        while j < stack.len()
            invariant
                pos <= j <= stack@.len(),
                path@ == stack@.subrange(pos as int, j as int),
            decreases stack@.len() - j,
        {
            path.push(stack[j]);
            j = j + 1;
        }
        path.push(w);
        let ghost p = path@;
        proof {
            let len = stack@.len();
            assert(p =~= stack@.subrange(pos as int, len as int).push(w));
            assert forall|m: int| 0 <= m < p.len() implies #[trigger] p[m] < a.len() by {
                if m < len - pos {
                    assert(p[m] == stack@[pos + m]);
                }
            }
            assert forall|m: int| 0 <= m < p.len() - 1 implies #[trigger] walk_step(adj_edge(a), p, m) by {
                if m < len - pos - 1 {
                    assert(walk_step(adj_edge(a), stack@, pos + m));
                    assert(p[m] == stack@[pos + m] && p[m + 1] == stack@[pos + m + 1]);
                } else {
                    assert(p[m] == stack@[len - 1]);
                }
            }
            assert(is_cycle(adj_edge(a), e.len() as int, p));
            assert forall|i: int, j: int| 0 <= i < j < p.len() - 1 implies #[trigger] p[i] != #[trigger] p[j] by {
                assert(p[i] == stack@[pos + i] && p[j] == stack@[pos + j]);
            }
            assert(is_simple_cycle(adj_edge(a), e.len() as int, p));
        }
        let entries = self.services.as_slice();
        let mut names: Vec<String> = Vec::new();
        let mut k: usize = 0;
        while k < path.len()
            invariant
                entries@ == e,
                path@ == p,
                forall|m: int| 0 <= m < p.len() ==> #[trigger] p[m] < e.len(),
                k <= p.len(),
                names@.len() == k,
                forall|m: int| 0 <= m < k ==> #[trigger] names@[m]@ == e[p[m] as int].0@,
            decreases p.len() - k,
        {
            names.push(entries[path[k]].0.clone());
            k = k + 1;
        }
        proof {
            assert(names@.map_values(|n: String| n@) =~= p.map_values(|i: usize| e[i as int].0@));
        }
        let joined = join_strings(&names, " -> ");
        let mut msg = String::new();
        msg.append("circular dependency detected: ");
        msg.append(joined.as_str());
        proof {
            assert(msg@ =~= cycle_message(e, p));
        }
        ConfigError::Validation(msg)
    }

    /// Visits `current` and, depth first, every unvisited service it depends
    /// on; fails with the cycle found if one of them leads back to a service
    /// being visited.
    fn visit_for_cycle_detection(&self, current: usize, search: &mut CycleSearch) -> (r: Result<(), ConfigError>)
        requires
            old(search).inv(),
            old(search).graph().len() == self.services.entries().len(),
            current < old(search).states@.len(),
            old(search).states@[current as int] == VisitState::Unvisited,
            old(search).stack@.len() > 0 ==> adj_has(
                old(search).graph(),
                old(search).stack@.last() as int,
                current as int,
            ),
        ensures
            final(search).adj@ == old(search).adj@,
            match r {
                Ok(()) => {
                    &&& final(search).inv()
                    &&& final(search).states@[current as int] == VisitState::Visited
                    &&& final(search).stack@ == old(search).stack@
                    &&& forall|u: int|
                        0 <= u < old(search).states@.len() && old(search).states@[u] == VisitState::Visited
                            ==> final(search).states@[u] == VisitState::Visited && final(search).rank@[u]
                            == old(search).rank@[u]
                    &&& forall|u: int|
                        0 <= u < old(search).states@.len() && final(search).states@[u] == VisitState::Unvisited
                            ==> old(search).states@[u] == VisitState::Unvisited
                },
                Err(err) => reports_cycle(self.services.entries(), adj_edge(old(search).graph()), err),
            },
        decreases unvisited_count(old(search).states@),
    {
        let ghost a = search.graph();
        let ghost n = a.len();
        let ghost s0 = search.states@;
        let ghost r0 = search.rank@;
        let ghost stack0 = search.stack@;
        search.states.set(current, VisitState::Visiting);
        search.stack.push(current);
        proof {
            lemma_count_update(s0, current as int, VisitState::Visiting);
            let st = search.states@;
            let stk = search.stack@;
            assert forall|k: int| 0 <= k < stk.len() implies #[trigger] stk[k] < n && st[stk[k] as int]
                == VisitState::Visiting by {
                if k < stack0.len() {
                    assert(stk[k] == stack0[k]);
                }
            }
            assert forall|v: int| 0 <= v < n && (#[trigger] st[v]) == VisitState::Visiting implies exists|k: int|
                0 <= k < stk.len() && stk[k] == v by {
                if v == current {
                    assert(stk[stack0.len() as int] == v);
                } else {
                    let k = choose|k: int| 0 <= k < stack0.len() && stack0[k] == v;
                    assert(stk[k] == v);
                }
            }
            assert forall|k: int| 0 <= k < stk.len() - 1 implies #[trigger] walk_step(adj_edge(a), stk, k) by {
                if k < stack0.len() - 1 {
                    assert(walk_step(adj_edge(a), stack0, k));
                }
            }
            assert forall|k1: int, k2: int| 0 <= k1 < k2 < stk.len() implies #[trigger] stk[k1] != #[trigger] stk[k2] by {
                assert(stk[k1] == stack0[k1]);
                if k2 < stack0.len() {
                    assert(stk[k2] == stack0[k2]);
                } else {
                    assert(s0[stack0[k1] as int] == VisitState::Visiting);
                }
            }
        }
        let deps_len = search.adj[current].len();
        let mut k: usize = 0;
        while k < deps_len
            invariant
                search.inv(),
                search.graph() == a,
                search.adj@ == old(search).adj@,
                n == a.len(),
                n == self.services.entries().len(),
                current < n,
                deps_len == a[current as int].len(),
                k <= deps_len,
                search.states@[current as int] == VisitState::Visiting,
                search.stack@ == stack0.push(current),
                s0 == old(search).states@,
                s0.len() == n,
                r0.len() == n,
                forall|j: int| 0 <= j < k ==> search.states@[#[trigger] a[current as int][j] as int] == VisitState::Visited,
                forall|u: int|
                    0 <= u < n && s0[u] == VisitState::Visited ==> search.states@[u] == VisitState::Visited
                        && search.rank@[u] == r0[u],
                forall|u: int| 0 <= u < n && search.states@[u] == VisitState::Unvisited ==> s0[u] == VisitState::Unvisited,
                unvisited_count(search.states@) < unvisited_count(s0),
            decreases deps_len - k,
        {
            let w = search.adj[current][k];
            proof {
                assert(a[current as int][k as int] == w);
                assert(adj_has(a, current as int, w as int));
            }
            let st = search.states[w];
            match st {
                VisitState::Visited => {},
                VisitState::Unvisited => {
                    let ghost s1 = search.states@;
                    let ghost r1 = search.rank@;
                    let res = self.visit_for_cycle_detection(w, search);
                    match res {
                        Ok(()) => {
                            proof {
                                lemma_count_mono(s1, search.states@);
                                assert forall|j: int| 0 <= j < k + 1 implies search.states@[#[trigger] a[current as int][j] as int]
                                    == VisitState::Visited by {
                                    if j < k {
                                        assert(s1[a[current as int][j] as int] == VisitState::Visited);
                                    }
                                }
                            }
                        }
                        Err(err) => {
                            return Err(err);
                        }
                    }
                }
                VisitState::Visiting => {
                    return Err(self.cycle_error_at(search, w));
                }
            }
            k = k + 1;
        }
        let ghost s2 = search.states@;
        let ghost r2 = search.rank@;
        let ghost f2 = search.finished@;
        search.stack.pop();
        search.states.set(current, VisitState::Visited);
        search.rank = Ghost(search.rank@.update(current as int, f2));
        search.finished = Ghost(f2 + 1);
        proof {
            let st = search.states@;
            let rk = search.rank@;
            let stk = search.stack@;
            assert(stk =~= stack0);
            assert forall|v: int, w: int|
                0 <= v < n && st[v] == VisitState::Visited && #[trigger] adj_has(a, v, w)
                implies st[w] == VisitState::Visited && rk[w] < rk[v] by {
                if v == current {
                    let j = choose|j: int| 0 <= j < a[v].len() && a[v][j] == w;
                    assert(s2[a[current as int][j] as int] == VisitState::Visited);
                } else {
                    assert(s2[v] == VisitState::Visited);
                }
            }
            assert forall|k: int| 0 <= k < stk.len() implies #[trigger] stk[k] < n && st[stk[k] as int]
                == VisitState::Visiting by {
                assert(stk[k] == stack0.push(current)[k]);
                assert(s2[stk[k] as int] == VisitState::Visiting);
                if stk[k] == current {
                    assert(old(search).inv());
                    assert(s0[current as int] == VisitState::Visiting);
                }
            }
            assert forall|v: int| 0 <= v < n && (#[trigger] st[v]) == VisitState::Visiting implies exists|k: int|
                0 <= k < stk.len() && stk[k] == v by {
                assert(s2[v] == VisitState::Visiting);
                let k = choose|k: int| 0 <= k < stack0.len() + 1 && stack0.push(current)[k] == v;
                assert(stk[k] == v);
            }
            assert forall|k: int| 0 <= k < stk.len() - 1 implies #[trigger] walk_step(adj_edge(a), stk, k) by {
                assert(walk_step(adj_edge(a), stack0.push(current), k));
            }
            assert forall|k1: int, k2: int| 0 <= k1 < k2 < stk.len() implies #[trigger] stk[k1] != #[trigger] stk[k2] by {
                assert(stk[k1] == stack0[k1] && stk[k2] == stack0[k2]);
            }
            assert forall|u: int|
                0 <= u < n && s0[u] == VisitState::Visited implies st[u] == VisitState::Visited && rk[u] == r0[u] by {
                assert(u != current);
            }
        }
        Ok(())
    }

    /// Checks that no service depends, directly or through other services,
    /// on itself. A name in `depends_on` that is no service is passed over.
    pub fn check_circular_dependencies(&self) -> (r: Result<(), ConfigError>)
        requires
            self.services.wf(),
        ensures
            match r {
                Ok(()) => !has_dependency_cycle(self.services.entries()),
                Err(err) => reports_cycle(self.services.entries(), dep_edge(self.services.entries()), err),
            },
    {
        let ghost e = self.services.entries();
        let adj = self.dependency_lists();
        let ghost a = adj_view(adj);
        proof {
            assert(adj_edge(a) =~= dep_edge(e));
        }
        let n = adj.len();
        let mut states: Vec<VisitState> = Vec::new();
        let mut i: usize = 0;
        while i < n
            invariant
                i <= n,
                states@.len() == i,
                forall|j: int| 0 <= j < i ==> #[trigger] states@[j] == VisitState::Unvisited,
            decreases n - i,
        {
            states.push(VisitState::Unvisited);
            i = i + 1;
        }
        let mut search = CycleSearch {
            adj,
            states,
            stack: Vec::new(),
            rank: Ghost(Seq::new(n as nat, |j: int| 0int)),
            finished: Ghost(0int),
        };
        let mut i: usize = 0;
        while i < n
            invariant
                search.inv(),
                search.graph() == a,
                adj_edge(a) == dep_edge(e),
                n == a.len(),
                n == e.len(),
                e == self.services.entries(),
                search.stack@.len() == 0,
                i <= n,
                forall|j: int| 0 <= j < i ==> #[trigger] search.states@[j] == VisitState::Visited,
            decreases n - i,
        {
            if search.states[i] == VisitState::Unvisited {
                let ghost s1 = search.states@;
                match self.visit_for_cycle_detection(i, &mut search) {
                    Ok(()) => {
                        assert(search.graph() =~= a);
                        assert forall|j: int| 0 <= j < i + 1 implies #[trigger] search.states@[j] == VisitState::Visited by {
                            if j < i {
                                assert(s1[j] == VisitState::Visited);
                            }
                        }
                    }
                    Err(err) => {
                        return Err(err);
                    }
                }
            }
            i = i + 1;
        }
        proof {
            let rk = search.rank@;
            assert forall|u: int, v: int| 0 <= u < n && 0 <= v < n && #[trigger] adj_edge(a)(u, v) implies rk[v] < rk[u] by {
                assert(search.states@[u] == VisitState::Visited);
                assert(adj_has(a, u, v));
            }
            lemma_ranked_acyclic(adj_edge(a), n as int, rk);
        }
        Ok(())
    }
}


/// `service '<name>': <what>`.
pub open spec fn service_message(name: Seq<char>, what: Seq<char>) -> Seq<char> {
    "service '"@ + name + "': "@ + what
}

/// The first dependency in `deps` that names no service of `e`.
pub open spec fn first_missing_dep(e: Seq<(String, ServiceConfig)>, deps: Seq<Seq<char>>) -> Option<Seq<char>>
    decreases deps.len(),
{
    if deps.len() == 0 {
        None
    } else {
        match first_missing_dep(e, deps.drop_last()) {
            Some(d) => Some(d),
            None => if has_name(e, deps.last()) { None } else { Some(deps.last()) },
        }
    }
}

/// What is wrong with a timeout, if anything.
pub open spec fn timeout_problem(name: Seq<char>, t: Option<u64>) -> Option<Seq<char>> {
    if t == Some(0u64) {
        Some(service_message(name, "timeout_seconds must be greater than 0"@))
    } else {
        None
    }
}

/// What is wrong with a readiness condition, if anything.
pub open spec fn condition_problem(name: Seq<char>, c: ReadyCondition) -> Option<Seq<char>> {
    match c {
        ReadyCondition::LogContains { pattern, timeout_seconds } => {
            if pattern@.len() == 0 {
                Some(service_message(name, "log_contains pattern cannot be empty"@))
            } else {
                match regex_compile_error(pattern@, false) {
                    Some(err) => Some(
                        service_message(name, "invalid regex pattern '"@ + pattern@ + "': "@ + err),
                    ),
                    None => timeout_problem(name, timeout_seconds),
                }
            }
        },
        ReadyCondition::UrlResponds { url, timeout_seconds } => {
            if url@.len() == 0 {
                Some(service_message(name, "url_responds url cannot be empty"@))
            } else {
                timeout_problem(name, timeout_seconds)
            }
        },
    }
}

/// What is wrong with the service at index `i`, if anything: the command,
/// then the dependencies in order, then the readiness condition.
pub open spec fn service_problem(e: Seq<(String, ServiceConfig)>, i: int) -> Option<Seq<char>> {
    let name = e[i].0@;
    let s = e[i].1;
    if trim(s.command@).len() == 0 {
        Some(service_message(name, "command cannot be empty"@))
    } else {
        match first_missing_dep(e, dep_names(s)) {
            Some(d) => Some(service_message(name, "dependency '"@ + d + "' does not exist"@)),
            None => match s.ready_when {
                Some(c) => condition_problem(name, c),
                None => None,
            },
        }
    }
}

/// The problem of the first of the first `k` services that has one.
pub open spec fn first_service_problem(e: Seq<(String, ServiceConfig)>, k: int) -> Option<Seq<char>>
    decreases k,
{
    if k <= 0 {
        None
    } else {
        match first_service_problem(e, k - 1) {
            Some(m) => Some(m),
            None => service_problem(e, k - 1),
        }
    }
}

/// The first rule a configuration breaks, leaving cycles aside.
pub open spec fn rule_violation(c: DmnConfig) -> Option<Seq<char>> {
    let e = c.services.entries();
    if c.version@.len() == 0 {
        Some("version field cannot be empty"@)
    } else if e.len() == 0 {
        Some("at least one service must be defined"@)
    } else {
        first_service_problem(e, e.len() as int)
    }
}

/// A configuration breaks no rule and has no dependency cycle.
pub open spec fn config_valid(c: DmnConfig) -> bool {
    rule_violation(c) is None && !has_dependency_cycle(c.services.entries())
}

/// A readiness condition is sound: a non-empty pattern that compiles, or a
/// non-empty URL, and a timeout that is not zero.
pub open spec fn condition_sound(c: ReadyCondition) -> bool {
    match c {
        ReadyCondition::LogContains { pattern, timeout_seconds } => pattern@.len() > 0 && regex_compile_error(
            pattern@,
            false,
        ) is None && timeout_seconds != Some(0u64),
        ReadyCondition::UrlResponds { url, timeout_seconds } => url@.len() > 0 && timeout_seconds != Some(0u64),
    }
}

/// Service `i` is sound: its command is not blank, every name in its
/// `depends_on` is a service, and its readiness condition, if any, is sound.
pub open spec fn service_sound(e: Seq<(String, ServiceConfig)>, i: int) -> bool {
    &&& trim(e[i].1.command@).len() > 0
    &&& forall|k: int| 0 <= k < e[i].1.depends_on@.len() ==> has_name(e, #[trigger] e[i].1.depends_on@[k]@)
    &&& match e[i].1.ready_when {
        Some(c) => condition_sound(c),
        None => true,
    }
}

proof fn lemma_missing_dep_none(e: Seq<(String, ServiceConfig)>, deps: Seq<Seq<char>>)
    ensures
        first_missing_dep(e, deps) is None <==> forall|k: int| 0 <= k < deps.len() ==> has_name(e, #[trigger] deps[k]),
    decreases deps.len(),
{
    if deps.len() > 0 {
        let d = deps.drop_last();
        lemma_missing_dep_none(e, d);
        assert forall|k: int| 0 <= k < d.len() implies #[trigger] d[k] == deps[k] by {}
        if forall|k: int| 0 <= k < deps.len() ==> has_name(e, #[trigger] deps[k]) {
            assert forall|k: int| 0 <= k < d.len() implies has_name(e, #[trigger] d[k]) by {
                assert(d[k] == deps[k]);
            }
            assert(has_name(e, deps[deps.len() - 1]));
        }
        if first_missing_dep(e, deps) is None {
            assert forall|k: int| 0 <= k < deps.len() implies has_name(e, #[trigger] deps[k]) by {
                if k < d.len() {
                    assert(d[k] == deps[k]);
                    assert(has_name(e, d[k]));
                }
            }
        }
    }
}

proof fn lemma_service_problem_none(e: Seq<(String, ServiceConfig)>, i: int)
    requires
        0 <= i < e.len(),
    ensures
        service_problem(e, i) is None <==> service_sound(e, i),
{
    let deps = dep_names(e[i].1);
    lemma_missing_dep_none(e, deps);
    assert forall|k: int| 0 <= k < deps.len() implies #[trigger] deps[k] == e[i].1.depends_on@[k]@ by {}
    if forall|k: int| 0 <= k < deps.len() ==> has_name(e, #[trigger] deps[k]) {
        assert forall|k: int| 0 <= k < e[i].1.depends_on@.len() implies has_name(e, #[trigger] e[i].1.depends_on@[k]@) by {
            assert(deps[k] == e[i].1.depends_on@[k]@);
        }
    }
    if forall|k: int| 0 <= k < e[i].1.depends_on@.len() ==> has_name(e, #[trigger] e[i].1.depends_on@[k]@) {
        assert forall|k: int| 0 <= k < deps.len() implies has_name(e, #[trigger] deps[k]) by {
            assert(deps[k] == e[i].1.depends_on@[k]@);
        }
    }
}

proof fn lemma_first_problem_none(e: Seq<(String, ServiceConfig)>, k: int)
    requires
        0 <= k <= e.len(),
    ensures
        first_service_problem(e, k) is None <==> forall|i: int| 0 <= i < k ==> #[trigger] service_sound(e, i),
    decreases k,
{
    if k > 0 {
        lemma_first_problem_none(e, k - 1);
        lemma_service_problem_none(e, k - 1);
        if first_service_problem(e, k) is None {
            assert forall|i: int| 0 <= i < k implies #[trigger] service_sound(e, i) by {
                if i == k - 1 {
                } else {
                    assert(service_sound(e, i));
                }
            }
        }
        if forall|i: int| 0 <= i < k ==> #[trigger] service_sound(e, i) {
            assert(service_sound(e, k - 1));
            assert forall|i: int| 0 <= i < k - 1 implies #[trigger] service_sound(e, i) by {
                assert(service_sound(e, i));
            }
        }
    }
}

/// A configuration passes validation exactly when it has a version and at
/// least one service, every service is sound (not only the first: a blank
/// command, a dependency that names no service or an unsound condition
/// anywhere is refused), and no services depend on each other in a circle.
pub proof fn law_valid_exactly_when_every_service_is_sound(c: DmnConfig)
    ensures
        config_valid(c) <==> {
            &&& c.version@.len() > 0
            &&& c.services.entries().len() > 0
            &&& forall|i: int| 0 <= i < c.services.entries().len() ==> #[trigger] service_sound(c.services.entries(), i)
            &&& !has_dependency_cycle(c.services.entries())
        },
{
    let e = c.services.entries();
    lemma_first_problem_none(e, e.len() as int);
}

/// `err` is what validating `c` reports: the first rule broken, or else a
/// dependency cycle.
pub open spec fn validation_error(c: DmnConfig, err: ConfigError) -> bool {
    match rule_violation(c) {
        Some(m) => err matches ConfigError::Validation(t) && t@ == m,
        None => reports_cycle(c.services.entries(), dep_edge(c.services.entries()), err),
    }
}

fn service_error(name: &str, what: &str) -> (r: ConfigError)
    ensures
        r matches ConfigError::Validation(t) && t@ == service_message(name@, what@),
{
    let mut m = String::new();
    m.append("service '");
    m.append(name);
    m.append("': ");
    m.append(what);
    ConfigError::Validation(m)
}

fn check_timeout(name: &str, t: Option<u64>) -> (r: Option<ConfigError>)
    ensures
        match timeout_problem(name@, t) {
            Some(m) => r matches Some(ConfigError::Validation(x)) && x@ == m,
            None => r is None,
        },
{
    match t {
        Some(v) => {
            if v == 0 {
                Some(service_error(name, "timeout_seconds must be greater than 0"))
            } else {
                None
            }
        },
        None => None,
    }
}

impl DmnConfig {
    /// The error for the service at index `i`, if it has a problem.
    fn check_service(&self, i: usize) -> (r: Option<ConfigError>)
        requires
            self.services.wf(),
            i < self.services.entries().len(),
        ensures
            match service_problem(self.services.entries(), i as int) {
                Some(m) => r matches Some(ConfigError::Validation(x)) && x@ == m,
                None => r is None,
            },
    {
        let ghost e = self.services.entries();
        let entries = self.services.as_slice();
        let name = entries[i].0.as_str();
        let service = &entries[i].1;
        if is_blank(service.command.as_str()) {
            return Some(service_error(name, "command cannot be empty"));
        }
        let ghost deps = dep_names(*service);
        let mut k: usize = 0;
        while k < service.depends_on.len()
            invariant
                self.services.wf(),
                e == self.services.entries(),
                deps == dep_names(*service),
                *service == e[i as int].1,
                name@ == e[i as int].0@,
                trim(service.command@).len() != 0,
                k <= service.depends_on@.len(),
                first_missing_dep(e, deps.take(k as int)) is None,
            decreases service.depends_on@.len() - k,
        {
            let dep = service.depends_on[k].as_str();
            proof {
                assert(deps.take(k + 1).drop_last() =~= deps.take(k as int));
            }
            if !self.services.contains_key(dep) {
                let mut w = String::new();
                w.append("dependency '");
                w.append(dep);
                w.append("' does not exist");
                let err = service_error(name, w.as_str());
                proof {
                    assert(deps.take(k as int).len() == k);
                    assert(deps.take(k + 1) =~= deps.take(k as int).push(deps[k as int]));
                    assert(deps.take(k + 1).last() == dep@);
                    assert(!has_name(e, dep@));
                    assert(first_missing_dep(e, deps.take(k + 1)) == Some(dep@));
                    assert(first_missing_dep(e, deps) == first_missing_dep(e, deps.take(k + 1))) by {
                        lemma_first_missing_prefix(e, deps, k as int + 1);
                    }
                    assert(trim(service.command@).len() != 0);
                    assert(service_problem(e, i as int) == Some(service_message(name@, w@)));
                }
                return Some(err);
            }
            k = k + 1;
        }
        assert(deps.take(service.depends_on@.len() as int) =~= deps);
        match &service.ready_when {
            None => None,
            Some(ReadyCondition::LogContains { pattern, timeout_seconds }) => {
                if pattern.unicode_len() == 0 {
                    return Some(service_error(name, "log_contains pattern cannot be empty"));
                }
                match regex_search(pattern.as_str(), false, "") {
                    Err(err) => {
                        let mut w = String::new();
                        w.append("invalid regex pattern '");
                        w.append(pattern.as_str());
                        w.append("': ");
                        w.append(err.as_str());
                        Some(service_error(name, w.as_str()))
                    },
                    Ok(_) => check_timeout(name, *timeout_seconds),
                }
            },
            Some(ReadyCondition::UrlResponds { url, timeout_seconds }) => {
                if url.unicode_len() == 0 {
                    return Some(service_error(name, "url_responds url cannot be empty"));
                }
                check_timeout(name, *timeout_seconds)
            },
        }
    }

    /// Checks the configuration: a version, at least one service, for each
    /// service a non-blank command, known dependencies and a sound readiness
    /// condition (non-empty pattern that compiles or non-empty URL, timeout
    /// above zero), and no dependency cycle. The first problem found is
    /// reported.
    pub fn validate(&self) -> (r: Result<(), ConfigError>)
        requires
            self.services.wf(),
        ensures
            r is Ok <==> config_valid(*self),
            match r {
                Ok(()) => true,
                Err(err) => validation_error(*self, err),
            },
    {
        let ghost e = self.services.entries();
        if self.version.unicode_len() == 0 {
            return Err(ConfigError::Validation(String::from_str("version field cannot be empty")));
        }
        if self.services.is_empty() {
            return Err(ConfigError::Validation(String::from_str("at least one service must be defined")));
        }
        let n = self.services.len();
        let mut i: usize = 0;
        while i < n
            invariant
                self.services.wf(),
                e == self.services.entries(),
                n == e.len(),
                n > 0,
                self.version@.len() != 0,
                i <= n,
                first_service_problem(e, i as int) is None,
            decreases n - i,
        {
            match self.check_service(i) {
                Some(err) => {
                    proof {
                        lemma_first_problem_prefix(e, i as int + 1, n as int);
                        assert(first_service_problem(e, i as int + 1) == service_problem(e, i as int));
                        assert(rule_violation(*self) == service_problem(e, i as int));
                        assert(validation_error(*self, err));
                    }
                    return Err(err);
                },
                None => {},
            }
            i = i + 1;
        }
        let r = self.check_circular_dependencies();
        proof {
            if r is Err {
                let err = r->Err_0;
                let p = choose|p: Seq<usize>|
                    is_simple_cycle(dep_edge(e), e.len() as int, p) && (err matches ConfigError::Validation(m) && m@
                        == cycle_message(e, p));
                assert(has_dependency_cycle(e));
            }
        }
        r
    }
}

/// Once a prefix of the dependencies has a missing one, longer prefixes
/// report the same one.
proof fn lemma_first_missing_prefix(e: Seq<(String, ServiceConfig)>, deps: Seq<Seq<char>>, k: int)
    requires
        0 <= k <= deps.len(),
        first_missing_dep(e, deps.take(k)) is Some,
    ensures
        first_missing_dep(e, deps) == first_missing_dep(e, deps.take(k)),
    decreases deps.len() - k,
{
    if k < deps.len() {
        assert(deps.take(k + 1).drop_last() =~= deps.take(k));
        lemma_first_missing_prefix(e, deps, k + 1);
    } else {
        assert(deps.take(k) =~= deps);
    }
}

/// Once the first `k` services have a problem, the first `m >= k` report
/// the same one.
proof fn lemma_first_problem_prefix(e: Seq<(String, ServiceConfig)>, k: int, m: int)
    requires
        0 <= k <= m,
        first_service_problem(e, k) is Some,
    ensures
        first_service_problem(e, m) == first_service_problem(e, k),
    decreases m - k,
{
    if k < m {
        lemma_first_problem_prefix(e, k, m - 1);
    }
}


/// Index of the first pair of `s` whose key is `k`.
pub open spec fn key_index(s: Seq<(Seq<char>, Seq<char>)>, k: Seq<char>) -> Option<int>
    decreases s.len(),
{
    if s.len() == 0 {
        None
    } else {
        match key_index(s.drop_last(), k) {
            Some(i) => Some(i),
            None => if s.last().0 == k { Some(s.len() - 1) } else { None },
        }
    }
}

/// The value for `k` in the association list `s`.
pub open spec fn assoc_get(s: Seq<(Seq<char>, Seq<char>)>, k: Seq<char>) -> Option<Seq<char>> {
    match key_index(s, k) {
        Some(i) => Some(s[i].1),
        None => None,
    }
}

/// `s` with the value for `k` replaced by `v`, or `(k, v)` appended when
/// `k` has no value yet.
pub open spec fn assoc_insert(s: Seq<(Seq<char>, Seq<char>)>, k: Seq<char>, v: Seq<char>) -> Seq<(Seq<char>, Seq<char>)> {
    match key_index(s, k) {
        Some(i) => s.update(i, (k, v)),
        None => s.push((k, v)),
    }
}

proof fn lemma_key_index_prefix(s: Seq<(Seq<char>, Seq<char>)>, k: Seq<char>, m: int)
    requires
        0 <= m <= s.len(),
        key_index(s.take(m), k) is Some,
    ensures
        key_index(s, k) == key_index(s.take(m), k),
    decreases s.len() - m,
{
    if m < s.len() {
        assert(s.take(m + 1).drop_last() =~= s.take(m));
        lemma_key_index_prefix(s, k, m + 1);
    } else {
        assert(s.take(m) =~= s);
    }
}

proof fn lemma_key_index_bounds(s: Seq<(Seq<char>, Seq<char>)>, k: Seq<char>)
    ensures
        match key_index(s, k) {
            Some(i) => 0 <= i < s.len() && s[i].0 == k,
            None => forall|j: int| 0 <= j < s.len() ==> s[j].0 != k,
        },
    decreases s.len(),
{
    if s.len() > 0 {
        let t = s.drop_last();
        lemma_key_index_bounds(t, k);
        assert forall|j: int| 0 <= j < t.len() implies t[j] == s[j] by {}
    }
}

proof fn lemma_key_index_same_keys(s: Seq<(Seq<char>, Seq<char>)>, t: Seq<(Seq<char>, Seq<char>)>, x: Seq<char>)
    requires
        s.len() == t.len(),
        forall|j: int| 0 <= j < s.len() ==> #[trigger] s[j].0 == t[j].0,
    ensures
        key_index(s, x) == key_index(t, x),
    decreases s.len(),
{
    if s.len() > 0 {
        let (a, b) = (s.drop_last(), t.drop_last());
        assert forall|j: int| 0 <= j < a.len() implies #[trigger] a[j].0 == b[j].0 by {
            assert(s[j].0 == t[j].0);
        }
        lemma_key_index_same_keys(a, b, x);
        assert(s.last().0 == t.last().0);
    }
}

/// Setting a variable and then reading it gives the value set; every other
/// variable reads as before.
pub proof fn law_env_insert_then_get(s: Seq<(Seq<char>, Seq<char>)>, k: Seq<char>, v: Seq<char>, other: Seq<char>)
    ensures
        assoc_get(assoc_insert(s, k, v), k) == Some(v),
        other != k ==> assoc_get(assoc_insert(s, k, v), other) == assoc_get(s, other),
{
    lemma_key_index_bounds(s, k);
    lemma_key_index_bounds(s, other);
    match key_index(s, k) {
        Some(i) => {
            let t = s.update(i, (k, v));
            lemma_key_index_same_keys(s, t, k);
            lemma_key_index_same_keys(s, t, other);
        },
        None => {
            let t = s.push((k, v));
            assert(t.drop_last() =~= s);
            assert(key_index(t, k) == Some(s.len() as int));
            if other != k {
                assert(key_index(t, other) == key_index(s, other));
                lemma_key_index_bounds(t, other);
            }
        },
    }
}

/// Environment variables read from a `.env` file: each name once, in the
/// order of first appearance, with the value last given.
#[derive(Debug)]
pub struct EnvVars {
    entries: Vec<(String, String)>,
}

/// The pairs of a vector of string pairs, as character sequences.
pub open spec fn pairs_view(v: Seq<(String, String)>) -> Seq<(Seq<char>, Seq<char>)> {
    v.map_values(|p: (String, String)| (p.0@, p.1@))
}

impl EnvVars {
    /// The variables as an association list.
    pub closed spec fn pairs(&self) -> Seq<(Seq<char>, Seq<char>)> {
        pairs_view(self.entries@)
    }

    /// No variables.
    pub fn new() -> (r: Self)
        ensures
            r.pairs() == Seq::<(Seq<char>, Seq<char>)>::empty(),
    {
        let r = EnvVars { entries: Vec::new() };
        assert(r.pairs() =~= Seq::<(Seq<char>, Seq<char>)>::empty());
        r
    }

    /// Index of the variable named `key`.
    fn find(&self, key: &str) -> (r: Option<usize>)
        ensures
            match r {
                Some(i) => key_index(self.pairs(), key@) == Some(i as int),
                None => key_index(self.pairs(), key@) is None,
            },
    {
        let ghost s = self.pairs();
        let mut i: usize = 0;
        while i < self.entries.len()
            invariant
                s == pairs_view(self.entries@),
                i <= self.entries@.len(),
                key_index(s.take(i as int), key@) is None,
            decreases self.entries@.len() - i,
        {
            assert(s.take(i + 1).drop_last() =~= s.take(i as int));
            if str_eq(self.entries[i].0.as_str(), key) {
                proof {
                    lemma_key_index_prefix(s, key@, i + 1);
                }
                return Some(i);
            }
            i = i + 1;
        }
        assert(s.take(self.entries@.len() as int) =~= s);
        None
    }

    /// Sets `key` to `value`.
    pub fn insert(&mut self, key: String, value: String)
        ensures
            final(self).pairs() == assoc_insert(old(self).pairs(), key@, value@),
    {
        match self.find(key.as_str()) {
            Some(i) => {
                proof {
                    lemma_key_index_bounds(self.pairs(), key@);
                }
                self.entries.set(i, (key, value));
                assert(self.pairs() =~= assoc_insert(old(self).pairs(), key@, value@));
            },
            None => {
                self.entries.push((key, value));
                assert(self.pairs() =~= assoc_insert(old(self).pairs(), key@, value@));
            },
        }
    }

    /// The value of the variable named `key`.
    pub fn get(&self, key: &str) -> (r: Option<&String>)
        ensures
            match assoc_get(self.pairs(), key@) {
                Some(v) => r matches Some(x) && x@ == v,
                None => r is None,
            },
    {
        proof {
            lemma_key_index_bounds(self.pairs(), key@);
        }
        match self.find(key) {
            Some(i) => {
                assert(self.pairs()[i as int] == (self.entries@[i as int].0@, self.entries@[i as int].1@));
                Some(&self.entries[i].1)
            },
            None => None,
        }
    }

    /// Number of variables.
    pub fn len(&self) -> (r: usize)
        ensures
            r == self.pairs().len(),
    {
        self.entries.len()
    }

    /// The variables, in order, for handing to a process.
    pub fn as_slice(&self) -> (r: &[(String, String)])
        ensures
            pairs_view(r@) == self.pairs(),
    {
        self.entries.as_slice()
    }

    /// Whether there are no variables.
    pub fn is_empty(&self) -> (r: bool)
        ensures
            r == (self.pairs().len() == 0),
    {
        self.entries.len() == 0
    }
}

/// The lines of `s`: the pieces between line feeds, the last one included
/// even when empty.
pub open spec fn split_lines(s: Seq<char>) -> Seq<Seq<char>>
    decreases s.len(),
{
    if s.len() == 0 {
        seq![Seq::empty()]
    } else {
        let r = split_lines(s.drop_last());
        if s.last() == '\n' {
            r.push(Seq::empty())
        } else {
            r.update(r.len() - 1, r.last().push(s.last()))
        }
    }
}

proof fn lemma_split_lines_nonempty(s: Seq<char>)
    ensures
        split_lines(s).len() >= 1,
    decreases s.len(),
{
    if s.len() > 0 {
        lemma_split_lines_nonempty(s.drop_last());
    }
}

/// Index of the first `c` in `s`.
pub open spec fn char_index(s: Seq<char>, c: char) -> Option<int>
    decreases s.len(),
{
    if s.len() == 0 {
        None
    } else {
        match char_index(s.drop_last(), c) {
            Some(i) => Some(i),
            None => if s.last() == c { Some(s.len() - 1) } else { None },
        }
    }
}

pub proof fn lemma_char_index_prefix(s: Seq<char>, c: char, m: int)
    requires
        0 <= m <= s.len(),
        char_index(s.take(m), c) is Some,
    ensures
        char_index(s, c) == char_index(s.take(m), c),
    decreases s.len() - m,
{
    if m < s.len() {
        assert(s.take(m + 1).drop_last() =~= s.take(m));
        lemma_char_index_prefix(s, c, m + 1);
    } else {
        assert(s.take(m) =~= s);
    }
}

/// A value without one pair of matching surrounding quotes.
pub open spec fn unquote(v: Seq<char>) -> Seq<char> {
    if v.len() >= 1 && ((v[0] == '"' && v.last() == '"') || (v[0] == '\'' && v.last() == '\'')) {
        v.subrange(1, v.len() - 1)
    } else {
        v
    }
}

/// What one line of a `.env` file says.
pub enum EnvLine<T> {
    /// A blank line or a comment.
    Skip,
    /// `KEY=VALUE`.
    Pair(T, T),
    /// `=VALUE`, with nothing before the equals sign.
    EmptyKey,
    /// A line with no equals sign.
    NoEquals,
    /// `KEY="` or `KEY='`: a value that is a single quote character, which
    /// the format cannot unquote.
    LoneQuote,
}

/// The meaning of a line: blank lines and lines starting with `#` (after
/// trimming) are skipped; otherwise the text before the first `=` is the
/// key and the text after it the value, each trimmed, the value stripped of
/// one pair of matching quotes.
pub open spec fn env_line(line: Seq<char>) -> EnvLine<Seq<char>> {
    let t = trim(line);
    if t.len() == 0 || t[0] == '#' {
        EnvLine::Skip
    } else {
        match char_index(t, '=') {
            Some(p) => {
                let key = trim(t.subrange(0, p));
                let value = trim(t.subrange(p + 1, t.len() as int));
                if key.len() == 0 {
                    EnvLine::EmptyKey
                } else {
                    EnvLine::Pair(key, unquote(value))
                }
            },
            None => EnvLine::NoEquals,
        }
    }
}

/// The line holds a pair whose value is a lone quote character, which has
/// no matching closing quote to strip.
pub open spec fn env_line_lone_quote(line: Seq<char>) -> bool {
    let t = trim(line);
    &&& !(t.len() == 0 || t[0] == '#')
    &&& char_index(t, '=') matches Some(p) && {
        let key = trim(t.subrange(0, p));
        let value = trim(t.subrange(p + 1, t.len() as int));
        key.len() != 0 && value.len() == 1 && (value[0] == '"' || value[0] == '\'')
    }
}

/// `<path>:<line>: <what>`.
pub open spec fn env_message(path: Seq<char>, line_no: nat, what: Seq<char>) -> Seq<char> {
    path + ":"@ + decimal(line_no) + ": "@ + what
}

/// The variables the lines define, or the message for the first bad line.
pub open spec fn env_parse(lines: Seq<Seq<char>>, path: Seq<char>) -> Result<Seq<(Seq<char>, Seq<char>)>, Seq<char>>
    decreases lines.len(),
{
    if lines.len() == 0 {
        Ok(Seq::empty())
    } else {
        match env_parse(lines.drop_last(), path) {
            Err(m) => Err(m),
            Ok(vars) => match env_line(lines.last()) {
                EnvLine::Skip => Ok(vars),
                EnvLine::Pair(k, v) => Ok(assoc_insert(vars, k, v)),
                EnvLine::EmptyKey => Err(
                    env_message(path, lines.len(), "environment variable key cannot be empty"@),
                ),
                EnvLine::NoEquals => Err(
                    env_message(path, lines.len(), "invalid line format, expected KEY=VALUE"@),
                ),
                EnvLine::LoneQuote => Ok(vars),
            },
        }
    }
}

/// A line the format accepts: blank, a comment, or `KEY=VALUE` with a key.
pub open spec fn env_line_accepted(line: Seq<char>) -> bool {
    env_line(line) is Skip || env_line(line) is Pair
}

/// The value the last line defining `k` gives it, if any line does.
pub open spec fn last_env_value(lines: Seq<Seq<char>>, k: Seq<char>) -> Option<Seq<char>>
    decreases lines.len(),
{
    if lines.len() == 0 {
        None
    } else {
        match env_line(lines.last()) {
            EnvLine::Pair(k2, v) => if k2 == k {
                Some(v)
            } else {
                last_env_value(lines.drop_last(), k)
            },
            _ => last_env_value(lines.drop_last(), k),
        }
    }
}

/// The lines of a `.env` file are read one by one: they are accepted
/// exactly when every line is blank, a comment or `KEY=VALUE` with a key;
/// each variable then has the value of the last line that defines it; and
/// otherwise the message names the first line that is not accepted, as
/// `<path>:<line>: <what>`.
pub proof fn law_env_lines(lines: Seq<Seq<char>>, path: Seq<char>)
    ensures
        env_parse(lines, path) is Ok <==> forall|i: int| 0 <= i < lines.len() ==> env_line_accepted(#[trigger] lines[i]),
        env_parse(lines, path) matches Ok(vars) ==> forall|k: Seq<char>| #[trigger] assoc_get(vars, k) == last_env_value(lines, k),
        env_parse(lines, path) matches Err(m) ==> exists|i: int|
            0 <= i < lines.len() && (forall|j: int| 0 <= j < i ==> env_line_accepted(#[trigger] lines[j]))
                && !env_line_accepted(#[trigger] lines[i]) && starts_with(m, env_message(path, (i + 1) as nat, Seq::empty())),
    decreases lines.len(),
{
    if lines.len() > 0 {
        let d = lines.drop_last();
        let n = lines.len() as int;
        law_env_lines(d, path);
        assert forall|i: int| 0 <= i < d.len() implies d[i] == lines[i] by {}
        match env_parse(d, path) {
            Err(m) => {
                let i = choose|i: int|
                    0 <= i < d.len() && (forall|j: int| 0 <= j < i ==> env_line_accepted(#[trigger] d[j]))
                        && !env_line_accepted(#[trigger] d[i]) && starts_with(m, env_message(path, (i + 1) as nat, Seq::empty()));
                assert(d[i] == lines[i]);
                assert(!env_line_accepted(lines[i]));
                assert forall|j: int| 0 <= j < i implies env_line_accepted(#[trigger] lines[j]) by {
                    assert(d[j] == lines[j]);
                }
            },
            Ok(vars) => {
                if env_line_accepted(lines.last()) {
                    assert forall|i: int| 0 <= i < n implies env_line_accepted(#[trigger] lines[i]) by {
                        if i < n - 1 {
                            assert(d[i] == lines[i]);
                        }
                    }
                    match env_line(lines.last()) {
                        EnvLine::Pair(k, v) => {
                            assert forall|k2: Seq<char>| #[trigger] assoc_get(assoc_insert(vars, k, v), k2)
                                == last_env_value(lines, k2) by {
                                law_env_insert_then_get(vars, k, v, k2);
                            }
                        },
                        _ => {},
                    }
                } else {
                    assert(lines[n - 1] == lines.last());
                    assert forall|j: int| 0 <= j < n - 1 implies env_line_accepted(#[trigger] lines[j]) by {
                        assert(d[j] == lines[j]);
                    }
                    let what = if env_line(lines.last()) is EmptyKey {
                        "environment variable key cannot be empty"@
                    } else {
                        "invalid line format, expected KEY=VALUE"@
                    };
                    let m = env_message(path, n as nat, what);
                    let pre = env_message(path, n as nat, Seq::empty());
                    assert(env_parse(lines, path) == Err::<Seq<(Seq<char>, Seq<char>)>, Seq<char>>(m));
                    assert(pre + what =~= m);
                    assert(m.subrange(0, pre.len() as int) =~= pre);
                    assert(starts_with(m, pre));
                    assert(((n - 1) + 1) as nat == n as nat);
                }
            },
        }
    }
}

/// Parsing reaches a line whose value is a lone quote.
pub open spec fn env_parse_hits_lone_quote(lines: Seq<Seq<char>>, path: Seq<char>) -> bool
    decreases lines.len(),
{
    if lines.len() == 0 {
        false
    } else {
        env_parse_hits_lone_quote(lines.drop_last(), path) || (env_parse(lines.drop_last(), path) is Ok
            && env_line_lone_quote(lines.last()))
    }
}

proof fn lemma_env_parse_err_prefix(lines: Seq<Seq<char>>, path: Seq<char>, m: int)
    requires
        0 <= m <= lines.len(),
        env_parse(lines.take(m), path) is Err,
    ensures
        env_parse(lines, path) == env_parse(lines.take(m), path),
        !env_parse_hits_lone_quote(lines, path) ==> !env_parse_hits_lone_quote(lines.take(m), path),
    decreases lines.len() - m,
{
    if m < lines.len() {
        assert(lines.take(m + 1).drop_last() =~= lines.take(m));
        lemma_env_parse_err_prefix(lines, path, m + 1);
    } else {
        assert(lines.take(m) =~= lines);
    }
}

proof fn lemma_lone_quote_prefix(lines: Seq<Seq<char>>, path: Seq<char>, m: int)
    requires
        0 <= m <= lines.len(),
        !env_parse_hits_lone_quote(lines, path),
    ensures
        !env_parse_hits_lone_quote(lines.take(m), path),
    decreases lines.len() - m,
{
    if m < lines.len() {
        assert(lines.take(m + 1).drop_last() =~= lines.take(m));
        lemma_lone_quote_prefix(lines, path, m + 1);
    } else {
        assert(lines.take(m) =~= lines);
    }
}

/// Splits text into its lines, as `split_lines` describes.
fn lines_of(content: &str) -> (r: Vec<String>)
    ensures
        r@.map_values(|l: String| l@) == split_lines(content@),
{
    let cs = str_chars(content);
    let mut lines: Vec<String> = Vec::new();
    let mut cur = String::new();
    let mut i: usize = 0;
    while i < cs.len()
        invariant
            cs@ == content@,
            i <= cs@.len(),
            lines@.map_values(|l: String| l@).push(cur@) == split_lines(cs@.take(i as int)),
        decreases cs@.len() - i,
    {
        let c = cs[i];
        proof {
            assert(cs@.take(i + 1).drop_last() =~= cs@.take(i as int));
            lemma_split_lines_nonempty(cs@.take(i as int));
        }
        let ghost before = lines@.map_values(|l: String| l@);
        let ghost cur0 = cur@;
        if c == '\n' {
            let done = cur;
            lines.push(done);
            cur = String::new();
            assert(lines@.map_values(|l: String| l@) =~= before.push(cur0));
        } else {
            push_char(&mut cur, c);
            assert(lines@.map_values(|l: String| l@) =~= before);
        }
        assert(lines@.map_values(|l: String| l@).push(cur@) =~= split_lines(cs@.take(i + 1)));
        i = i + 1;
    }
    lines.push(cur);
    assert(cs@.take(cs@.len() as int) =~= cs@);
    assert(lines@.map_values(|l: String| l@) =~= split_lines(content@));
    lines
}

/// Reads one line of a `.env` file.
#[verifier::rlimit(40)]
fn parse_env_line(line: &str) -> (r: EnvLine<String>)
    ensures
        env_line_lone_quote(line@) <==> r is LoneQuote,
        !env_line_lone_quote(line@) ==> match env_line(line@) {
            EnvLine::Skip => r is Skip,
            EnvLine::Pair(k, v) => r matches EnvLine::Pair(a, b) && a@ == k && b@ == v,
            EnvLine::EmptyKey => r is EmptyKey,
            EnvLine::NoEquals => r is NoEquals,
            EnvLine::LoneQuote => false,
        },
{
    let cs = str_chars(line);
    let (a, b) = trim_bounds(cs.as_slice(), 0, cs.len());
    let ghost t = trim(line@);
    assert(cs@.subrange(0, cs@.len() as int) =~= line@);
    if a == b || cs[a] == '#' {
        return EnvLine::Skip;
    }
    assert(t[0] == cs@[a as int]);
    let mut p: usize = a;
    while p < b && cs[p] != '='
        invariant
            a <= p <= b,
            b <= cs@.len(),
            t == cs@.subrange(a as int, b as int),
            char_index(t.take(p - a), '=') is None,
        decreases b - p,
    {
        assert(t.take(p - a + 1).drop_last() =~= t.take(p - a));
        p = p + 1;
    }
    if p == b {
        assert(t.take(b - a) =~= t);
        return EnvLine::NoEquals;
    }
    proof {
        assert(t.take(p - a + 1).drop_last() =~= t.take(p - a));
        lemma_char_index_prefix(t, '=', p - a + 1);
    }
    let (ka, kb) = trim_bounds(cs.as_slice(), a, p);
    let (va, vb) = trim_bounds(cs.as_slice(), p + 1, b);
    assert(cs@.subrange(a as int, p as int) =~= t.subrange(0, p - a));
    assert(cs@.subrange(p + 1, b as int) =~= t.subrange(p - a + 1, t.len() as int));
    if ka == kb {
        return EnvLine::EmptyKey;
    }
    let ghost v = cs@.subrange(va as int, vb as int);
    if va < vb && vb - va == 1 && (cs[va] == '"' || cs[va] == '\'') {
        assert(v.len() == 1 && v[0] == cs@[va as int]);
        return EnvLine::LoneQuote;
    }
    let key = string_from_range(cs.as_slice(), ka, kb);
    let value = if va < vb && ((cs[va] == '"' && cs[vb - 1] == '"') || (cs[va] == '\'' && cs[vb - 1] == '\'')) {
        assert(v.len() >= 2);
        assert(cs@.subrange(va + 1, vb - 1) =~= v.subrange(1, v.len() - 1));
        string_from_range(cs.as_slice(), va + 1, vb - 1)
    } else {
        string_from_range(cs.as_slice(), va, vb)
    };
    EnvLine::Pair(key, value)
}

/// Reads the variables of a `.env` file from its text; `path` names the
/// file in error messages, with the 1-based line number.
pub fn parse_env_content(content: &str, path: &str) -> (r: Result<EnvVars, ConfigError>)
    requires
        !env_parse_hits_lone_quote(split_lines(content@), path@),
    ensures
        match env_parse(split_lines(content@), path@) {
            Ok(vars) => r matches Ok(v) && v.pairs() == vars,
            Err(m) => r matches Err(ConfigError::Validation(x)) && x@ == m,
        },
{
    let lines = lines_of(content);
    let ghost ls = lines@.map_values(|l: String| l@);
    let mut vars = EnvVars::new();
    let mut i: usize = 0;
    while i < lines.len()
        invariant
            ls == lines@.map_values(|l: String| l@),
            ls == split_lines(content@),
            i <= lines@.len(),
            !env_parse_hits_lone_quote(ls, path@),
            env_parse(ls.take(i as int), path@) == Ok::<Seq<(Seq<char>, Seq<char>)>, Seq<char>>(vars.pairs()),
        decreases lines@.len() - i,
    {
        proof {
            assert(ls.take(i + 1).drop_last() =~= ls.take(i as int));
            lemma_lone_quote_prefix(ls, path@, i + 1);
            assert(ls.take(i + 1).last() == lines@[i as int]@);
        }
        match parse_env_line(lines[i].as_str()) {
            EnvLine::Skip => {},
            EnvLine::Pair(k, v) => {
                vars.insert(k, v);
            },
            EnvLine::EmptyKey => {
                let mut m = String::new();
                m.append(path);
                m.append(":");
                let d = u64_to_decimal(i as u64 + 1);
                m.append(d.as_str());
                m.append(": ");
                m.append("environment variable key cannot be empty");
                proof {
                    lemma_env_parse_err_prefix(ls, path@, i + 1);
                    assert(m@ =~= env_message(path@, (i + 1) as nat, "environment variable key cannot be empty"@));
                }
                return Err(ConfigError::Validation(m));
            },
            EnvLine::NoEquals => {
                let mut m = String::new();
                m.append(path);
                m.append(":");
                let d = u64_to_decimal(i as u64 + 1);
                m.append(d.as_str());
                m.append(": ");
                m.append("invalid line format, expected KEY=VALUE");
                proof {
                    lemma_env_parse_err_prefix(ls, path@, i + 1);
                    assert(m@ =~= env_message(path@, (i + 1) as nat, "invalid line format, expected KEY=VALUE"@));
                }
                return Err(ConfigError::Validation(m));
            },
            EnvLine::LoneQuote => {
                assert(false);
            },
        }
        i = i + 1;
    }
    assert(ls.take(lines@.len() as int) =~= ls);
    Ok(vars)
}

/// Whether reading this `.env` text reaches a line whose value is a lone
/// quote character (`KEY="`), which cannot be unquoted; lines after the
/// first malformed line are not reached.
pub fn env_content_hits_lone_quote(content: &str, path: &str) -> (r: bool)
    ensures
        r == env_parse_hits_lone_quote(split_lines(content@), path@),
{
    let lines = lines_of(content);
    let ghost ls = lines@.map_values(|l: String| l@);
    let mut i: usize = 0;
    while i < lines.len()
        invariant
            ls == lines@.map_values(|l: String| l@),
            ls == split_lines(content@),
            i <= lines@.len(),
            !env_parse_hits_lone_quote(ls.take(i as int), path@),
            env_parse(ls.take(i as int), path@) is Ok,
        decreases lines@.len() - i,
    {
        proof {
            assert(ls.take(i + 1).drop_last() =~= ls.take(i as int));
            assert(ls.take(i + 1).last() == lines@[i as int]@);
        }
        match parse_env_line(lines[i].as_str()) {
            EnvLine::LoneQuote => {
                proof {
                    lemma_lone_quote_extends(ls, path@, i + 1);
                }
                return true;
            },
            EnvLine::EmptyKey | EnvLine::NoEquals => {
                proof {
                    lemma_env_parse_err_prefix(ls, path@, i + 1);
                    lemma_no_lone_quote_after_error(ls, path@, i + 1);
                }
                return false;
            },
            _ => {},
        }
        i = i + 1;
    }
    assert(ls.take(lines@.len() as int) =~= ls);
    false
}

/// Once the prefix of `m` lines reaches a lone quote, so does every longer
/// text.
proof fn lemma_lone_quote_extends(lines: Seq<Seq<char>>, path: Seq<char>, m: int)
    requires
        0 <= m <= lines.len(),
        env_parse_hits_lone_quote(lines.take(m), path),
    ensures
        env_parse_hits_lone_quote(lines, path),
    decreases lines.len() - m,
{
    if m < lines.len() {
        assert(lines.take(m + 1).drop_last() =~= lines.take(m));
        lemma_lone_quote_extends(lines, path, m + 1);
    } else {
        assert(lines.take(m) =~= lines);
    }
}

/// Once reading the prefix of `m` lines fails without reaching a lone
/// quote, no longer text reaches one.
proof fn lemma_no_lone_quote_after_error(lines: Seq<Seq<char>>, path: Seq<char>, m: int)
    requires
        0 <= m <= lines.len(),
        env_parse(lines.take(m), path) is Err,
        !env_parse_hits_lone_quote(lines.take(m), path),
    ensures
        !env_parse_hits_lone_quote(lines, path),
    decreases lines.len() - m,
{
    if m < lines.len() {
        assert(lines.take(m + 1).drop_last() =~= lines.take(m));
        lemma_no_lone_quote_after_error(lines, path, m + 1);
    } else {
        assert(lines.take(m) =~= lines);
    }
}

/// The variables of a `.env` file, given what reading it gave: `None` when
/// the file does not exist (no variables), the I/O error's text when the
/// read failed, else the file's text.
pub fn load_env_file(read: Option<Result<String, String>>, path: &str) -> (r: Result<EnvVars, ConfigError>)
    requires
        read matches Some(Ok(content)) ==> !env_parse_hits_lone_quote(split_lines(content@), path@),
    ensures
        match read {
            None => r matches Ok(v) && v.pairs().len() == 0,
            Some(Err(io)) => r matches Err(ConfigError::Io(x)) && x@ == io@,
            Some(Ok(content)) => match env_parse(split_lines(content@), path@) {
                Ok(vars) => r matches Ok(v) && v.pairs() == vars,
                Err(m) => r matches Err(ConfigError::Validation(x)) && x@ == m,
            },
        },
{
    match read {
        None => Ok(EnvVars::new()),
        Some(Err(io)) => Err(ConfigError::Io(io)),
        Some(Ok(content)) => parse_env_content(content.as_str(), path),
    }
}

/// A configuration as loaded, accepted only if it validates.
pub fn parse_config(loaded: Result<DmnConfig, ConfigError>) -> (r: Result<DmnConfig, ConfigError>)
    requires
        loaded matches Ok(c) ==> c.services.wf(),
    ensures
        match loaded {
            Err(e) => r == Err::<DmnConfig, ConfigError>(e),
            Ok(c) => match r {
                Ok(c2) => c2 == c && config_valid(c),
                Err(err) => !config_valid(c) && validation_error(c, err),
            },
        },
{
    match loaded {
        Err(e) => Err(e),
        Ok(c) => match c.validate() {
            Ok(()) => Ok(c),
            Err(err) => Err(err),
        },
    }
}

} // verus!
