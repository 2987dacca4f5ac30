//! Log capture: bounded per-service ring buffers of log lines.
//!
//! A `CircularBuffer` keeps the most recent lines pushed into it, up to its
//! maximum size; a `LogBuffer` keeps one such buffer per service name.

use vstd::prelude::*;
use vstd::string::*;
use crate::text::{decimal, push_char, str_eq, u64_to_decimal};

verus! {

/// When a log line was captured, relative to the Unix epoch.
#[derive(Debug, Clone, Copy, PartialEq, Eq, Structural)]
pub enum LogTimestamp {
    /// `secs` whole seconds and `nanos` nanoseconds after the epoch.
    SinceEpoch { secs: u64, nanos: u32 },
    /// The clock read a time before the epoch.
    BeforeEpoch,
}

impl LogTimestamp {
    /// Reads the system clock.
    ///
    /// Trusted: calls `SystemTime::now` and `SystemTime::duration_since`;
    /// the clock's value is not stated, only that `Duration::subsec_nanos`
    /// is below one billion, as its documentation says.
    #[verifier::external_body]
    pub(crate) fn now() -> (t: LogTimestamp)
        ensures
            t matches LogTimestamp::SinceEpoch { nanos, .. } ==> nanos < 1_000_000_000,
    {
        match std::time::SystemTime::now().duration_since(std::time::UNIX_EPOCH) {
            Ok(d) => LogTimestamp::SinceEpoch { secs: d.as_secs(), nanos: d.subsec_nanos() },
            Err(_) => LogTimestamp::BeforeEpoch,
        }
    }

    /// Whole seconds since the epoch, or 0 before it.
    pub fn epoch_secs(&self) -> (r: u64)
        ensures
            r == match *self {
                LogTimestamp::SinceEpoch { secs, .. } => secs,
                LogTimestamp::BeforeEpoch => 0,
            },
    {
        match self {
            LogTimestamp::SinceEpoch { secs, .. } => *secs,
            LogTimestamp::BeforeEpoch => 0,
        }
    }
}

/// Which output stream of a process a line came from.
#[derive(Debug, Clone, Copy, PartialEq, Eq, Structural)]
pub enum LogStream {
    Stdout,
    Stderr,
}

/// One captured line of process output.
#[derive(Debug)]
pub struct LogLine {
    pub timestamp: LogTimestamp,
    pub content: String,
    pub stream: LogStream,
}

impl Clone for LogLine {
    fn clone(&self) -> (r: Self)
        ensures
            r == *self,
    {
        LogLine { timestamp: self.timestamp, content: self.content.clone(), stream: self.stream }
    }
}

/// `s` left-padded with zeros to at least three characters, as `{:03}` does.
pub open spec fn pad3(s: Seq<char>) -> Seq<char> {
    if s.len() >= 3 {
        s
    } else if s.len() == 2 {
        seq!['0'] + s
    } else {
        seq!['0', '0'] + s
    }
}

/// Rendering of a timestamp: `<secs>.<millis padded to 3>`, or `unknown`.
pub open spec fn timestamp_text(t: LogTimestamp) -> Seq<char> {
    match t {
        LogTimestamp::SinceEpoch { secs, nanos } =>
            decimal(secs as nat) + seq!['.'] + pad3(decimal((nanos / 1_000_000) as nat)),
        LogTimestamp::BeforeEpoch => seq!['u', 'n', 'k', 'n', 'o', 'w', 'n'],
    }
}

pub proof fn lemma_decimal_nonempty(n: nat)
    ensures
        decimal(n).len() >= 1,
    decreases n,
{
    if n >= 10 {
        lemma_decimal_nonempty(n / 10);
    }
}

impl LogLine {
    /// A line captured now.
    pub fn new(content: String, stream: LogStream) -> (r: LogLine)
        ensures
            r.content == content,
            r.stream == stream,
    {
        LogLine { timestamp: LogTimestamp::now(), content, stream }
    }

    /// Formats the timestamp for display: seconds, a dot, and milliseconds
    /// padded to three digits; `unknown` for a time before the epoch.
    pub fn timestamp_str(&self) -> (r: String)
        ensures
            r@ == timestamp_text(self.timestamp),
    {
        match self.timestamp {
            LogTimestamp::SinceEpoch { secs, nanos } => {
                let mut r = u64_to_decimal(secs);
                push_char(&mut r, '.');
                let millis = u64_to_decimal((nanos / 1_000_000) as u64);
                proof { lemma_decimal_nonempty((nanos / 1_000_000) as nat); }
                let n = millis.unicode_len();
                if n == 1 {
                    push_char(&mut r, '0');
                    push_char(&mut r, '0');
                } else if n == 2 {
                    push_char(&mut r, '0');
                }
                r.append(millis.as_str());
                proof {
                    let d = decimal((nanos / 1_000_000) as nat);
                    assert(d.len() == n);
                    if n == 1 {
                        assert(seq!['0', '0'] + d =~= seq!['0', '0'].add(d));
                    }
                }
                assert(r@ =~= timestamp_text(self.timestamp));
                r
            }
            LogTimestamp::BeforeEpoch => {
                let mut r = String::new();
                push_char(&mut r, 'u');
                push_char(&mut r, 'n');
                push_char(&mut r, 'k');
                push_char(&mut r, 'n');
                push_char(&mut r, 'o');
                push_char(&mut r, 'w');
                push_char(&mut r, 'n');
                assert(r@ =~= timestamp_text(self.timestamp));
                r
            }
        }
    }
}

/// How many lines a read asks for.
#[derive(Debug, Clone, Copy)]
pub enum LogLineCount {
    /// The most recent `n` lines (fewer when fewer are held).
    Last(usize),
    /// Every line held.
    All,
}

/// The number of lines a buffer of maximum size `max` can hold: pushing
/// always keeps the new line, so a size of 0 behaves like 1.
pub open spec fn capacity(max: nat) -> nat {
    if max == 0 { 1 } else { max }
}

/// The lines held after pushing `line` onto `held` in a buffer of maximum
/// size `max`: the oldest line is dropped first when the buffer is full.
pub open spec fn pushed(held: Seq<LogLine>, max: nat, line: LogLine) -> Seq<LogLine> {
    if held.len() >= max && held.len() > 0 {
        held.drop_first().push(line)
    } else {
        held.push(line)
    }
}

/// The lines a read returns from `held`, oldest first.
pub open spec fn selected(held: Seq<LogLine>, count: LogLineCount) -> Seq<LogLine> {
    match count {
        LogLineCount::All => held,
        LogLineCount::Last(n) => {
            let k = if n < held.len() { n as int } else { held.len() as int };
            held.subrange(held.len() - k, held.len() as int)
        },
    }
}

/// The last `k` elements of `s` (all of `s` when it is shorter).
pub open spec fn last_k(s: Seq<LogLine>, k: nat) -> Seq<LogLine> {
    if s.len() <= k { s } else { s.subrange(s.len() - k, s.len() as int) }
}

/// The lines held after pushing every line of `history`, in order, onto an
/// empty buffer of maximum size `max`.
pub open spec fn push_all(history: Seq<LogLine>, max: nat) -> Seq<LogLine>
    decreases history.len(),
{
    if history.len() == 0 {
        Seq::empty()
    } else {
        pushed(push_all(history.drop_last(), max), max, history.last())
    }
}

/// A buffer of log lines that drops its oldest line when a push finds it full.
pub struct CircularBuffer {
    lines: std::collections::VecDeque<LogLine>,
    max_size: usize,
}

impl View for CircularBuffer {
    type V = Seq<LogLine>;

    closed spec fn view(&self) -> Seq<LogLine> {
        self.lines@
    }
}

impl CircularBuffer {
    /// The maximum size the buffer was made with.
    pub closed spec fn max(&self) -> nat {
        self.max_size as nat
    }

    /// An empty buffer keeping at most `max_size` lines.
    pub fn new(max_size: usize) -> (r: Self)
        ensures
            r@ == Seq::<LogLine>::empty(),
            r.max() == max_size,
    {
        CircularBuffer { lines: std::collections::VecDeque::new(), max_size }
    }

    /// Appends a line, first dropping the oldest line if the buffer is full.
    pub fn push(&mut self, line: LogLine)
        ensures
            final(self)@ == pushed(old(self)@, old(self).max(), line),
            final(self).max() == old(self).max(),
    {
        if self.lines.len() >= self.max_size {
            let _ = self.lines.pop_front();
        }
        self.lines.push_back(line);
        proof {
            if old(self).lines@.len() >= old(self).max_size && old(self).lines@.len() > 0 {
                assert(old(self).lines@.subrange(1, old(self).lines@.len() as int)
                    =~= old(self).lines@.drop_first());
            }
        }
    }

    /// Copies of the selected lines, oldest first.
    pub fn get_lines(&self, count: LogLineCount) -> (r: Vec<LogLine>)
        ensures
            r@ == selected(self@, count),
    {
        let n = self.lines.len();
        let start: usize = match count {
            LogLineCount::All => 0,
            LogLineCount::Last(k) => if k < n { n - k } else { 0 },
        };
        let mut r: Vec<LogLine> = Vec::new();
        let mut i = start;
        while i < n
            invariant
                n == self.lines@.len(),
                start <= i <= n,
                r@ == self.lines@.subrange(start as int, i as int),
            decreases n - i,
        {
            r.push(self.lines[i].clone());
            i = i + 1;
        }
        proof {
            assert(self.lines@.subrange(0, n as int) =~= self.lines@);
        }
        r
    }

    /// Number of lines held.
    pub fn len(&self) -> (r: usize)
        ensures
            r == self@.len(),
    {
        self.lines.len()
    }

    /// Whether no line is held.
    pub fn is_empty(&self) -> (r: bool)
        ensures
            r == (self@.len() == 0),
    {
        self.lines.len() == 0
    }

    /// Drops every line.
    pub fn clear(&mut self)
        ensures
            final(self)@ == Seq::<LogLine>::empty(),
            final(self).max() == old(self).max(),
    {
        self.lines.clear();
    }
}

/// A buffer holds at most `capacity(max)` lines: the lines pushed into an
/// empty buffer, in any number, leave exactly the last `capacity(max)` of
/// them (all of them when fewer were pushed), in the order they came.
pub proof fn law_buffer_keeps_last_lines(history: Seq<LogLine>, max: nat)
    ensures
        push_all(history, max) == last_k(history, capacity(max)),
    decreases history.len(),
{
    if history.len() > 0 {
        let prev = history.drop_last();
        law_buffer_keeps_last_lines(prev, max);
        let c = capacity(max);
        let held = last_k(prev, c);
        if prev.len() < c {
            assert(held == prev);
            assert(prev.push(history.last()) =~= history);
        } else {
            assert(held.len() == c);
            assert(held.drop_first().push(history.last()) =~= last_k(history, c));
        }
    }
}

/// A read of the last `n` lines returns the lines that a read of all lines
/// ends with, and no more than `n` of them.
pub proof fn law_last_is_suffix_of_all(held: Seq<LogLine>, n: usize)
    ensures
        selected(held, LogLineCount::Last(n)).len() <= n,
        selected(held, LogLineCount::Last(n)).len() <= held.len(),
        held.subrange(held.len() - selected(held, LogLineCount::Last(n)).len(), held.len() as int)
            == selected(held, LogLineCount::Last(n)),
{
}

/// Whether the service names of `entries` are pairwise distinct.
pub open spec fn names_unique(entries: Seq<(String, CircularBuffer)>) -> bool {
    forall|i: int, j: int|
        0 <= i < entries.len() && 0 <= j < entries.len() && i != j
            ==> #[trigger] entries[i].0@ != #[trigger] entries[j].0@
}

/// The map from service name to held lines that `entries` describe.
pub open spec fn entries_map(entries: Seq<(String, CircularBuffer)>) -> Map<Seq<char>, Seq<LogLine>> {
    Map::new(
        |k: Seq<char>| exists|i: int| 0 <= i < entries.len() && entries[i].0@ == k,
        |k: Seq<char>| entries[choose|i: int| 0 <= i < entries.len() && entries[i].0@ == k].1@,
    )
}

pub proof fn lemma_entries_map_at(entries: Seq<(String, CircularBuffer)>, i: int)
    requires
        names_unique(entries),
        0 <= i < entries.len(),
    ensures
        entries_map(entries).contains_key(entries[i].0@),
        entries_map(entries)[entries[i].0@] == entries[i].1@,
{
    let k = entries[i].0@;
    assert(entries_map(entries).contains_key(k));
    let j = choose|j: int| 0 <= j < entries.len() && entries[j].0@ == k;
    assert(j == i);
}

/// The lines held for `service` (none when it has no buffer).
pub open spec fn held_for(m: Map<Seq<char>, Seq<LogLine>>, service: Seq<char>) -> Seq<LogLine> {
    if m.contains_key(service) { m[service] } else { Seq::empty() }
}

/// Per-service log buffers, each holding at most a fixed number of lines.
pub struct LogBuffer {
    buffers: Vec<(String, CircularBuffer)>,
    max_lines_per_service: usize,
}

impl View for LogBuffer {
    type V = Map<Seq<char>, Seq<LogLine>>;

    closed spec fn view(&self) -> Map<Seq<char>, Seq<LogLine>> {
        entries_map(self.buffers@)
    }
}

impl LogBuffer {
    /// The maximum number of lines kept per service.
    pub closed spec fn max_lines(&self) -> nat {
        self.max_lines_per_service as nat
    }

    /// Internal consistency: one buffer per name, all of the same size.
    pub closed spec fn wf(&self) -> bool {
        &&& names_unique(self.buffers@)
        &&& forall|i: int| 0 <= i < self.buffers@.len()
                ==> (#[trigger] self.buffers@[i]).1.max() == self.max_lines_per_service
    }

    /// No service has a buffer yet.
    pub fn new(max_lines_per_service: usize) -> (r: Self)
        ensures
            r.wf(),
            r@ == Map::<Seq<char>, Seq<LogLine>>::empty(),
            r.max_lines() == max_lines_per_service,
    {
        let r = LogBuffer { buffers: Vec::new(), max_lines_per_service };
        assert(r@ =~= Map::<Seq<char>, Seq<LogLine>>::empty());
        r
    }

    fn find(&self, service: &str) -> (r: Option<usize>)
        requires
            self.wf(),
        ensures
            match r {
                Some(i) => i < self.buffers@.len() && self.buffers@[i as int].0@ == service@,
                None => !self@.contains_key(service@),
            },
    {
        let mut i: usize = 0;
        while i < self.buffers.len()
            invariant
                i <= self.buffers@.len(),
                forall|j: int| 0 <= j < i ==> self.buffers@[j].0@ != service@,
            decreases self.buffers@.len() - i,
        {
            if str_eq(self.buffers[i].0.as_str(), service) {
                return Some(i);
            }
            i = i + 1;
        }
        None
    }

    /// Appends a line to the service's buffer, creating the buffer first if
    /// the service has none; a full buffer drops its oldest line.
    pub fn append(&mut self, service: &str, line: LogLine)
        requires
            old(self).wf(),
        ensures
            final(self).wf(),
            final(self).max_lines() == old(self).max_lines(),
            final(self)@ == old(self)@.insert(
                service@,
                pushed(held_for(old(self)@, service@), old(self).max_lines(), line),
            ),
    {
        let ghost old_entries = self.buffers@;
        match self.find(service) {
            Some(i) => {
                proof { lemma_entries_map_at(old_entries, i as int); }
                let mut entry = self.buffers.remove(i);
                entry.1.push(line);
                self.buffers.insert(i, entry);
                proof {
                    let new_entries = self.buffers@;
                    assert(new_entries =~= old_entries.update(i as int, new_entries[i as int]));
                    assert(names_unique(new_entries)) by {
                        assert forall|a: int, b: int|
                            0 <= a < new_entries.len() && 0 <= b < new_entries.len() && a != b
                            implies #[trigger] new_entries[a].0@ != #[trigger] new_entries[b].0@ by {
                            assert(new_entries[a].0@ == old_entries[a].0@);
                            assert(new_entries[b].0@ == old_entries[b].0@);
                        }
                    }
                    assert forall|k: Seq<char>| #[trigger] self@.contains_key(k)
                        <==> old(self)@.insert(service@, pushed(held_for(old(self)@, service@), old(self).max_lines(), line)).contains_key(k) by {
                        if self@.contains_key(k) {
                            let j = choose|j: int| 0 <= j < new_entries.len() && new_entries[j].0@ == k;
                            assert(old_entries[j].0@ == k);
                            lemma_entries_map_at(old_entries, j);
                        }
                        if old(self)@.contains_key(k) {
                            let j = choose|j: int| 0 <= j < old_entries.len() && old_entries[j].0@ == k;
                            assert(new_entries[j].0@ == k);
                            lemma_entries_map_at(new_entries, j);
                        }
                        if k == service@ {
                            lemma_entries_map_at(new_entries, i as int);
                        }
                    }
                    assert forall|k: Seq<char>| #[trigger] self@.contains_key(k)
                        implies self@[k] == old(self)@.insert(service@, pushed(held_for(old(self)@, service@), old(self).max_lines(), line))[k] by {
                        let j = choose|j: int| 0 <= j < new_entries.len() && new_entries[j].0@ == k;
                        lemma_entries_map_at(new_entries, j);
                        lemma_entries_map_at(old_entries, j);
                    }
                    assert(self@ =~= old(self)@.insert(service@, pushed(held_for(old(self)@, service@), old(self).max_lines(), line)));
                }
            }
            None => {
                let mut buf = CircularBuffer::new(self.max_lines_per_service);
                buf.push(line);
                let name = crate::text::owned(service);
                self.buffers.push((name, buf));
                proof {
                    let new_entries = self.buffers@;
                    let n = old_entries.len() as int;
                    assert(new_entries =~= old_entries.push(new_entries[n]));
                    assert(names_unique(new_entries)) by {
                        assert forall|a: int, b: int|
                            0 <= a < new_entries.len() && 0 <= b < new_entries.len() && a != b
                            implies #[trigger] new_entries[a].0@ != #[trigger] new_entries[b].0@ by {
                            if a == n {
                                assert(old_entries[b].0@ != service@) by {
                                    if old_entries[b].0@ == service@ {
                                        assert(old(self)@.contains_key(service@));
                                    }
                                }
                            } else if b == n {
                                assert(old_entries[a].0@ != service@) by {
                                    if old_entries[a].0@ == service@ {
                                        assert(old(self)@.contains_key(service@));
                                    }
                                }
                            }
                        }
                    }
                    let target = old(self)@.insert(service@, pushed(held_for(old(self)@, service@), old(self).max_lines(), line));
                    assert forall|k: Seq<char>| #[trigger] self@.contains_key(k) <==> target.contains_key(k) by {
                        if self@.contains_key(k) {
                            let j = choose|j: int| 0 <= j < new_entries.len() && new_entries[j].0@ == k;
                            if j < n {
                                lemma_entries_map_at(old_entries, j);
                            }
                        }
                        if old(self)@.contains_key(k) {
                            let j = choose|j: int| 0 <= j < old_entries.len() && old_entries[j].0@ == k;
                            assert(new_entries[j].0@ == k);
                            lemma_entries_map_at(new_entries, j);
                        }
                        if k == service@ {
                            lemma_entries_map_at(new_entries, n);
                        }
                    }
                    assert forall|k: Seq<char>| #[trigger] self@.contains_key(k) implies self@[k] == target[k] by {
                        let j = choose|j: int| 0 <= j < new_entries.len() && new_entries[j].0@ == k;
                        lemma_entries_map_at(new_entries, j);
                        if j < n {
                            lemma_entries_map_at(old_entries, j);
                        }
                    }
                    assert(self@ =~= target);
                }
            }
        }
    }

    /// The selected lines of the service, oldest first; none for a service
    /// without a buffer.
    pub fn get_lines(&self, service: &str, count: LogLineCount) -> (r: Vec<LogLine>)
        requires
            self.wf(),
        ensures
            r@ == selected(held_for(self@, service@), count),
    {
        match self.find(service) {
            Some(i) => {
                proof { lemma_entries_map_at(self.buffers@, i as int); }
                self.buffers[i].1.get_lines(count)
            }
            None => {
                let r: Vec<LogLine> = Vec::new();
                assert(selected(Seq::<LogLine>::empty(), count) =~= Seq::<LogLine>::empty());
                r
            }
        }
    }

    /// Every line held for the service, oldest first.
    pub fn get_all_lines(&self, service: &str) -> (r: Vec<LogLine>)
        requires
            self.wf(),
        ensures
            r@ == held_for(self@, service@),
    {
        self.get_lines(service, LogLineCount::All)
    }

    /// Empties the service's buffer; the service keeps an (empty) buffer.
    pub fn clear_service(&mut self, service: &str)
        requires
            old(self).wf(),
        ensures
            final(self).wf(),
            final(self).max_lines() == old(self).max_lines(),
            final(self)@ == if old(self)@.contains_key(service@) {
                old(self)@.insert(service@, Seq::<LogLine>::empty())
            } else {
                old(self)@
            },
    {
        let ghost old_entries = self.buffers@;
        match self.find(service) {
            Some(i) => {
                proof { lemma_entries_map_at(old_entries, i as int); }
                let mut entry = self.buffers.remove(i);
                entry.1.clear();
                self.buffers.insert(i, entry);
                proof {
                    let new_entries = self.buffers@;
                    assert(new_entries =~= old_entries.update(i as int, new_entries[i as int]));
                    assert(names_unique(new_entries)) by {
                        assert forall|a: int, b: int|
                            0 <= a < new_entries.len() && 0 <= b < new_entries.len() && a != b
                            implies #[trigger] new_entries[a].0@ != #[trigger] new_entries[b].0@ by {
                            assert(new_entries[a].0@ == old_entries[a].0@);
                            assert(new_entries[b].0@ == old_entries[b].0@);
                        }
                    }
                    let target = old(self)@.insert(service@, Seq::<LogLine>::empty());
                    assert forall|k: Seq<char>| #[trigger] self@.contains_key(k) <==> target.contains_key(k) by {
                        if self@.contains_key(k) {
                            let j = choose|j: int| 0 <= j < new_entries.len() && new_entries[j].0@ == k;
                            assert(old_entries[j].0@ == k);
                            lemma_entries_map_at(old_entries, j);
                        }
                        if old(self)@.contains_key(k) {
                            let j = choose|j: int| 0 <= j < old_entries.len() && old_entries[j].0@ == k;
                            assert(new_entries[j].0@ == k);
                            lemma_entries_map_at(new_entries, j);
                        }
                    }
                    assert forall|k: Seq<char>| #[trigger] self@.contains_key(k) implies self@[k] == target[k] by {
                        let j = choose|j: int| 0 <= j < new_entries.len() && new_entries[j].0@ == k;
                        lemma_entries_map_at(new_entries, j);
                        lemma_entries_map_at(old_entries, j);
                    }
                    assert(self@ =~= target);
                }
            }
            None => {}
        }
    }

    /// Drops every service's buffer.
    pub fn clear_all(&mut self)
        requires
            old(self).wf(),
        ensures
            final(self).wf(),
            final(self).max_lines() == old(self).max_lines(),
            final(self)@ == Map::<Seq<char>, Seq<LogLine>>::empty(),
    {
        self.buffers.clear();
        assert(self@ =~= Map::<Seq<char>, Seq<LogLine>>::empty());
    }

    /// The names of the services that have a buffer, each once.
    pub fn services(&self) -> (r: Vec<String>)
        requires
            self.wf(),
        ensures
            r@.len() == self@.dom().len(),
            forall|i: int| 0 <= i < r@.len() ==> self@.contains_key(#[trigger] r@[i]@),
            forall|k: Seq<char>| self@.contains_key(k) ==> exists|i: int| 0 <= i < r@.len() && r@[i]@ == k,
            forall|i: int, j: int| 0 <= i < r@.len() && 0 <= j < r@.len() && i != j ==> r@[i]@ != r@[j]@,
    {
        let mut r: Vec<String> = Vec::new();
        let mut i: usize = 0;
        while i < self.buffers.len()
            invariant
                self.wf(),
                i <= self.buffers@.len(),
                r@.len() == i,
                forall|j: int| 0 <= j < i ==> (#[trigger] r@[j])@ == self.buffers@[j].0@,
            decreases self.buffers@.len() - i,
        {
            r.push(self.buffers[i].0.clone());
            i = i + 1;
        }
        proof {
            let entries = self.buffers@;
            assert forall|j: int| 0 <= j < r@.len() implies self@.contains_key(#[trigger] r@[j]@) by {
                lemma_entries_map_at(entries, j);
            }
            let keys = r@.map_values(|s: String| s@);
            assert forall|k: Seq<char>| self@.contains_key(k) implies exists|i: int| 0 <= i < r@.len() && r@[i]@ == k by {
                let j = choose|j: int| 0 <= j < entries.len() && entries[j].0@ == k;
                assert(r@[j]@ == k);
            }
            assert(keys.no_duplicates());
            assert(keys.to_set() =~= self@.dom()) by {
                assert forall|k: Seq<char>| keys.to_set().contains(k) implies self@.dom().contains(k) by {
                    let j = choose|j: int| 0 <= j < keys.len() && keys[j] == k;
                    lemma_entries_map_at(entries, j);
                }
                assert forall|k: Seq<char>| self@.dom().contains(k) implies keys.to_set().contains(k) by {
                    let j = choose|j: int| 0 <= j < entries.len() && entries[j].0@ == k;
                    assert(keys[j] == k);
                }
            }
            keys.unique_seq_to_set();
        }
        r
    }
}

/// Reading back a service right after appending to it returns the appended
/// line last, and leaves every other service's lines unchanged.
pub proof fn law_append_then_read(
    before: Map<Seq<char>, Seq<LogLine>>,
    service: Seq<char>,
    max: nat,
    line: LogLine,
    other: Seq<char>,
)
    ensures
        ({
            let after = before.insert(service, pushed(held_for(before, service), max, line));
            &&& held_for(after, service).last() == line
            &&& held_for(after, service).len() >= 1
            &&& selected(held_for(after, service), LogLineCount::Last(1)) == seq![line]
            &&& other != service ==> held_for(after, other) == held_for(before, other)
        }),
{
    let after = before.insert(service, pushed(held_for(before, service), max, line));
    assert(selected(held_for(after, service), LogLineCount::Last(1)) =~= seq![line]);
}

} // verus!
