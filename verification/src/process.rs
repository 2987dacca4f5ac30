//! Service processes: their lifecycle states, the errors of managing them,
//! the splitting of a command line into program and arguments, and the
//! table of service states that decides what spawning, stopping and
//! polling a process does.

use vstd::prelude::*;
use vstd::string::*;
use crate::logs::LogLine;
use crate::table::{find_key, first_index, key_seq, lemma_first_index};
use crate::text::{char_is_white, i32_to_decimal, is_white, push_char, signed_decimal, str_chars};

verus! {

/// Where a service is in its lifecycle.
#[derive(Debug, Clone, Copy, PartialEq, Eq, Structural)]
pub enum ServiceStatus {
    NotStarted,
    Starting,
    Running,
    Stopped,
    Failed { exit_code: i32 },
}

/// A log line captured from a service, as an event.
#[derive(Debug, Clone)]
pub struct LogLineEvent {
    pub service: String,
    pub line: LogLine,
}

/// A service process that ended on its own.
#[derive(Debug, Clone)]
pub struct ProcessExitEvent {
    pub service: String,
    pub status: ServiceStatus,
    pub reason: String,
}

/// Why managing a process failed.
#[derive(Debug)]
pub enum ProcessError {
    /// An operating-system operation failed; the text is its error.
    Io(String),
    ServiceNotFound(String),
    AlreadyRunning(String),
    NotRunning(String),
    CommandParse(String),
    StopTimeout(String),
}

/// Display text of a process error.
pub open spec fn process_error_text(e: ProcessError) -> Seq<char> {
    match e {
        ProcessError::Io(m) => "IO error: "@ + m@,
        ProcessError::ServiceNotFound(m) => "Service not found: "@ + m@,
        ProcessError::AlreadyRunning(m) => "Service already running: "@ + m@,
        ProcessError::NotRunning(m) => "Service not running: "@ + m@,
        ProcessError::CommandParse(m) => "Failed to parse command: "@ + m@,
        ProcessError::StopTimeout(m) => "Timeout waiting for process to stop: "@ + m@,
    }
}

impl ProcessError {
    /// Display text, such as `Service not found: api`.
    pub fn to_string(&self) -> (r: String)
        ensures
            r@ == process_error_text(*self),
    {
        let mut r = String::new();
        match self {
            ProcessError::Io(m) => {
                r.append("IO error: ");
                r.append(m.as_str());
            },
            ProcessError::ServiceNotFound(m) => {
                r.append("Service not found: ");
                r.append(m.as_str());
            },
            ProcessError::AlreadyRunning(m) => {
                r.append("Service already running: ");
                r.append(m.as_str());
            },
            ProcessError::NotRunning(m) => {
                r.append("Service not running: ");
                r.append(m.as_str());
            },
            ProcessError::CommandParse(m) => {
                r.append("Failed to parse command: ");
                r.append(m.as_str());
            },
            ProcessError::StopTimeout(m) => {
                r.append("Timeout waiting for process to stop: ");
                r.append(m.as_str());
            },
        }
        r
    }
}

/// The state of the command-line tokenizer: finished arguments, the
/// argument being read, inside single quotes, inside double quotes, after
/// a backslash.
pub type TokenizerState = (Seq<Seq<char>>, Seq<char>, bool, bool, bool);

/// One character of tokenizing. A backslash outside single quotes makes the
/// next character literal; quotes of one kind are literal inside quotes of
/// the other; whitespace outside quotes ends an argument.
pub open spec fn tokenize_step(st: TokenizerState, c: char) -> TokenizerState {
    let (args, cur, sq, dq, esc) = st;
    if esc {
        (args, cur.push(c), sq, dq, false)
    } else if c == '\\' {
        if sq { (args, cur.push(c), sq, dq, false) } else { (args, cur, sq, dq, true) }
    } else if c == '\'' {
        if dq { (args, cur.push(c), sq, dq, false) } else { (args, cur, !sq, dq, false) }
    } else if c == '"' {
        if sq { (args, cur.push(c), sq, dq, false) } else { (args, cur, sq, !dq, false) }
    } else if is_white(c) {
        if sq || dq {
            (args, cur.push(c), sq, dq, false)
        } else if cur.len() > 0 {
            (args.push(cur), Seq::empty(), sq, dq, false)
        } else {
            st
        }
    } else {
        (args, cur.push(c), sq, dq, false)
    }
}

/// The tokenizer state after reading `cs`.
pub open spec fn tokenize(cs: Seq<char>) -> TokenizerState
    decreases cs.len(),
{
    if cs.len() == 0 {
        (Seq::empty(), Seq::empty(), false, false, false)
    } else {
        tokenize_step(tokenize(cs.drop_last()), cs.last())
    }
}

/// The arguments of a command line, or why there are none.
pub open spec fn command_parts(cs: Seq<char>) -> Result<Seq<Seq<char>>, Seq<char>> {
    let (args, cur, sq, dq, esc) = tokenize(cs);
    let all = if cur.len() > 0 { args.push(cur) } else { args };
    if all.len() == 0 {
        Err("Command is empty"@)
    } else if sq || dq {
        Err("Unbalanced quotes in command"@)
    } else {
        Ok(all)
    }
}

proof fn lemma_tokenize_nonempty_args(cs: Seq<char>)
    ensures
        forall|i: int| 0 <= i < tokenize(cs).0.len() ==> #[trigger] tokenize(cs).0[i].len() > 0,
    decreases cs.len(),
{
    if cs.len() > 0 {
        lemma_tokenize_nonempty_args(cs.drop_last());
        let st = tokenize(cs.drop_last());
        let nx = tokenize(cs);
        assert(nx == tokenize_step(st, cs.last()));
        assert(nx.0 == st.0 || (nx.0 == st.0.push(st.1) && st.1.len() > 0));
        assert forall|i: int| 0 <= i < nx.0.len() implies #[trigger] nx.0[i].len() > 0 by {
            if i < st.0.len() {
                assert(nx.0[i] == st.0[i]);
            }
        }
    }
}

/// Splitting at whitespace, as `str::split_whitespace` does, read from the
/// left: the words finished so far and the word being read.
pub open spec fn whitespace_split(cs: Seq<char>) -> (Seq<Seq<char>>, Seq<char>)
    decreases cs.len(),
{
    if cs.len() == 0 {
        (Seq::empty(), Seq::empty())
    } else {
        let (words, cur) = whitespace_split(cs.drop_last());
        let c = cs.last();
        if !is_white(c) {
            (words, cur.push(c))
        } else if cur.len() > 0 {
            (words.push(cur), Seq::empty())
        } else {
            (words, cur)
        }
    }
}

/// The words of `cs`: its maximal runs of non-whitespace characters.
pub open spec fn words(cs: Seq<char>) -> Seq<Seq<char>> {
    let (done, cur) = whitespace_split(cs);
    if cur.len() > 0 { done.push(cur) } else { done }
}

/// `cs` holds no quote and no backslash.
pub open spec fn plain_command(cs: Seq<char>) -> bool {
    forall|i: int| 0 <= i < cs.len() ==> #[trigger] cs[i] != '\'' && cs[i] != '"' && cs[i] != '\\'
}

proof fn lemma_plain_tokenize(cs: Seq<char>)
    requires
        plain_command(cs),
    ensures
        tokenize(cs) == (whitespace_split(cs).0, whitespace_split(cs).1, false, false, false),
    decreases cs.len(),
{
    if cs.len() > 0 {
        let d = cs.drop_last();
        assert forall|i: int| 0 <= i < d.len() implies #[trigger] d[i] != '\'' && d[i] != '"' && d[i] != '\\' by {
            assert(d[i] == cs[i]);
        }
        lemma_plain_tokenize(d);
        assert(cs[cs.len() - 1] == cs.last());
    }
}

/// The characters of `cs` that are not whitespace, in order.
pub open spec fn non_white(cs: Seq<char>) -> Seq<char> {
    cs.filter(|c: char| !is_white(c))
}

proof fn lemma_whitespace_split_parts(cs: Seq<char>)
    ensures
        forall|i: int| 0 <= i < whitespace_split(cs).0.len() ==> #[trigger] whitespace_split(cs).0[i].len() > 0,
        forall|i: int, j: int|
            0 <= i < whitespace_split(cs).0.len() && 0 <= j < whitespace_split(cs).0[i].len() ==> !is_white(
                #[trigger] whitespace_split(cs).0[i][j],
            ),
        forall|j: int| 0 <= j < whitespace_split(cs).1.len() ==> !is_white(#[trigger] whitespace_split(cs).1[j]),
        whitespace_split(cs).0.flatten() + whitespace_split(cs).1 == non_white(cs),
    decreases cs.len(),
{
    if cs.len() == 0 {
        assert(non_white(cs) =~= Seq::<char>::empty()) by {
            reveal(Seq::filter);
        }
        assert(Seq::<Seq<char>>::empty().flatten() + Seq::<char>::empty() =~= Seq::<char>::empty());
    } else {
        let d = cs.drop_last();
        let c = cs.last();
        lemma_whitespace_split_parts(d);
        let (done, cur) = whitespace_split(d);
        assert(cs =~= d.push(c));
        d.lemma_filter_push(c, |x: char| !is_white(x));
        if !is_white(c) {
            assert(done.flatten() + cur.push(c) =~= (done.flatten() + cur).push(c));
        } else if cur.len() > 0 {
            done.lemma_flatten_push(cur);
            assert(done.push(cur).flatten() + Seq::<char>::empty() =~= done.flatten() + cur);
            let nd = done.push(cur);
            assert forall|i: int, j: int| 0 <= i < nd.len() && 0 <= j < nd[i].len() implies !is_white(#[trigger] nd[i][j]) by {
                if i < done.len() {
                    assert(nd[i] == done[i]);
                }
            }
        }
    }
}

/// The words of a text are not empty and hold no whitespace, and joined
/// together they give back its non-whitespace characters in order.
pub proof fn law_words_are_the_runs_between_whitespace(cs: Seq<char>)
    ensures
        forall|i: int| 0 <= i < words(cs).len() ==> #[trigger] words(cs)[i].len() > 0,
        forall|i: int, j: int| 0 <= i < words(cs).len() && 0 <= j < words(cs)[i].len() ==> !is_white(#[trigger] words(cs)[i][j]),
        words(cs).flatten() == non_white(cs),
{
    lemma_whitespace_split_parts(cs);
    let (done, cur) = whitespace_split(cs);
    if cur.len() > 0 {
        done.lemma_flatten_push(cur);
        let w = done.push(cur);
        assert forall|i: int, j: int| 0 <= i < w.len() && 0 <= j < w[i].len() implies !is_white(#[trigger] w[i][j]) by {
            if i < done.len() {
                assert(w[i] == done[i]);
            }
        }
    } else {
        assert(done.flatten() + cur =~= done.flatten());
    }
}

/// A command without quotes or backslashes is split as `split_whitespace`
/// splits it; one of whitespace alone is refused as empty.
pub proof fn law_plain_command_splits_at_whitespace(cs: Seq<char>)
    requires
        plain_command(cs),
    ensures
        words(cs).len() > 0 ==> command_parts(cs) == Ok::<Seq<Seq<char>>, Seq<char>>(words(cs)),
        words(cs).len() == 0 ==> command_parts(cs) == Err::<Seq<Seq<char>>, Seq<char>>("Command is empty"@),
{
    lemma_plain_tokenize(cs);
}

/// The tokenizer state after reading `cs`, starting from `st`.
pub open spec fn tokenize_from(st: TokenizerState, cs: Seq<char>) -> TokenizerState
    decreases cs.len(),
{
    if cs.len() == 0 {
        st
    } else {
        tokenize_step(tokenize_from(st, cs.drop_last()), cs.last())
    }
}

proof fn lemma_tokenize_is_from_start(cs: Seq<char>)
    ensures
        tokenize(cs) == tokenize_from((Seq::empty(), Seq::empty(), false, false, false), cs),
    decreases cs.len(),
{
    if cs.len() > 0 {
        lemma_tokenize_is_from_start(cs.drop_last());
    }
}

proof fn lemma_tokenize_from_concat(st: TokenizerState, a: Seq<char>, b: Seq<char>)
    ensures
        tokenize_from(st, a + b) == tokenize_from(tokenize_from(st, a), b),
    decreases b.len(),
{
    if b.len() == 0 {
        assert(a + b =~= a);
    } else {
        assert((a + b).drop_last() =~= a + b.drop_last());
        assert((a + b).last() == b.last());
        lemma_tokenize_from_concat(st, a, b.drop_last());
    }
}

proof fn lemma_tokenize_from_push(st: TokenizerState, x: Seq<char>, c: char)
    ensures
        tokenize_from(st, x.push(c)) == tokenize_step(tokenize_from(st, x), c),
{
    assert(x.push(c).drop_last() =~= x);
}

proof fn lemma_tokenize_in_double_quotes(args: Seq<Seq<char>>, cur: Seq<char>, w: Seq<char>)
    requires
        plain_command(w),
    ensures
        tokenize_from((args, cur, false, true, false), w) == (args, cur + w, false, true, false),
    decreases w.len(),
{
    if w.len() == 0 {
        assert(cur + w =~= cur);
    } else {
        let d = w.drop_last();
        assert forall|i: int| 0 <= i < d.len() implies #[trigger] d[i] != '\'' && d[i] != '"' && d[i] != '\\' by {
            assert(d[i] == w[i]);
        }
        lemma_tokenize_in_double_quotes(args, cur, d);
        assert(w[w.len() - 1] == w.last());
        assert((cur + d).push(w.last()) =~= cur + w);
    }
}

proof fn lemma_tokenize_word(p: Seq<char>)
    requires
        plain_command(p),
        forall|i: int| 0 <= i < p.len() ==> !is_white(#[trigger] p[i]),
    ensures
        tokenize(p) == (Seq::<Seq<char>>::empty(), p, false, false, false),
    decreases p.len(),
{
    if p.len() > 0 {
        let d = p.drop_last();
        assert forall|i: int| 0 <= i < d.len() implies #[trigger] d[i] != '\'' && d[i] != '"' && d[i] != '\\' by {
            assert(d[i] == p[i]);
        }
        assert forall|i: int| 0 <= i < d.len() implies !is_white(#[trigger] d[i]) by {
            assert(d[i] == p[i]);
        }
        lemma_tokenize_word(d);
        assert(p[p.len() - 1] == p.last());
        assert(d.push(p.last()) =~= p);
    }
}

/// Inside double quotes a backslash makes the next character literal, a
/// quote included: for a program word `p` and any text `w` without quotes
/// or backslashes, the command `p "a\"w"` is the program `p` with the one
/// argument `a"w`.
pub proof fn law_backslash_escapes_inside_double_quotes(p: Seq<char>, w: Seq<char>)
    requires
        p.len() > 0,
        plain_command(p),
        forall|i: int| 0 <= i < p.len() ==> !is_white(#[trigger] p[i]),
        plain_command(w),
    ensures
        command_parts(p + seq![' ', '"', 'a', '\\', '"'] + w + seq!['"']) == Ok::<Seq<Seq<char>>, Seq<char>>(
            seq![p, seq!['a', '"'] + w],
        ),
{
    let start: TokenizerState = (Seq::empty(), Seq::empty(), false, false, false);
    let mid = seq![' ', '"', 'a', '\\', '"'];
    let cs = p + mid + w + seq!['"'];
    lemma_tokenize_word(p);
    lemma_tokenize_is_from_start(p);
    lemma_tokenize_is_from_start(cs);
    lemma_tokenize_from_concat(start, p + mid + w, seq!['"']);
    lemma_tokenize_from_concat(start, p + mid, w);
    lemma_tokenize_from_concat(start, p, mid);
    let s0 = tokenize(p);
    let e = Seq::<char>::empty();
    let m1 = e.push(' ');
    let m2 = m1.push('"');
    let m3 = m2.push('a');
    let m4 = m3.push('\\');
    let m5 = m4.push('"');
    assert(m5 =~= mid);
    assert(is_white(' '));
    lemma_tokenize_from_push(s0, e, ' ');
    lemma_tokenize_from_push(s0, m1, '"');
    lemma_tokenize_from_push(s0, m2, 'a');
    lemma_tokenize_from_push(s0, m3, '\\');
    lemma_tokenize_from_push(s0, m4, '"');
    let words0 = Seq::<Seq<char>>::empty().push(p);
    assert(tokenize_from(s0, m1) == (words0, e, false, false, false));
    assert(tokenize_from(s0, m2) == (words0, e, false, true, false));
    assert(tokenize_from(s0, m3) == (words0, e.push('a'), false, true, false));
    assert(tokenize_from(s0, m4) == (words0, e.push('a'), false, true, true));
    assert(tokenize_from(s0, m5) == (words0, e.push('a').push('"'), false, true, false));
    assert(e.push('a').push('"') =~= seq!['a', '"']);
    assert(words0 =~= seq![p]);
    let s1 = tokenize_from(s0, mid);
    assert(s1 == (seq![p], seq!['a', '"'], false, true, false));
    lemma_tokenize_in_double_quotes(seq![p], seq!['a', '"'], w);
    lemma_tokenize_from_push(tokenize_from(start, p + mid + w), Seq::<char>::empty(), '"');
    assert(Seq::<char>::empty().push('"') =~= seq!['"']);
    let s3 = tokenize(cs);
    assert(s3 == (seq![p], seq!['a', '"'] + w, false, false, false));
    assert(seq![p].push(seq!['a', '"'] + w) =~= seq![p, seq!['a', '"'] + w]);
}

/// A process that exits with code 0 has stopped cleanly; any other code,
/// and an end by signal (code -1), is a failure with that code.
pub proof fn law_clean_exit_is_the_only_stop(code: Option<i32>)
    ensures
        exit_outcome(code).0 is Stopped <==> code == Some(0i32),
        code is Some && code->0 != 0 ==> exit_outcome(code).0 == (ServiceStatus::Failed { exit_code: code->0 }),
        code is None ==> exit_outcome(code).0 == (ServiceStatus::Failed { exit_code: -1i32 }),
        !(exit_outcome(code).0 is Running || exit_outcome(code).0 is Starting || exit_outcome(code).0 is NotStarted),
{
}

/// Splits a command line into the program and its arguments, honouring
/// single and double quotes and backslash escapes. No argument is empty.
pub fn parse_command(command: &str) -> (r: Result<Vec<String>, ProcessError>)
    ensures
        match command_parts(command@) {
            Ok(parts) => r matches Ok(v) && v@.map_values(|s: String| s@) == parts,
            Err(m) => r matches Err(ProcessError::CommandParse(x)) && x@ == m,
        },
        r matches Ok(v) ==> forall|i: int| 0 <= i < v@.len() ==> #[trigger] v@[i]@.len() > 0,
{
    let cs = str_chars(command);
    let mut args: Vec<String> = Vec::new();
    let mut current_arg = String::new();
    let mut in_single_quote = false;
    let mut in_double_quote = false;
    let mut escaped = false;
    let mut i: usize = 0;
    while i < cs.len()
        invariant
            cs@ == command@,
            i <= cs@.len(),
            (args@.map_values(|s: String| s@), current_arg@, in_single_quote, in_double_quote, escaped)
                == tokenize(cs@.take(i as int)),
        decreases cs@.len() - i,
    {
        let c = cs[i];
        proof {
            assert(cs@.take(i + 1).drop_last() =~= cs@.take(i as int));
        }
        let ghost before = args@.map_values(|s: String| s@);
        let ghost cur0 = current_arg@;
        if escaped {
            push_char(&mut current_arg, c);
            escaped = false;
        } else if c == '\\' {
            if in_single_quote {
                push_char(&mut current_arg, c);
            } else {
                escaped = true;
            }
        } else if c == '\'' {
            if in_double_quote {
                push_char(&mut current_arg, c);
            } else {
                in_single_quote = !in_single_quote;
            }
        } else if c == '"' {
            if in_single_quote {
                push_char(&mut current_arg, c);
            } else {
                in_double_quote = !in_double_quote;
            }
        } else if char_is_white(c) {
            if in_single_quote || in_double_quote {
                push_char(&mut current_arg, c);
            } else if current_arg.unicode_len() > 0 {
                let done = current_arg;
                args.push(done);
                current_arg = String::new();
                assert(args@.map_values(|s: String| s@) =~= before.push(cur0));
            }
        } else {
            push_char(&mut current_arg, c);
        }
        i = i + 1;
    }
    assert(cs@.take(cs@.len() as int) =~= cs@);
    proof {
        lemma_tokenize_nonempty_args(command@);
    }
    let ghost before = args@.map_values(|s: String| s@);
    let ghost cur0 = current_arg@;
    if current_arg.unicode_len() > 0 {
        args.push(current_arg);
        assert(args@.map_values(|s: String| s@) =~= before.push(cur0));
    }
    proof {
        assert forall|k: int| 0 <= k < args@.len() implies #[trigger] args@[k]@.len() > 0 by {
            if k < before.len() {
                assert(args@[k]@ == before[k]);
            }
        }
    }
    if args.len() == 0 {
        return Err(ProcessError::CommandParse(String::from_str("Command is empty")));
    }
    if in_single_quote || in_double_quote {
        return Err(ProcessError::CommandParse(String::from_str("Unbalanced quotes in command")));
    }
    Ok(args)
}

/// Whether a service in this state is expected to have a live process.
pub open spec fn is_active(s: ServiceStatus) -> bool {
    s is Starting || s is Running
}

/// The state and reason for a process that ended with `code` (`None`:
/// ended by a signal).
pub open spec fn exit_outcome(code: Option<i32>) -> (ServiceStatus, Seq<char>) {
    match code {
        Some(c) => if c == 0 {
            (ServiceStatus::Stopped, "Process exited cleanly"@)
        } else {
            (ServiceStatus::Failed { exit_code: c }, "Process exited with code "@ + signed_decimal(c as int))
        },
        None => (ServiceStatus::Failed { exit_code: -1i32 }, "Process terminated by signal"@),
    }
}

/// The state and reason for a process that ended with `code`: exit code 0
/// is a clean stop, any other code a failure with that code, and an end by
/// signal a failure with code -1.
pub fn exit_status_and_reason(code: Option<i32>) -> (r: (ServiceStatus, String))
    ensures
        r.0 == exit_outcome(code).0,
        r.1@ == exit_outcome(code).1,
{
    match code {
        Some(c) => {
            if c == 0 {
                (ServiceStatus::Stopped, String::from_str("Process exited cleanly"))
            } else {
                let mut reason = String::new();
                reason.append("Process exited with code ");
                let d = i32_to_decimal(c);
                reason.append(d.as_str());
                (ServiceStatus::Failed { exit_code: c }, reason)
            }
        },
        None => (ServiceStatus::Failed { exit_code: -1 }, String::from_str("Process terminated by signal")),
    }
}

/// What asking a process whether it has ended gave.
#[derive(Debug)]
pub enum PollOutcome {
    /// It is still running.
    StillRunning,
    /// It ended, with this exit code (`None`: by a signal).
    Exited(Option<i32>),
    /// Asking failed; the text is the error.
    PollFailed(String),
}

/// The state of each managed service, by name (the first entry of a name
/// counts).
#[derive(Debug)]
pub struct StatusTable {
    entries: Vec<(String, ServiceStatus)>,
}

/// The state recorded for `k`.
pub open spec fn status_of(s: Seq<(String, ServiceStatus)>, k: Seq<char>) -> Option<ServiceStatus> {
    match first_index(key_seq(s), k) {
        Some(i) => Some(s[i].1),
        None => None,
    }
}

/// `s` with the state of `k` set to `v` (appended when `k` has none).
pub open spec fn with_status(s: Seq<(String, ServiceStatus)>, k: String, v: ServiceStatus) -> Seq<(String, ServiceStatus)> {
    match first_index(key_seq(s), k@) {
        Some(i) => s.update(i, (s[i].0, v)),
        None => s.push((k, v)),
    }
}

/// `s` with the state of `k` replaced by `v`, every other entry as it was
/// (unchanged when `k` has no state).
pub open spec fn status_updated(s: Seq<(String, ServiceStatus)>, k: Seq<char>, v: ServiceStatus) -> Seq<(String, ServiceStatus)> {
    match first_index(key_seq(s), k) {
        Some(i) => s.update(i, (s[i].0, v)),
        None => s,
    }
}

impl StatusTable {
    /// The entries, in the order services were first recorded.
    pub closed spec fn entries(&self) -> Seq<(String, ServiceStatus)> {
        self.entries@
    }

    /// No services.
    pub fn new() -> (r: Self)
        ensures
            r.entries() == Seq::<(String, ServiceStatus)>::empty(),
    {
        StatusTable { entries: Vec::new() }
    }

    /// The state of a service, if it is managed.
    pub fn get_status(&self, service_name: &str) -> (r: Option<ServiceStatus>)
        ensures
            r == status_of(self.entries(), service_name@),
    {
        proof {
            lemma_first_index(key_seq(self.entries@), service_name@);
        }
        match find_key(&self.entries, service_name) {
            Some(i) => Some(self.entries[i].1),
            None => None,
        }
    }

    /// Records the state of a service, adding it when it is not managed.
    pub fn set_status(&mut self, service_name: String, status: ServiceStatus)
        ensures
            final(self).entries() == with_status(old(self).entries(), service_name, status),
    {
        proof {
            lemma_first_index(key_seq(self.entries@), service_name@);
        }
        match find_key(&self.entries, service_name.as_str()) {
            Some(i) => {
                let name = self.entries[i].0.clone();
                self.entries.set(i, (name, status));
            },
            None => {
                self.entries.push((service_name, status));
            },
        }
    }

    /// Changes the state of a managed service; does nothing for others.
    pub fn update_status(&mut self, service_name: &str, status: ServiceStatus)
        ensures
            match first_index(key_seq(old(self).entries()), service_name@) {
                Some(i) => final(self).entries() == old(self).entries().update(i, (old(self).entries()[i].0, status)),
                None => final(self).entries() == old(self).entries(),
            },
    {
        proof {
            lemma_first_index(key_seq(self.entries@), service_name@);
        }
        match find_key(&self.entries, service_name) {
            Some(i) => {
                let name = self.entries[i].0.clone();
                self.entries.set(i, (name, status));
            },
            None => {},
        }
    }

    /// Stops managing a service.
    pub fn remove(&mut self, service_name: &str)
        ensures
            match first_index(key_seq(old(self).entries()), service_name@) {
                Some(i) => final(self).entries() == old(self).entries().remove(i),
                None => final(self).entries() == old(self).entries(),
            },
    {
        proof {
            lemma_first_index(key_seq(self.entries@), service_name@);
        }
        match find_key(&self.entries, service_name) {
            Some(i) => {
                let _ = self.entries.remove(i);
            },
            None => {},
        }
    }

    /// Whether a service is managed and running.
    pub fn is_running(&self, service_name: &str) -> (r: bool)
        ensures
            r == (status_of(self.entries(), service_name@) == Some(ServiceStatus::Running)),
    {
        match self.get_status(service_name) {
            Some(ServiceStatus::Running) => true,
            _ => false,
        }
    }

    /// The state of every managed service.
    pub fn get_all_statuses(&self) -> (r: Vec<(String, ServiceStatus)>)
        ensures
            r@ == self.entries(),
    {
        let mut r: Vec<(String, ServiceStatus)> = Vec::new();
        let mut i: usize = 0;
        while i < self.entries.len()
            invariant
                i <= self.entries@.len(),
                r@ == self.entries@.take(i as int),
            decreases self.entries@.len() - i,
        {
            let name = self.entries[i].0.clone();
            r.push((name, self.entries[i].1));
            assert(r@ =~= self.entries@.take(i + 1));
            i = i + 1;
        }
        assert(self.entries@.take(self.entries@.len() as int) =~= self.entries@);
        r
    }

    /// Whether a service may be spawned: not while it is starting or
    /// running. `Ok(true)` when a stopped or failed run is recorded and is to
    /// be discarded first.
    pub fn check_spawn(&self, service_name: &str) -> (r: Result<bool, ProcessError>)
        ensures
            match status_of(self.entries(), service_name@) {
                Some(s) => if is_active(s) {
                    r matches Err(ProcessError::AlreadyRunning(x)) && x@ == service_name@
                } else {
                    r == Ok::<bool, ProcessError>(s is Stopped || s is Failed)
                },
                None => r == Ok::<bool, ProcessError>(false),
            },
    {
        match self.get_status(service_name) {
            Some(ServiceStatus::Starting) | Some(ServiceStatus::Running) => Err(
                ProcessError::AlreadyRunning(String::from_str(service_name)),
            ),
            Some(ServiceStatus::Stopped) | Some(ServiceStatus::Failed { .. }) => Ok(true),
            Some(ServiceStatus::NotStarted) => Ok(false),
            None => Ok(false),
        }
    }

    /// Whether stopping a service needs its process signalled: an unknown
    /// service is an error, a stopped or failed one needs nothing.
    pub fn check_stop(&self, service_name: &str) -> (r: Result<bool, ProcessError>)
        ensures
            match status_of(self.entries(), service_name@) {
                Some(s) => r == Ok::<bool, ProcessError>(!(s is Stopped || s is Failed)),
                None => r matches Err(ProcessError::ServiceNotFound(x)) && x@ == service_name@,
            },
    {
        match self.get_status(service_name) {
            Some(ServiceStatus::Stopped) | Some(ServiceStatus::Failed { .. }) => Ok(false),
            Some(_) => Ok(true),
            None => Err(ProcessError::ServiceNotFound(String::from_str(service_name))),
        }
    }

    /// The services whose processes are expected to be alive.
    pub fn active_services(&self) -> (r: Vec<String>)
        ensures
            r@.map_values(|s: String| s@) == self.entries().filter(|p: (String, ServiceStatus)| is_active(p.1)).map_values(
                |p: (String, ServiceStatus)| p.0@,
            ),
    {
        let ghost f = |p: (String, ServiceStatus)| is_active(p.1);
        let ghost g = |p: (String, ServiceStatus)| p.0@;
        let mut r: Vec<String> = Vec::new();
        let mut i: usize = 0;
        while i < self.entries.len()
            invariant
                i <= self.entries@.len(),
                f == (|p: (String, ServiceStatus)| is_active(p.1)),
                g == (|p: (String, ServiceStatus)| p.0@),
                r@.map_values(|s: String| s@) == self.entries@.take(i as int).filter(f).map_values(g),
            decreases self.entries@.len() - i,
        {
            let ghost before = r@.map_values(|s: String| s@);
            proof {
                let t = self.entries@.take(i + 1);
                assert(t.drop_last() =~= self.entries@.take(i as int));
                reveal(Seq::filter);
            }
            if is_active_status(self.entries[i].1) {
                r.push(self.entries[i].0.clone());
                assert(r@.map_values(|s: String| s@) =~= before.push(self.entries@[i as int].0@));
            }
            assert(r@.map_values(|s: String| s@) =~= self.entries@.take(i + 1).filter(f).map_values(g));
            i = i + 1;
        }
        assert(self.entries@.take(self.entries@.len() as int) =~= self.entries@);
        r
    }

    /// Applies what polling a service's process gave. Only a service that
    /// is starting or running changes: if its process ended it becomes
    /// stopped or failed, and the exit is reported.
    pub fn record_poll(&mut self, service_name: &str, outcome: PollOutcome) -> (r: Option<ProcessExitEvent>)
        ensures
            match status_of(old(self).entries(), service_name@) {
                Some(s) => if is_active(s) {
                    match outcome {
                        PollOutcome::StillRunning => r is None && final(self).entries() == old(self).entries(),
                        PollOutcome::Exited(code) => r matches Some(ev) && ev.service@ == service_name@
                            && ev.status == exit_outcome(code).0 && ev.reason@ == exit_outcome(code).1
                            && status_of(final(self).entries(), service_name@) == Some(ev.status)
                            && final(self).entries() == status_updated(old(self).entries(), service_name@, ev.status),
                        PollOutcome::PollFailed(e) => r matches Some(ev) && ev.service@ == service_name@
                            && ev.status == (ServiceStatus::Failed { exit_code: -1i32 })
                            && ev.reason@ == "Failed to poll process state: "@ + e@
                            && status_of(final(self).entries(), service_name@) == Some(ev.status)
                            && final(self).entries() == status_updated(old(self).entries(), service_name@, ev.status),
                    }
                } else {
                    r is None && final(self).entries() == old(self).entries()
                },
                None => r is None && final(self).entries() == old(self).entries(),
            },
    {
        let current = self.get_status(service_name);
        match current {
            Some(s) => {
                if !is_active_status(s) {
                    return None;
                }
            },
            None => {
                return None;
            },
        }
        let (status, reason) = match outcome {
            PollOutcome::StillRunning => {
                return None;
            },
            PollOutcome::Exited(code) => exit_status_and_reason(code),
            PollOutcome::PollFailed(e) => {
                let mut reason = String::new();
                reason.append("Failed to poll process state: ");
                reason.append(e.as_str());
                (ServiceStatus::Failed { exit_code: -1 }, reason)
            },
        };
        proof {
            lemma_first_index(key_seq(self.entries@), service_name@);
        }
        let ghost old_e = self.entries@;
        self.update_status(service_name, status);
        proof {
            let i = first_index(key_seq(old_e), service_name@)->0;
            assert(key_seq(self.entries@) =~= key_seq(old_e));
        }
        Some(ProcessExitEvent { service: String::from_str(service_name), status, reason })
    }
}

/// Whether a state is starting or running.
pub fn is_active_status(s: ServiceStatus) -> (r: bool)
    ensures
        r == is_active(s),
{
    match s {
        ServiceStatus::Starting | ServiceStatus::Running => true,
        _ => false,
    }
}

} // verus!
