//! The decisions of the background daemon: where its socket is, which file
//! changes count, and when it waits, flushes and stops. Times are nanoseconds
//! since the daemon started.
use vstd::prelude::*;
use vstd::utf8;

use crate::api::{Request, Response};
use crate::daemon_laws;
use crate::hash;
use crate::json::Json;
use crate::order;
use crate::text;
use crate::text_set::TextMap;

verus! {

/// How long the daemon waits for a request before it stops: thirty minutes.
pub const IDLE_TIMEOUT: u64 = 1800000000000;

/// How long changes settle before they are taken over: half a second.
pub const DEBOUNCE: u64 = 500000000;

/// The shortest wait: ten milliseconds.
pub const MIN_WAIT: u64 = 10000000;

// ---- paths ----

/// The name of a root's socket or pid file, for the hash of the root.
pub open spec fn runtime_name(h: u64, extension: Seq<char>) -> Seq<char> {
    "gitpixel-"@ + text::hex(h as nat, 16) + extension
}

fn runtime_path(temp_dir: &str, h: u64, extension: &str) -> (r: String)
    ensures
        r@ == text::joined(temp_dir@, runtime_name(h, extension@)),
{
    let mut name = "gitpixel-".to_string();
    let digits = hash::hash_text(h);
    name.append(digits.as_str());
    name.append(extension);
    text::join_path(temp_dir, name.as_str())
}

/// The socket for a root with the given hash.
pub fn socket_for(temp_dir: &str, h: u64) -> (r: String)
    ensures
        r@ == text::joined(temp_dir@, runtime_name(h, ".sock"@)),
{
    runtime_path(temp_dir, h, ".sock")
}

/// The pid file for a root with the given hash.
pub fn pid_for(temp_dir: &str, h: u64) -> (r: String)
    ensures
        r@ == text::joined(temp_dir@, runtime_name(h, ".pid"@)),
{
    runtime_path(temp_dir, h, ".pid")
}

/// The socket of a root, given its canonical path.
pub fn socket_path(temp_dir: &str, root: &str) -> (r: String)
    ensures
        r@ == text::joined(
            temp_dir@,
            runtime_name(hash::xxh3(utf8::encode_utf8(root@)), ".sock"@),
        ),
{
    socket_for(temp_dir, hash::xxh3_64(root.as_bytes()))
}

/// The pid file of a root, given its canonical path.
pub fn pid_path(temp_dir: &str, root: &str) -> (r: String)
    ensures
        r@ == text::joined(
            temp_dir@,
            runtime_name(hash::xxh3(utf8::encode_utf8(root@)), ".pid"@),
        ),
{
    pid_for(temp_dir, hash::xxh3_64(root.as_bytes()))
}

// ---- file changes ----

/// Whether a directory's content is of no interest.
pub open spec fn ignored_dir(name: Seq<char>) -> bool {
    name == ".gitpixel"@ || name == ".git"@ || name == "target"@ || name == "node_modules"@
}

/// Whether a path goes through a directory that is of no interest.
pub open spec fn ignored(rel: Seq<char>) -> bool {
    let names = text::parts(rel, '/', rel.len());
    exists|i: int| 0 <= i < names.len() && ignored_dir(#[trigger] names[i])
}

fn is_ignored(rel: &str) -> (r: bool)
    ensures
        r == ignored(rel@),
{
    let names = text::split_on(rel, '/');
    let ghost all = text::texts(names@);
    let mut i: usize = 0;
    while i < names.len()
        invariant
            i <= names@.len(),
            all == text::texts(names@),
            all == text::parts(rel@, '/', rel@.len()),
            forall|k: int| 0 <= k < i ==> !ignored_dir(#[trigger] all[k]),
        decreases names@.len() - i,
    {
        let name = names[i].as_str();
        proof {
            assert(all[i as int] == name@);
        }
        if text::same_text(name, ".gitpixel") || text::same_text(name, ".git") || text::same_text(
            name,
            "target",
        ) || text::same_text(name, "node_modules") {
            return true;
        }
        i = i + 1;
    }
    false
}

/// A path that the watcher reported: its path below the root, whether it is a
/// directory, and whether it was removed or is not there any more.
#[derive(Debug)]
pub struct FsChange {
    pub rel: String,
    pub is_dir: bool,
    pub removed: bool,
}

/// The pending changes after one more; of two changes of one path the later
/// one counts.
pub open spec fn noted(pending: Map<Seq<char>, bool>, c: FsChange) -> Map<Seq<char>, bool> {
    if ignored(c.rel@) || c.is_dir || c.rel@.len() == 0 {
        pending
    } else {
        pending.insert(c.rel@, c.removed)
    }
}

/// The pending changes after all of `changes`.
pub open spec fn all_noted(pending: Map<Seq<char>, bool>, changes: Seq<FsChange>) -> Map<
    Seq<char>,
    bool,
>
    decreases changes.len(),
{
    if changes.len() == 0 {
        pending
    } else {
        noted(all_noted(pending, changes.drop_last()), changes.last())
    }
}

/// Note the changes that count.
pub fn record_event(pending: &mut TextMap<bool>, changes: &Vec<FsChange>)
    ensures
        final(pending)@ == all_noted(old(pending)@, changes@),
        forall|i: int| #[trigger]
            daemon_laws::counts_last(changes@, i) ==> final(pending)@.contains_key(
                changes@[i].rel@,
            ) && final(pending)@[changes@[i].rel@] == changes@[i].removed,
{
    let ghost start = pending@;
    let mut i: usize = 0;
    proof {
        assert(changes@.take(0) =~= Seq::<FsChange>::empty());
    }
    while i < changes.len()
        invariant
            i <= changes@.len(),
            pending@ == all_noted(start, changes@.take(i as int)),
        decreases changes@.len() - i,
    {
        let c = &changes[i];
        proof {
            assert(changes@.take(i + 1).drop_last() =~= changes@.take(i as int));
        }
        let rel = c.rel.as_str();
        if !is_ignored(rel) && !c.is_dir && !rel.is_empty() {
            pending.insert(rel, c.removed);
        }
        i = i + 1;
    }
    proof {
        assert(changes@.take(i as int) =~= changes@);
        assert forall|k: int| #[trigger] daemon_laws::counts_last(
            changes@,
            k,
        ) implies pending@.contains_key(changes@[k].rel@) && pending@[changes@[k].rel@]
            == changes@[k].removed by {
            last_change_wins(start, changes@, k);
        }
    }
}

// ---- the loop ----

/// A file to take over.
#[derive(Debug)]
pub struct PendingChange {
    pub rel: String,
    pub removed: bool,
}

/// What the daemon's loop remembers.
pub struct LoopView {
    /// Changed paths, and whether they were removed.
    pub pending: Map<Seq<char>, bool>,
    /// When the pending changes are taken over.
    pub flush_at: Option<u64>,
    pub last_activity: u64,
    pub shutdown: bool,
}

pub struct DaemonLoop {
    pending: TextMap<bool>,
    flush_at: Option<u64>,
    last_activity: u64,
    shutdown: bool,
}

impl View for DaemonLoop {
    type V = LoopView;

    closed spec fn view(&self) -> LoopView {
        LoopView {
            pending: self.pending@,
            flush_at: self.flush_at,
            last_activity: self.last_activity,
            shutdown: self.shutdown,
        }
    }
}

/// What is left of `deadline` at `now`.
pub open spec fn left(deadline: int, now: u64) -> int {
    if deadline > now {
        deadline - now
    } else {
        0
    }
}

/// How long since `then` at `now`.
pub open spec fn since(then: u64, now: u64) -> int {
    if now > then {
        now - then
    } else {
        0
    }
}

impl LoopView {
    /// How long until the daemon has been idle for too long.
    pub open spec fn idle_left(self, now: u64) -> int {
        if since(self.last_activity, now) < IDLE_TIMEOUT {
            IDLE_TIMEOUT - since(self.last_activity, now)
        } else {
            0
        }
    }

    /// How long to wait for the next event: until the pending changes are due
    /// or the daemon has been idle for too long, but never less than a moment.
    pub open spec fn wait(self, now: u64) -> int {
        let until = match self.flush_at {
            Some(at) => if left(at as int, now) < self.idle_left(now) {
                left(at as int, now)
            } else {
                self.idle_left(now)
            },
            None => self.idle_left(now),
        };
        if until < MIN_WAIT {
            MIN_WAIT as int
        } else {
            until
        }
    }

    /// Whether the pending changes are due.
    pub open spec fn is_due(self, now: u64) -> bool {
        self.flush_at matches Some(at) && now >= at
    }
}

fn time_since(then: u64, now: u64) -> (d: u64)
    ensures
        d == since(then, now),
{
    if now > then {
        now - then
    } else {
        0
    }
}

impl DaemonLoop {
    /// A loop that starts at `now`.
    pub fn new(now: u64) -> (r: DaemonLoop)
        ensures
            r@ == (LoopView {
                pending: Map::empty(),
                flush_at: None,
                last_activity: now,
                shutdown: false,
            }),
    {
        DaemonLoop {
            pending: TextMap::new(),
            flush_at: None,
            last_activity: now,
            shutdown: false,
        }
    }

    /// Whether the loop goes on.
    pub fn goes_on(&self) -> (r: bool)
        ensures
            r == !self@.shutdown,
    {
        !self.shutdown
    }

    /// How long to wait for the next event.
    pub fn wait_time(&self, now: u64) -> (d: u64)
        ensures
            d == self@.wait(now),
            d >= 10_000_000,
            d <= 1_800_000_000_000,
    {
        let idle: u64 = time_since(self.last_activity, now);
        let idle_left: u64 = if idle < IDLE_TIMEOUT {
            IDLE_TIMEOUT - idle
        } else {
            0
        };
        let until: u64 = match self.flush_at {
            Some(at) => {
                let flush_left: u64 = time_since(now, at);
                if flush_left < idle_left {
                    flush_left
                } else {
                    idle_left
                }
            },
            None => idle_left,
        };
        if until < MIN_WAIT {
            MIN_WAIT
        } else {
            until
        }
    }

    /// A client connected.
    pub fn on_connect(&mut self, now: u64)
        ensures
            final(self)@ == (LoopView { last_activity: now, ..old(self)@ }),
    {
        self.last_activity = now;
    }

    /// A client asked for shutdown.
    pub fn on_shutdown(&mut self)
        ensures
            final(self)@ == (LoopView { shutdown: true, ..old(self)@ }),
    {
        self.shutdown = true;
    }

    /// The watcher reported changes. As long as any are pending, they settle
    /// anew.
    pub fn on_changes(&mut self, changes: &Vec<FsChange>, now: u64)
        requires
            now + DEBOUNCE <= u64::MAX,
        ensures
            ({
                let pending = all_noted(old(self)@.pending, changes@);
                final(self)@ == (LoopView {
                    pending,
                    flush_at: if pending.dom().len() > 0 {
                        Some((now + DEBOUNCE) as u64)
                    } else {
                        old(self)@.flush_at
                    },
                    ..old(self)@
                })
            }),
            final(self)@.pending.dom().len() > 0 ==> final(self)@.flush_at == Some(
                (now + 500_000_000) as u64,
            ),
            final(self)@.last_activity == old(self)@.last_activity,
            final(self)@.shutdown == old(self)@.shutdown,
    {
        record_event(&mut self.pending, changes);
        if self.pending.len() > 0 {
            self.flush_at = Some(now + DEBOUNCE);
        }
    }

    /// The changes that are due now, in path order. They are no longer
    /// pending.
    pub fn take_due(&mut self, now: u64) -> (r: Vec<PendingChange>)
        ensures
            !old(self)@.is_due(now) ==> r@.len() == 0 && final(self)@ == old(self)@,
            old(self)@.is_due(now) ==> {
                &&& final(self)@ == (LoopView {
                    pending: Map::empty(),
                    flush_at: None,
                    ..old(self)@
                })
                &&& lists_changes(r@, old(self)@.pending)
            },
            old(self)@.flush_at is None ==> r@.len() == 0,
            old(self)@.flush_at matches Some(at) ==> {
                &&& now < at ==> r@.len() == 0
                &&& now >= at ==> r@.len() == old(self)@.pending.dom().len()
                &&& now >= at ==> forall|p: Seq<char>|
                    old(self)@.pending.contains_key(p) <==> #[trigger] change_paths(r@).contains(p)
            },
            forall|i: int|
                0 <= i < r@.len() ==> old(self)@.pending.contains_key((#[trigger] r@[i]).rel@)
                    && r@[i].removed == old(self)@.pending[r@[i].rel@],
    {
        let due = match self.flush_at {
            Some(at) => now >= at,
            None => false,
        };
        if !due {
            return Vec::new();
        }
        let mut pending: TextMap<bool> = TextMap::new();
        std::mem::swap(&mut pending, &mut self.pending);
        self.flush_at = None;
        let r = listed_changes(&pending);
        proof {
            let paths = change_paths(r@);
            order::texts_are_ordered();
            assert(paths.no_duplicates()) by {
                assert forall|i: int, j: int|
                    0 <= i < paths.len() && 0 <= j < paths.len() && i != j implies paths[i]
                    != paths[j] by {
                    if i < j {
                        assert(order::text_less(paths[i], paths[j]));
                    } else {
                        assert(order::text_less(paths[j], paths[i]));
                    }
                }
            }
            paths.unique_seq_to_set();
            assert forall|p: Seq<char>|
                old(self)@.pending.contains_key(p) <==> #[trigger] paths.contains(p) by {
                assert(paths.to_set().contains(p) <==> paths.contains(p));
            }
        }
        r
    }

    /// Whether the daemon has been idle for too long.
    pub fn is_idle(&self, now: u64) -> (r: bool)
        ensures
            r == (since(self@.last_activity, now) >= IDLE_TIMEOUT),
            r <==> now - self@.last_activity >= 1_800_000_000_000,
    {
        time_since(self.last_activity, now) >= IDLE_TIMEOUT
    }
}

pub open spec fn change_paths(v: Seq<PendingChange>) -> Seq<Seq<char>> {
    v.map_values(|c: PendingChange| c.rel@)
}

/// Whether `v` lists exactly the changes of `pending`, in path order.
pub open spec fn lists_changes(v: Seq<PendingChange>, pending: Map<Seq<char>, bool>) -> bool {
    &&& order::ascending_texts(change_paths(v))
    &&& change_paths(v).to_set() == pending.dom()
    &&& forall|i: int|
        0 <= i < v.len() ==> pending.contains_key((#[trigger] v[i]).rel@) && v[i].removed
            == pending[v[i].rel@]
}

fn listed_changes(pending: &TextMap<bool>) -> (r: Vec<PendingChange>)
    ensures
        lists_changes(r@, pending@),
{
    let keys = pending.keys();
    let mut r: Vec<PendingChange> = Vec::new();
    let mut i: usize = 0;
    while i < keys.len()
        invariant
            i <= keys@.len(),
            text::texts(keys@) == pending.keys_view(),
            r@.len() == i,
            forall|k: int|
                0 <= k < i ==> (#[trigger] r@[k]).rel@ == keys@[k]@ && pending@.contains_key(
                    r@[k].rel@,
                ) && r@[k].removed == pending@[r@[k].rel@],
        decreases keys@.len() - i,
    {
        proof {
            assert(pending.keys_view()[i as int] == keys@[i as int]@);
        }
        let removed: bool = *pending.value_at(i);
        r.push(PendingChange { rel: keys[i].clone(), removed });
        i = i + 1;
    }
    proof {
        assert(change_paths(r@) =~= pending.keys_view());
        assert(pending@.dom() =~= pending.keys_view().to_set());
    }
    r
}

// ---- one connection ----

/// The characters that Unicode counts as white space.
pub open spec fn white_space(c: char) -> bool {
    ||| '\u{9}' <= c <= '\u{d}'
    ||| c == ' '
    ||| c == '\u{85}'
    ||| c == '\u{a0}'
    ||| c == '\u{1680}'
    ||| '\u{2000}' <= c <= '\u{200a}'
    ||| c == '\u{2028}'
    ||| c == '\u{2029}'
    ||| c == '\u{202f}'
    ||| c == '\u{205f}'
    ||| c == '\u{3000}'
}

/// A text without the white space at its start.
pub open spec fn trimmed_start(s: Seq<char>) -> Seq<char>
    decreases s.len(),
{
    if s.len() > 0 && white_space(s[0]) {
        trimmed_start(s.drop_first())
    } else {
        s
    }
}

/// A text without the white space at its end.
pub open spec fn trimmed_end(s: Seq<char>) -> Seq<char>
    decreases s.len(),
{
    if s.len() > 0 && white_space(s.last()) {
        trimmed_end(s.drop_last())
    } else {
        s
    }
}

/// `str::trim`: the text without the white space at either end.
#[verifier::external_body]
fn strip(s: &str) -> (r: String)
    ensures
        r@ == trimmed_end(trimmed_start(s@)),
{
    s.trim().to_string()
}

/// The request of a line, if it is not blank.
pub fn request_line(line: &str) -> (r: Option<String>)
    ensures
        match r {
            Some(s) => s@ == trimmed_end(trimmed_start(line@)) && s@.len() > 0,
            None => trimmed_end(trimmed_start(line@)).len() == 0,
        },
{
    let s = strip(line);
    if s.as_str().is_empty() {
        None
    } else {
        Some(s)
    }
}

/// Whether a request ends the daemon.
pub fn is_shutdown(req: &Request) -> (r: bool)
    ensures
        r == (*req == Request::Shutdown),
{
    match req {
        Request::Shutdown => true,
        _ => false,
    }
}

/// The response to a line that is no request; `why` is the parser's message.
pub fn bad_request(why: &str) -> (r: Response)
    ensures
        !r.ok,
        r.error matches Some(e) && e@ == "bad request: "@ + why@,
        r.data == Json::Null,
{
    let mut e = "bad request: ".to_string();
    e.append(why);
    Response { ok: false, error: Some(e), data: Json::Null }
}

/// What happens to a connection after a response.
#[derive(Debug, Clone, Copy, PartialEq, Eq, Structural)]
pub enum ConnStep {
    /// Read the next line.
    Next,
    /// Close it.
    Close,
    /// Close it and stop the daemon.
    CloseAndStop,
}

/// What happens to a connection, given whether the response could be written
/// and whether the request asked for shutdown.
pub fn after_reply(written: bool, shutdown: bool) -> (s: ConnStep)
    ensures
        s == (if !written {
            ConnStep::Close
        } else if shutdown {
            ConnStep::CloseAndStop
        } else {
            ConnStep::Next
        }),
{
    if !written {
        ConnStep::Close
    } else if shutdown {
        ConnStep::CloseAndStop
    } else {
        ConnStep::Next
    }
}

// ---- starting ----

/// How often a daemon that was started is asked for a sign of life.
pub const START_TRIES: u32 = 100;

/// The pause between two tries: a tenth of a second.
pub const START_PAUSE: u64 = 100000000;

/// What to do after a try to reach a daemon that was started.
#[derive(Debug, Clone, Copy, PartialEq, Eq, Structural)]
pub enum StartStep {
    /// It answers.
    Started,
    /// Pause, then try again.
    Sleep,
    /// It does not answer yet.
    GiveUp,
}

/// What to do after a try, given how many tries there were before and whether
/// the daemon answered.
pub fn after_ping(tries: u32, answered: bool) -> (s: StartStep)
    ensures
        s == (if answered {
            StartStep::Started
        } else if tries + 1 >= START_TRIES {
            StartStep::GiveUp
        } else {
            StartStep::Sleep
        }),
        answered ==> s == StartStep::Started,
        !answered && tries < 99 ==> s == StartStep::Sleep,
        !answered && tries >= 99 ==> s == StartStep::GiveUp,
{
    if answered {
        StartStep::Started
    } else if tries >= START_TRIES - 1 {
        StartStep::GiveUp
    } else {
        StartStep::Sleep
    }
}

// ---- laws ----

/// Of several changes of one path the last one counts.
pub proof fn last_change_wins(
    pending: Map<Seq<char>, bool>,
    changes: Seq<FsChange>,
    i: int,
)
    requires
        0 <= i < changes.len(),
        !ignored(changes[i].rel@),
        !changes[i].is_dir,
        changes[i].rel@.len() > 0,
        forall|j: int|
            i < j < changes.len() && !(#[trigger] changes[j]).is_dir ==> changes[j].rel@
                != changes[i].rel@,
    ensures
        all_noted(pending, changes).contains_key(changes[i].rel@),
        all_noted(pending, changes)[changes[i].rel@] == changes[i].removed,
    decreases changes.len(),
{
    if i < changes.len() - 1 {
        last_change_wins(pending, changes.drop_last(), i);
        let last = changes.last();
        assert(changes[changes.len() - 1] == last);
    }
}

/// Nothing below an ignored directory is ever taken over.
pub proof fn ignored_paths_stay_out(
    pending: Map<Seq<char>, bool>,
    changes: Seq<FsChange>,
    rel: Seq<char>,
)
    requires
        ignored(rel),
        !pending.contains_key(rel),
    ensures
        !all_noted(pending, changes).contains_key(rel),
    decreases changes.len(),
{
    if changes.len() > 0 {
        ignored_paths_stay_out(pending, changes.drop_last(), rel);
    }
}

/// The daemon never waits beyond the moment that pending changes are due, nor
/// beyond its idle limit, except for the shortest wait.
pub proof fn waits_are_bounded(state: LoopView, now: u64)
    ensures
        state.wait(now) >= MIN_WAIT,
        state.wait(now) <= IDLE_TIMEOUT,
        state.flush_at matches Some(at) ==> state.wait(now) <= left(at as int, now)
            || state.wait(now) == MIN_WAIT,
{
}

} // verus!
