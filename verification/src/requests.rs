//! How the index answers requests. Each request alternates outside work
//! (reading the index, talking to volume servers) with decisions; the
//! decisions are here, as functions from what the outside work returned to
//! what to do next.

use crate::keypath::{replica_url, replica_urls};
use crate::placement::names;
use crate::record::{Record, SysError};
use crate::reply::Reply;
use crate::settings::{lemma_join_then_split, split_on};
use rand::seq::SliceRandom;
use vstd::prelude::*;

verus! {

// ---------------------------------------------------------------------------
// Routing and per-key exclusion.

/// What a request method asks for.
#[derive(Debug, Clone, Copy, PartialEq, Eq, Structural)]
pub enum Route {
    Get,
    Put,
    Delete,
    NotAllowed,
}

/// The route of a method name.
pub open spec fn route_of(method: Seq<char>) -> Route {
    if method == "GET"@ {
        Route::Get
    } else if method == "PUT"@ {
        Route::Put
    } else if method == "DELETE"@ {
        Route::Delete
    } else {
        Route::NotAllowed
    }
}

/// Law: routing goes by the exact method names: `GET`, `PUT` and `DELETE`
/// are their routes, and every other text, whatever it is, is not allowed.
pub proof fn lemma_route_by_name(method: Seq<char>)
    ensures
        (route_of(method) == Route::Get) == (method == "GET"@),
        (route_of(method) == Route::Put) == (method == "PUT"@),
        (route_of(method) == Route::Delete) == (method == "DELETE"@),
        (route_of(method) == Route::NotAllowed) == (method != "GET"@ && method != "PUT"@ && method
            != "DELETE"@),
{
    reveal_strlit("GET");
    reveal_strlit("PUT");
    reveal_strlit("DELETE");
    assert("GET"@[0] != "PUT"@[0]);
    assert("GET"@[0] != "DELETE"@[0]);
    assert("PUT"@[0] != "DELETE"@[0]);
}

/// Whether two texts are equal.
fn same_text(a: &str, b: &str) -> (same: bool)
    ensures
        same == (a@ == b@),
{
    let a_owned = a.to_owned();
    let b_owned = b.to_owned();
    a_owned == b_owned
}

/// Routes a request by its method name.
pub fn route(method: &str) -> (r: Route)
    ensures
        r == route_of(method@),
        (r == Route::Get) == (method@ == "GET"@),
        (r == Route::Put) == (method@ == "PUT"@),
        (r == Route::Delete) == (method@ == "DELETE"@),
        (r == Route::NotAllowed) == (method@ != "GET"@ && method@ != "PUT"@ && method@ != "DELETE"@),
{
    proof {
        lemma_route_by_name(method@);
    }
    if same_text(method, "GET") {
        Route::Get
    } else if same_text(method, "PUT") {
        Route::Put
    } else if same_text(method, "DELETE") {
        Route::Delete
    } else {
        Route::NotAllowed
    }
}

impl Route {
    /// Writes (PUT and DELETE) hold their key for the whole request.
    pub open spec fn holds_key(self) -> bool {
        self == Route::Put || self == Route::Delete
    }

    /// Decides `holds_key`.
    pub fn locks_key(&self) -> (locks: bool)
        ensures
            locks == self.holds_key(),
    {
        match self {
            Route::Put => true,
            Route::Delete => true,
            _ => false,
        }
    }
}

/// The keys that writes in progress hold.
pub struct KeyLocks {
    held: Vec<String>,
}

impl View for KeyLocks {
    type V = Set<Seq<char>>;

    closed spec fn view(&self) -> Set<Seq<char>> {
        names(self.held@).to_set()
    }
}

impl KeyLocks {
    /// No key held.
    pub fn new() -> (locks: KeyLocks)
        ensures
            locks@ == Set::<Seq<char>>::empty(),
    {
        let locks = KeyLocks { held: Vec::new() };
        assert(locks@ =~= Set::<Seq<char>>::empty());
        locks
    }

    /// Whether `key` is held.
    pub fn is_held(&self, key: &str) -> (held: bool)
        ensures
            held == self@.contains(key@),
    {
        let wanted = key.to_owned();
        let mut i: usize = 0;
        while i < self.held.len()
            invariant
                wanted@ == key@,
                i <= self.held@.len(),
                forall|j: int| 0 <= j < i ==> (#[trigger] self.held@[j])@ != key@,
            decreases self.held@.len() - i,
        {
            if self.held[i] == wanted {
                assert(names(self.held@)[i as int] == key@);
                return true;
            }
            i = i + 1;
        }
        proof {
            if names(self.held@).contains(key@) {
                let j = choose|j: int| 0 <= j < names(self.held@).len() && names(self.held@)[j] == key@;
                assert(self.held@[j]@ == key@);
            }
        }
        false
    }

    /// Takes `key` if no one holds it; tells whether it was taken.
    pub fn try_lock(&mut self, key: &str) -> (acquired: bool)
        ensures
            acquired == !old(self)@.contains(key@),
            final(self)@ == old(self)@.insert(key@),
    {
        if self.is_held(key) {
            assert(self@.insert(key@) =~= self@);
            return false;
        }
        let ghost before = names(self.held@);
        self.held.push(key.to_owned());
        assert(names(self.held@) =~= before.push(key@));
        assert(self@ =~= before.to_set().insert(key@)) by {
            lemma_push_contains(before, key@);
        }
        true
    }

    /// Releases `key`.
    pub fn unlock(&mut self, key: &str)
        ensures
            final(self)@ == old(self)@.remove(key@),
    {
        let wanted = key.to_owned();
        let ghost before = names(self.held@);
        let mut kept: Vec<String> = Vec::new();
        let mut i: usize = 0;
        while i < self.held.len()
            invariant
                wanted@ == key@,
                before == names(self.held@),
                i <= self.held@.len(),
                forall|x: Seq<char>|
                    #[trigger] names(kept@).contains(x) <==> (x != key@ && before.take(
                        i as int,
                    ).contains(x)),
            decreases self.held@.len() - i,
        {
            let ghost kept_before = names(kept@);
            let ghost t = before.take(i as int);
            let ghost item = before[i as int];
            if !(self.held[i] == wanted) {
                kept.push(self.held[i].clone());
                assert(names(kept@) =~= kept_before.push(item));
                proof {
                    lemma_push_contains(kept_before, item);
                }
            } else {
                assert(names(kept@) =~= kept_before);
            }
            proof {
                lemma_push_contains(t, item);
            }
            assert(before.take(i + 1) =~= t.push(item));
            i = i + 1;
        }
        assert(before.take(before.len() as int) =~= before);
        self.held = kept;
        assert(self@ =~= before.to_set().remove(key@));
    }
}

/// What a sequence holds after a push.
proof fn lemma_push_contains(s: Seq<Seq<char>>, a: Seq<char>)
    ensures
        forall|x: Seq<char>| #[trigger] s.push(a).contains(x) <==> (s.contains(x) || x == a),
{
    assert forall|x: Seq<char>| #[trigger] s.push(a).contains(x) <==> (s.contains(x) || x == a) by {
        if s.push(a).contains(x) && x != a {
            let j = choose|j: int| 0 <= j < s.push(a).len() && s.push(a)[j] == x;
            assert(s[j] == x);
        }
        if s.contains(x) {
            let j = choose|j: int| 0 <= j < s.len() && s[j] == x;
            assert(s.push(a)[j] == x);
        }
        if x == a {
            assert(s.push(a)[s.len() as int] == x);
        }
    }
}

/// How a request starts.
#[derive(Debug)]
pub enum Dispatch {
    /// Answer right away.
    Respond(Reply),
    /// Go on with the request along this route.
    Handle(Route),
}

/// A request with this method and key, arriving while `held` are the keys
/// held, goes on to its handler: a GET always, a PUT or DELETE only if no
/// one holds its key.
pub open spec fn start_handles(held: Set<Seq<char>>, method: Seq<char>, key: Seq<char>) -> bool {
    let r = route_of(method);
    r == Route::Get || (r.holds_key() && !held.contains(key))
}

/// The keys held after a request with this method and key started.
pub open spec fn held_after_start(held: Set<Seq<char>>, method: Seq<char>, key: Seq<char>) -> Set<
    Seq<char>,
> {
    if route_of(method).holds_key() {
        held.insert(key)
    } else {
        held
    }
}

/// The keys held after a request along `route` for `key` finished.
pub open spec fn held_after_finish(held: Set<Seq<char>>, route: Route, key: Seq<char>) -> Set<
    Seq<char>,
> {
    if route.holds_key() {
        held.remove(key)
    } else {
        held
    }
}

/// Starts a request: routes it by method, and lets a PUT or DELETE go on
/// only if it can take its key.
pub fn dispatch_start(method: &str, key: &str, locks: &mut KeyLocks) -> (start: Dispatch)
    ensures
        (start is Handle) == start_handles(old(locks)@, method@, key@),
        final(locks)@ == held_after_start(old(locks)@, method@, key@),
        method@ != "GET"@ && method@ != "PUT"@ && method@ != "DELETE"@ ==> start
            == Dispatch::Respond(Reply::MethodNotAllowed) && final(locks)@ == old(locks)@,
        ({
            let r = route_of(method@);
            &&& r == Route::NotAllowed ==> start == Dispatch::Respond(Reply::MethodNotAllowed)
                && final(locks)@ == old(locks)@
            &&& r == Route::Get ==> start == Dispatch::Handle(Route::Get) && final(locks)@ == old(
                locks,
            )@
            &&& r.holds_key() && old(locks)@.contains(key@) ==> start == Dispatch::Respond(
                Reply::KeyBusy,
            ) && final(locks)@ == old(locks)@
            &&& r.holds_key() && !old(locks)@.contains(key@) ==> start == Dispatch::Handle(r)
                && final(locks)@ == old(locks)@.insert(key@)
        }),
{
    proof {
        lemma_route_by_name(method@);
    }
    let r = route(method);
    if r.locks_key() {
        let acquired = locks.try_lock(key);
        if !acquired {
            assert(old(locks)@.insert(key@) =~= old(locks)@);
            return Dispatch::Respond(Reply::KeyBusy);
        }
        Dispatch::Handle(r)
    } else {
        match r {
            Route::Get => Dispatch::Handle(Route::Get),
            _ => Dispatch::Respond(Reply::MethodNotAllowed),
        }
    }
}

/// Ends a request: a PUT or DELETE releases its key.
pub fn dispatch_finish(route: Route, key: &str, locks: &mut KeyLocks)
    ensures
        route.holds_key() ==> final(locks)@ == old(locks)@.remove(key@),
        !route.holds_key() ==> final(locks)@ == old(locks)@,
        final(locks)@ == held_after_finish(old(locks)@, route, key@),
{
    if route.locks_key() {
        locks.unlock(key);
    }
}

/// An event on the held keys: a request starts, or a request that went to
/// its handler finishes.
pub enum LockEvent {
    Start { method: Seq<char>, key: Seq<char> },
    Finish { route: Route, key: Seq<char> },
}

/// The keys held after one event.
pub open spec fn held_after_event(held: Set<Seq<char>>, event: LockEvent) -> Set<Seq<char>> {
    match event {
        LockEvent::Start { method, key } => held_after_start(held, method, key),
        LockEvent::Finish { route, key } => held_after_finish(held, route, key),
    }
}

/// The keys held after a sequence of events, in order.
pub open spec fn held_after_events(held: Set<Seq<char>>, events: Seq<LockEvent>) -> Set<Seq<char>>
    decreases events.len(),
{
    if events.len() == 0 {
        held
    } else {
        held_after_event(held_after_events(held, events.drop_last()), events.last())
    }
}

/// The event is the end of a PUT or DELETE of `key`.
pub open spec fn releases(event: LockEvent, key: Seq<char>) -> bool {
    event matches LockEvent::Finish { route, key: k } && route.holds_key() && k == key
}

proof fn lemma_held_until_released(held: Set<Seq<char>>, key: Seq<char>, events: Seq<LockEvent>)
    requires
        held.contains(key),
        forall|i: int| 0 <= i < events.len() ==> !releases(#[trigger] events[i], key),
    ensures
        held_after_events(held, events).contains(key),
    decreases events.len(),
{
    if events.len() > 0 {
        let rest = events.drop_last();
        assert forall|i: int| 0 <= i < rest.len() implies !releases(#[trigger] rest[i], key) by {
            assert(rest[i] == events[i]);
        }
        lemma_held_until_released(held, key, rest);
        assert(!releases(events[events.len() - 1], key));
    }
}

/// Law: once a PUT or DELETE of a key went on to its handler, every later
/// PUT or DELETE of that key is refused (answered 409 without its handler
/// running), whatever other requests start or finish meanwhile, until the
/// first one finishes; after a PUT or DELETE of a key finishes, the next
/// one of that key goes on.
pub proof fn lemma_key_exclusion(
    held: Set<Seq<char>>,
    first: Seq<char>,
    key: Seq<char>,
    between: Seq<LockEvent>,
    second: Seq<char>,
)
    requires
        route_of(first).holds_key(),
        start_handles(held, first, key),
        route_of(second).holds_key(),
        forall|i: int| 0 <= i < between.len() ==> !releases(#[trigger] between[i], key),
    ensures
        !start_handles(
            held_after_events(held_after_start(held, first, key), between),
            second,
            key,
        ),
        start_handles(
            held_after_finish(
                held_after_events(held_after_start(held, first, key), between),
                route_of(first),
                key,
            ),
            second,
            key,
        ),
{
    lemma_held_until_released(held_after_start(held, first, key), key, between);
}

// ---------------------------------------------------------------------------
// GET

/// Calls `SliceRandom::shuffle` of the `rand` crate on `volumes` with the
/// thread-local generator `rand::rng()`. Trusted: the result is a
/// rearrangement of the input; which one depends on the generator.
#[verifier::external_body]
fn shuffle_volumes(volumes: &mut Vec<String>)
    ensures
        final(volumes)@.len() == old(volumes)@.len(),
        final(volumes)@.to_multiset() == old(volumes)@.to_multiset(),
{
    volumes.shuffle(&mut rand::rng());
}

/// Texts joined with a separator, as `join` on a slice of strings gives them.
pub open spec fn join_with(parts: Seq<Seq<char>>, sep: Seq<char>) -> Seq<char>
    decreases parts.len(),
{
    if parts.len() == 0 {
        seq![]
    } else if parts.len() == 1 {
        parts[0]
    } else {
        join_with(parts.drop_last(), sep) + sep + parts.last()
    }
}

/// Joins `parts` with commas.
pub fn join_commas(parts: &Vec<String>) -> (text: String)
    ensures
        text@ == join_with(names(parts@), ","@),
        parts@.len() >= 1 && (forall|i: int|
            0 <= i < parts@.len() ==> !(#[trigger] names(parts@)[i]).contains(','))
            ==> split_on(text@, ',') == names(parts@),
{
    let mut text = String::new();
    let mut i: usize = 0;
    while i < parts.len()
        invariant
            i <= parts@.len(),
            text@ == join_with(names(parts@).take(i as int), ","@),
        decreases parts@.len() - i,
    {
        let ghost prefix = names(parts@).take(i as int);
        if i > 0 {
            text.append(",");
        }
        text.append(parts[i].as_str());
        assert(names(parts@).take(i + 1).drop_last() =~= prefix);
        i = i + 1;
    }
    assert(names(parts@).take(parts@.len() as int) =~= names(parts@));
    proof {
        reveal_strlit(",");
        assert(","@ =~= seq![',']);
        if parts@.len() >= 1 && (forall|i: int|
            0 <= i < parts@.len() ==> !(#[trigger] names(parts@)[i]).contains(',')) {
            lemma_join_then_split(names(parts@), ',');
        }
    }
    text
}

/// The replica volumes of a record, in a random order.
pub fn shuffled_replicas(rec: &Record) -> (order: Vec<String>)
    ensures
        order@.len() == rec.replica_volumes@.len(),
        order@.to_multiset() == rec.replica_volumes@.to_multiset(),
{
    let mut order = rec.replica_volumes.clone();
    assert(order@ == rec.replica_volumes@);
    shuffle_volumes(&mut order);
    order
}

/// What a GET does after reading the key's record.
#[derive(Debug)]
pub enum GetAction {
    /// Answer right away.
    Respond(Reply),
    /// Ask the replicas at `urls`, in that order, whether they hold the
    /// blob; `key_volumes` goes into the answer.
    Probe { urls: Vec<String>, key_volumes: String },
}

/// Decides a GET from the lookup of its key: a failed lookup is the answer;
/// a hidden record reads as absent; else the replicas are probed in a
/// random order.
pub fn get_after_lookup(lookup: Result<Record, SysError>, key: &str) -> (action: GetAction)
    ensures
        match lookup {
            Err(e) => action == GetAction::Respond(Reply::Failed(e)),
            Ok(rec) => if rec.hidden() {
                action == GetAction::Respond(Reply::NoSuchRecord)
            } else {
                exists|order: Seq<String>|
                    {
                        &&& order.to_multiset() == rec.replica_volumes@.to_multiset()
                        &&& #[trigger] probe_urls_match(action, order, key@)
                    } && (action matches GetAction::Probe { key_volumes, .. } && key_volumes@
                        == join_with(names(rec.replica_volumes@), ","@))
            },
        },
{
    match lookup {
        Err(e) => GetAction::Respond(Reply::Failed(e)),
        Ok(rec) => {
            if rec.is_hidden() {
                GetAction::Respond(Reply::NoSuchRecord)
            } else {
                let order = shuffled_replicas(&rec);
                let urls = replica_urls(&order, key);
                let key_volumes = join_commas(&rec.replica_volumes);
                let action = GetAction::Probe { urls, key_volumes };
                assert(probe_urls_match(action, order@, key@));
                action
            }
        },
    }
}

/// `action` probes the replica URLs of `key` on `order`, in that order.
pub open spec fn probe_urls_match(action: GetAction, order: Seq<String>, key: Seq<char>) -> bool {
    action matches GetAction::Probe { urls, .. } && names(urls@) == names(order).map_values(
        |v: Seq<char>| replica_url(v, key),
    )
}

/// Law: a GET looks for the blob exactly where it was written. Probing
/// goes over a rearrangement of the record's volumes, so the URLs probed
/// are the URLs of the record's volumes; a record written by
/// `replica_write_plan` names the volumes whose URLs the blob was sent to.
pub proof fn lemma_probes_where_written(
    order: Seq<String>,
    stored: Seq<String>,
    key: Seq<char>,
    url: Seq<char>,
)
    requires
        order.to_multiset() == stored.to_multiset(),
    ensures
        names(order).map_values(|v: Seq<char>| replica_url(v, key)).contains(url) <==> names(
            stored,
        ).map_values(|v: Seq<char>| replica_url(v, key)).contains(url),
{
    broadcast use vstd::seq_lib::group_to_multiset_ensures;

    let probed = names(order).map_values(|v: Seq<char>| replica_url(v, key));
    let written = names(stored).map_values(|v: Seq<char>| replica_url(v, key));
    if probed.contains(url) {
        let j = choose|j: int| 0 <= j < probed.len() && probed[j] == url;
        assert(order.to_multiset().count(order[j]) > 0);
        assert(stored.contains(order[j]));
        let k = choose|k: int| 0 <= k < stored.len() && stored[k] == order[j];
        assert(written[k] == url);
    }
    if written.contains(url) {
        let k = choose|k: int| 0 <= k < written.len() && written[k] == url;
        assert(stored.to_multiset().count(stored[k]) > 0);
        assert(order.contains(stored[k]));
        let j = choose|j: int| 0 <= j < order.len() && order[j] == stored[k];
        assert(probed[j] == url);
    }
}

/// A step of probing replicas.
#[derive(Debug)]
pub enum Probe {
    /// Ask the replica at this position of the URL list.
    Ask(usize),
    /// Stop, with the URL of the first replica that holds the blob, if any.
    Stop(Option<String>),
}

/// A probe of `len` replicas starts by asking position 0, if there is one.
pub open spec fn is_probe_start(len: nat, step: Probe) -> bool {
    match step {
        Probe::Ask(first) => len > 0 && first == 0,
        Probe::Stop(found) => len == 0 && found is None,
    }
}

/// The first step of probing `urls`.
pub fn probe_start(urls: &Vec<String>) -> (step: Probe)
    ensures
        urls@.len() == 0 ==> step == Probe::Stop(None),
        urls@.len() > 0 ==> step == Probe::Ask(0),
        is_probe_start(urls@.len(), step),
{
    if urls.len() == 0 {
        Probe::Stop(None)
    } else {
        Probe::Ask(0)
    }
}

/// The step after the replica at position `asked` answered: the first
/// replica that holds the blob ends the probe.
pub fn probe_answer(urls: &Vec<String>, asked: usize, holds_blob: bool) -> (step: Probe)
    requires
        asked < urls.len(),
    ensures
        holds_blob ==> (step matches Probe::Stop(Some(url)) && url@ == urls@[asked as int]@),
        !holds_blob && asked + 1 < urls@.len() ==> step == Probe::Ask((asked + 1) as usize),
        !holds_blob && asked + 1 == urls@.len() ==> step == Probe::Stop(None),
        match step {
            Probe::Ask(next) => probe_next(urls@.len(), asked as nat, holds_blob) == Some(
                next as nat,
            ),
            Probe::Stop(_) => probe_next(urls@.len(), asked as nat, holds_blob) is None,
        },
{
    if holds_blob {
        Probe::Stop(Some(urls[asked].clone()))
    } else if asked + 1 < urls.len() {
        Probe::Ask(asked + 1)
    } else {
        Probe::Stop(None)
    }
}

/// The position asked after position `asked` of `len` replicas answered
/// `holds`, or `None` where probing stops.
pub open spec fn probe_next(len: nat, asked: nat, holds: bool) -> Option<nat> {
    if holds || asked + 1 >= len {
        None
    } else {
        Some((asked + 1) as nat)
    }
}

/// `trace` lists the positions asked, in order, in a whole probe of `len`
/// replicas that answer `answers`: it starts where `probe_start` starts,
/// each next position is the one `probe_answer` gives, and it ends where
/// `probe_answer` stops.
pub open spec fn is_probe_run(len: nat, answers: Seq<bool>, trace: Seq<nat>) -> bool {
    &&& (len == 0 <==> trace.len() == 0)
    &&& trace.len() > 0 ==> trace[0] == 0
    &&& forall|i: int|
        0 <= i < trace.len() - 1 ==> probe_next(len, #[trigger] trace[i], answers[trace[i] as int])
            == Some(trace[i + 1])
    &&& trace.len() > 0 ==> probe_next(len, trace.last(), answers[trace.last() as int]) is None
}

proof fn lemma_probe_run_prefix(len: nat, answers: Seq<bool>, trace: Seq<nat>, k: int)
    requires
        answers.len() == len,
        is_probe_run(len, answers, trace),
        0 <= k <= trace.len(),
    ensures
        forall|i: int| 0 <= i < k ==> #[trigger] trace[i] == i,
    decreases k,
{
    if k > 0 {
        lemma_probe_run_prefix(len, answers, trace, k - 1);
        if k >= 2 {
            assert(trace[k - 2] == k - 2);
            assert(probe_next(len, trace[k - 2], answers[trace[k - 2] as int]) == Some(
                trace[k - 1],
            ));
        }
    }
}

/// Law: a GET asks the replicas in the order of its URL list, each position
/// at most once, and none after the first one that holds the blob: the
/// positions asked are 0, 1, ..., every one before the last answered that
/// it lacks the blob, and the last either holds it or is the last replica.
pub proof fn lemma_probe_run(len: nat, answers: Seq<bool>, trace: Seq<nat>)
    requires
        answers.len() == len,
        is_probe_run(len, answers, trace),
    ensures
        trace.len() <= len,
        forall|i: int| 0 <= i < trace.len() ==> #[trigger] trace[i] == i,
        forall|i: int| 0 <= i < trace.len() - 1 ==> !#[trigger] answers[i],
        trace.len() > 0 ==> (answers[trace.len() - 1] || trace.len() == len),
{
    lemma_probe_run_prefix(len, answers, trace, trace.len() as int);
    assert forall|i: int| 0 <= i < trace.len() - 1 implies !#[trigger] answers[i] by {
        assert(trace[i] == i);
        assert(probe_next(len, trace[i], answers[trace[i] as int]) == Some(trace[i + 1]));
    }
    if trace.len() > 0 {
        let last = trace.len() - 1;
        assert(trace[last] == last);
        if trace.len() > len {
            assert(trace[len as int] == len);
            assert(probe_next(len, trace[len - 1], answers[trace[len - 1] as int]) == Some(
                trace[len as int],
            ));
        }
    }
}

/// Law: a whole GET probe, as `get_after_lookup`, `probe_start` and
/// `probe_answer` drive it, asks only URLs of the record's replicas, asks
/// each position of its list at most once and in order, and asks none after
/// the first replica that holds the blob.
pub proof fn lemma_get_probe_run(
    stored: Seq<String>,
    order: Seq<String>,
    key: Seq<char>,
    urls: Seq<Seq<char>>,
    answers: Seq<bool>,
    trace: Seq<nat>,
)
    requires
        order.to_multiset() == stored.to_multiset(),
        urls == names(order).map_values(|v: Seq<char>| replica_url(v, key)),
        answers.len() == urls.len(),
        is_probe_run(urls.len(), answers, trace),
    ensures
        forall|i: int| 0 <= i < trace.len() ==> #[trigger] trace[i] == i,
        forall|i: int, j: int| 0 <= i < j < trace.len() ==> #[trigger] trace[i] != #[trigger] trace[j],
        forall|i: int|
            0 <= i < trace.len() ==> names(stored).map_values(|v: Seq<char>| replica_url(v, key)).contains(
                #[trigger] urls[trace[i] as int],
            ),
        forall|i: int| 0 <= i < trace.len() - 1 ==> !#[trigger] answers[i],
        trace.len() > 0 ==> (answers[trace.len() - 1] || trace.len() == urls.len()),
{
    lemma_probe_run(urls.len(), answers, trace);
    assert forall|i: int| 0 <= i < trace.len() implies names(stored).map_values(
        |v: Seq<char>| replica_url(v, key),
    ).contains(#[trigger] urls[trace[i] as int]) by {
        let u = urls[trace[i] as int];
        assert(urls.contains(u)) by {
            assert(urls[trace[i] as int] == u);
        }
        lemma_probes_where_written(order, stored, key, u);
    }
}

/// The answer to a GET once probing stopped.
pub fn get_after_probe(found: Option<String>, key_volumes: String) -> (reply: Reply)
    ensures
        match found {
            Some(url) => reply == Reply::Found { location: url, key_volumes },
            None => reply == Reply::NoSuchRecord,
        },
{
    match found {
        Some(url) => Reply::Found { location: url, key_volumes },
        None => Reply::NoSuchRecord,
    }
}

// ---------------------------------------------------------------------------
// PUT

/// What a PUT does next.
#[derive(Debug)]
pub enum PutAction {
    /// Answer right away.
    Respond(Reply),
    /// Read the key's record.
    LookUp,
    /// Write the blob to its replicas and record it.
    Write,
}

/// Decides a PUT from its Content-Length: an empty body is refused.
pub fn put_start(content_length: Option<usize>) -> (action: PutAction)
    ensures
        content_length == Some(0usize) ==> action == PutAction::Respond(Reply::LengthRequired),
        content_length != Some(0usize) ==> action == PutAction::LookUp,
{
    match content_length {
        Some(0) => PutAction::Respond(Reply::LengthRequired),
        _ => PutAction::LookUp,
    }
}

/// Decides a PUT from the lookup of its key: a live key is not written
/// over; an absent or deleted key is written; other lookup errors are the
/// answer.
pub fn put_after_lookup(lookup: Result<Record, SysError>) -> (action: PutAction)
    ensures
        match lookup {
            Ok(rec) => if rec.live() {
                action == PutAction::Respond(Reply::ExistingKey)
            } else {
                action == PutAction::Write
            },
            Err(SysError::RecordNotFound) => action == PutAction::Write,
            Err(e) => action == PutAction::Respond(Reply::Failed(e)),
        },
{
    match lookup {
        Ok(rec) => {
            if rec.is_live() {
                PutAction::Respond(Reply::ExistingKey)
            } else {
                PutAction::Write
            }
        },
        Err(SysError::RecordNotFound) => PutAction::Write,
        Err(e) => PutAction::Respond(Reply::Failed(e)),
    }
}

/// A step of writing a key's blob, once the pending record was attempted.
#[derive(Debug)]
pub enum WriteStep {
    /// Send the blob to the replica URLs.
    Upload,
    /// Record the key as live.
    StoreCommitted,
    /// Answer.
    Respond(Reply),
}

/// Decides a write after storing the pending record: a failure ends the
/// PUT with that error; else the blob is uploaded.
pub fn write_after_pending(stored: Result<(), SysError>) -> (step: WriteStep)
    ensures
        match stored {
            Ok(()) => step == WriteStep::Upload,
            Err(e) => step == WriteStep::Respond(Reply::Failed(e)),
        },
{
    match stored {
        Ok(()) => WriteStep::Upload,
        Err(e) => WriteStep::Respond(Reply::Failed(e)),
    }
}

/// Decides a write after the upload: the key is recorded live whatever the
/// upload's outcome.
pub fn write_after_upload(uploaded: Result<(), SysError>) -> (step: WriteStep)
    ensures
        step == WriteStep::StoreCommitted,
{
    let _ = uploaded;
    WriteStep::StoreCommitted
}

/// The answer to a PUT once the live record was stored: 201, whatever the
/// outcome of storing it.
pub fn write_after_commit(stored: Result<(), SysError>) -> (reply: Reply)
    ensures
        reply == Reply::Created,
{
    let _ = stored;
    Reply::Created
}

// ---------------------------------------------------------------------------
// DELETE

/// What a DELETE does after reading the key's record.
#[derive(Debug)]
pub enum DeleteAction {
    /// Answer right away.
    Respond(Reply),
    /// Delete the blob at each of `urls`, in order, then the record.
    Remove { urls: Vec<String> },
}

/// Decides a DELETE from the lookup of its key: a failed lookup is the
/// answer; an already deleted key is answered 404 without a body; else the
/// replicas are removed in the record's order.
pub fn delete_after_lookup(lookup: Result<Record, SysError>, key: &str) -> (action: DeleteAction)
    ensures
        match lookup {
            Err(e) => action == DeleteAction::Respond(Reply::Failed(e)),
            Ok(rec) => if rec.hidden() {
                action == DeleteAction::Respond(Reply::AlreadyDeleted)
            } else {
                action matches DeleteAction::Remove { urls } && names(urls@) == names(
                    rec.replica_volumes@,
                ).map_values(|v: Seq<char>| replica_url(v, key@))
            },
        },
{
    match lookup {
        Err(e) => DeleteAction::Respond(Reply::Failed(e)),
        Ok(rec) => {
            if rec.is_hidden() {
                DeleteAction::Respond(Reply::AlreadyDeleted)
            } else {
                DeleteAction::Remove { urls: replica_urls(&rec.replica_volumes, key) }
            }
        },
    }
}

/// A step of removing a key.
#[derive(Debug)]
pub enum RemoveStep {
    /// Delete the blob at this position of the URL list.
    DeleteBlob(usize),
    /// Delete the key's record.
    DeleteRecord,
    /// Answer.
    Respond(Reply),
}

/// The first step of removing a key whose blob is at `urls`.
pub fn remove_start(urls: &Vec<String>) -> (step: RemoveStep)
    ensures
        urls@.len() > 0 ==> step == RemoveStep::DeleteBlob(0),
        urls@.len() == 0 ==> step == RemoveStep::DeleteRecord,
{
    if urls.len() > 0 {
        RemoveStep::DeleteBlob(0)
    } else {
        RemoveStep::DeleteRecord
    }
}

/// The step after deleting the blob at position `index`: the first failure
/// ends the DELETE with that error and leaves the record; after the last
/// blob, the record is deleted.
pub fn remove_after_blob(urls: &Vec<String>, index: usize, deleted: Result<(), SysError>) -> (step:
    RemoveStep)
    requires
        index < urls.len(),
    ensures
        match deleted {
            Err(e) => step == RemoveStep::Respond(Reply::Failed(e)),
            Ok(()) => if index + 1 < urls@.len() {
                step == RemoveStep::DeleteBlob((index + 1) as usize)
            } else {
                step == RemoveStep::DeleteRecord
            },
        },
{
    match deleted {
        Err(e) => RemoveStep::Respond(Reply::Failed(e)),
        Ok(()) => {
            if index + 1 < urls.len() {
                RemoveStep::DeleteBlob(index + 1)
            } else {
                RemoveStep::DeleteRecord
            }
        },
    }
}

/// The answer to a DELETE once deleting the record succeeded or failed.
pub fn delete_after_removal(result: Result<(), SysError>) -> (reply: Reply)
    ensures
        match result {
            Ok(()) => reply == Reply::Removed,
            Err(e) => reply == Reply::Failed(e),
        },
{
    match result {
        Ok(()) => Reply::Removed,
        Err(e) => Reply::Failed(e),
    }
}

} // verus!
