//! Which session a datagram of the Noise carrier belongs to.
//!
//! All clients arrive from the relay's one address, so a datagram is told apart
//! by the number that its session was given, or by the routing key that a
//! client's first message starts with.

use vstd::prelude::*;
use vstd::set_lib::*;
use crate::bytes;
use crate::outside;

verus! {

/// How many sessions may be open, handshakes among them.
pub const MAX_INFLIGHT: usize = 4096;

/// How often a session's number is drawn before the next free one is taken.
pub const MAX_DRAWS: u32 = 64;

/// How often sessions that ended silently are looked for, in milliseconds.
pub const CLEANUP_INTERVAL: u64 = 5_000;

/// What is to be done with a datagram.
#[derive(Debug, Clone, Copy, PartialEq, Eq)]
pub enum Route {
    /// It goes to a session.
    Session(u32),
    /// It repeats a first message, and goes to the session of the first.
    Again(u32),
    /// It is a new client's first message; the number is the client's own.
    New(u32),
    /// It is dropped.
    Drop,
}

/// What a dispatcher holds: the numbers of its sessions, the client's own
/// number and the session for each client, whether it still takes new clients,
/// and whether it has said already that a session has claimed the socket.
#[verifier::ext_equal]
pub struct DispatchParts {
    pub sessions: Seq<u32>,
    pub clients: Seq<(u32, u32)>,
    pub accepting: bool,
    pub announced: bool,
}

/// The session of a client.
pub open spec fn session_of(clients: Seq<(u32, u32)>, client: u32) -> Option<u32>
    decreases clients.len(),
{
    if clients.len() == 0 {
        None
    } else if clients[0].0 == client {
        Some(clients[0].1)
    } else {
        session_of(clients.skip(1), client)
    }
}

/// The number at the start of a datagram, or behind the routing key.
pub open spec fn number_at(d: Seq<u8>, at: int) -> u32 {
    bytes::be32(d[at], d[at + 1], d[at + 2], d[at + 3]) as u32
}

/// How long a datagram of a session, and a first message, is at least.
pub struct Shapes {
    pub data_min: usize,
    pub first_min: usize,
}

impl Shapes {
    /// Whether the numbers lie within datagrams of these lengths.
    pub open spec fn wf(&self) -> bool {
        self.data_min >= 4 && self.first_min >= 24
    }
}

/// What is to be done with a datagram.
pub open spec fn route(p: DispatchParts, shapes: Shapes, routing_key: Seq<u8>, d: Seq<u8>) -> Route {
    if d.len() >= shapes.data_min && p.sessions.contains(number_at(d, 0)) {
        Route::Session(number_at(d, 0))
    } else if d.len() >= shapes.first_min && d.take(20) == routing_key {
        match session_of(p.clients, number_at(d, 20)) {
            Some(s) => if p.sessions.contains(s) {
                Route::Again(s)
            } else {
                Route::Drop
            },
            None => if p.accepting && p.sessions.len() < MAX_INFLIGHT {
                Route::New(number_at(d, 20))
            } else {
                Route::Drop
            },
        }
    } else {
        Route::Drop
    }
}

/// Numbers without those that are gone.
pub open spec fn without(v: Seq<u32>, gone: Seq<u32>) -> Seq<u32>
    decreases v.len(),
{
    if v.len() == 0 {
        v
    } else {
        let before = without(v.drop_last(), gone);
        if gone.contains(v.last()) {
            before
        } else {
            before.push(v.last())
        }
    }
}

/// The clients whose session is among these.
pub open spec fn clients_of(c: Seq<(u32, u32)>, sessions: Seq<u32>) -> Seq<(u32, u32)>
    decreases c.len(),
{
    if c.len() == 0 {
        c
    } else {
        let before = clients_of(c.drop_last(), sessions);
        if sessions.contains(c.last().1) {
            before.push(c.last())
        } else {
            before
        }
    }
}

/// The clients whose session is another one.
pub open spec fn clients_not_of(c: Seq<(u32, u32)>, session: u32) -> Seq<(u32, u32)>
    decreases c.len(),
{
    if c.len() == 0 {
        c
    } else {
        let before = clients_not_of(c.drop_last(), session);
        if c.last().1 == session {
            before
        } else {
            before.push(c.last())
        }
    }
}

/// The clients but one.
pub open spec fn clients_but(c: Seq<(u32, u32)>, client: u32) -> Seq<(u32, u32)>
    decreases c.len(),
{
    if c.len() == 0 {
        c
    } else {
        let before = clients_but(c.drop_last(), client);
        if c.last().0 == client {
            before
        } else {
            before.push(c.last())
        }
    }
}

/// A dispatcher after sessions have ended silently. It looks for them only once
/// it takes no new clients.
pub open spec fn cleaned(p: DispatchParts, ended: Seq<u32>) -> DispatchParts {
    if p.accepting {
        p
    } else {
        let sessions = without(p.sessions, ended);
        DispatchParts { sessions, clients: clients_of(p.clients, sessions), ..p }
    }
}

/// A dispatcher after the session of a datagram was found to be gone.
pub open spec fn lost(p: DispatchParts, session: u32) -> DispatchParts {
    DispatchParts {
        sessions: without(p.sessions, seq![session]),
        clients: clients_not_of(p.clients, session),
        ..p
    }
}

/// A dispatcher after a handshake failed.
pub open spec fn reaped(p: DispatchParts, session: u32, client: u32) -> DispatchParts {
    DispatchParts {
        sessions: without(p.sessions, seq![session]),
        clients: clients_but(p.clients, client),
        ..p
    }
}

/// Whether a dispatcher has nothing left to do.
pub open spec fn is_done(p: DispatchParts) -> bool {
    !p.accepting && p.sessions.len() == 0
}

/// Tells apart the datagrams of a socket.
pub struct Dispatcher {
    sessions: Vec<u32>,
    clients: Vec<(u32, u32)>,
    accepting: bool,
    announced: bool,
}

fn has_number(v: &Vec<u32>, n: u32) -> (r: bool)
    ensures
        r == v@.contains(n),
{
    let mut i: usize = 0;
    while i < v.len()
        invariant
            i <= v.len(),
            forall|j: int| 0 <= j < i ==> v@[j] != n,
        decreases v.len() - i,
    {
        if v[i] == n {
            return true;
        }
        i = i + 1;
    }
    false
}

/// The number that lies `k` after another; after the largest comes zero.
pub open spec fn number_after(start: u32, k: int) -> u32 {
    ((start + k) % 0x1_0000_0000) as u32
}

proof fn a_free_number_is_near(v: Seq<u32>, start: u32, k: int)
    requires
        0 <= k <= 0x1_0000_0000,
        forall|j: int| 0 <= j < k ==> v.contains(#[trigger] number_after(start, j)),
    ensures
        k <= v.len(),
{
    let at = |j: int| number_after(start, j);
    let range = set_int_range(0, k);
    let numbers = range.map(at);
    lemma_int_range(0, k);
    assert forall|i: int, j: int|
        range.contains(i) && range.contains(j) && #[trigger] at(i) == #[trigger] at(j) implies i
        == j by {
        assert((start + i) % 0x1_0000_0000 == (start + j) % 0x1_0000_0000);
    }
    lemma_map_size(range, numbers, at);
    assert forall|n: u32| numbers.contains(n) implies v.to_set().contains(n) by {
        let j = choose|j: int| range.contains(j) && at(j) == n;
        assert(v.contains(number_after(start, j)));
    }
    vstd::seq_lib::seq_to_set_is_finite(v);
    lemma_len_subset(numbers, v.to_set());
    v.lemma_cardinality_of_set();
}

/// The first number from `start` on that is not in use.
fn free_number(v: &Vec<u32>, start: u32) -> (n: u32)
    requires
        v@.len() <= MAX_INFLIGHT,
    ensures
        !v@.contains(n),
{
    let mut n: u32 = start;
    let ghost mut k: int = 0;
    while has_number(v, n)
        invariant
            v@.len() <= MAX_INFLIGHT,
            0 <= k <= v@.len(),
            n == number_after(start, k),
            forall|j: int| 0 <= j < k ==> v@.contains(#[trigger] number_after(start, j)),
        decreases v@.len() - k,
    {
        proof {
            a_free_number_is_near(v@, start, k + 1);
            k = k + 1;
        }
        n = if n == u32::MAX {
            0
        } else {
            n + 1
        };
    }
    n
}

fn drop_numbers(v: &Vec<u32>, gone: &Vec<u32>) -> (out: Vec<u32>)
    ensures
        out@ == without(v@, gone@),
{
    let mut out: Vec<u32> = Vec::new();
    let mut i: usize = 0;
    assert(v@.take(0) =~= out@);
    while i < v.len()
        invariant
            i <= v.len(),
            out@ == without(v@.take(i as int), gone@),
        decreases v.len() - i,
    {
        assert(v@.take(i + 1).drop_last() =~= v@.take(i as int));
        if !has_number(gone, v[i]) {
            out.push(v[i]);
        }
        i = i + 1;
    }
    assert(v@.take(i as int) =~= v@);
    out
}

proof fn without_keeps(v: Seq<u32>, gone: Seq<u32>, n: u32)
    ensures
        without(v, gone).contains(n) <==> v.contains(n) && !gone.contains(n),
        without(v, gone).len() <= v.len(),
    decreases v.len(),
{
    if v.len() > 0 {
        let init = v.drop_last();
        let before = without(init, gone);
        let after = without(v, gone);
        without_keeps(init, gone, n);
        if v.contains(n) {
            let i = v.index_of(n);
            if i < init.len() {
                assert(init[i] == n);
            }
        }
        if init.contains(n) {
            assert(v[init.index_of(n)] == n);
        }
        if before.contains(n) {
            assert(after[before.index_of(n)] == n);
        }
        if n == v.last() && !gone.contains(n) {
            assert(after.last() == n);
            assert(v[v.len() - 1] == n);
        }
        if after.contains(n) {
            let i = after.index_of(n);
            if i < before.len() {
                assert(before[i] == n);
            }
        }
    }
}

proof fn without_is_distinct(v: Seq<u32>, gone: Seq<u32>)
    requires
        v.no_duplicates(),
    ensures
        without(v, gone).no_duplicates(),
    decreases v.len(),
{
    if v.len() > 0 {
        let init = v.drop_last();
        let before = without(init, gone);
        without_is_distinct(init, gone);
        without_keeps(init, gone, v.last());
        if init.contains(v.last()) {
            let i = init.index_of(v.last());
            assert(v[i] == v[v.len() - 1]);
        }
        assert(!before.contains(v.last()));
    }
}

/// Whether no session number is used twice, and there are no more sessions
/// than may be.
pub open spec fn dispatch_ok(p: DispatchParts) -> bool {
    p.sessions.no_duplicates() && p.sessions.len() <= MAX_INFLIGHT
}

impl Dispatcher {
    pub closed spec fn view(&self) -> DispatchParts {
        DispatchParts {
            sessions: self.sessions@,
            clients: self.clients@,
            accepting: self.accepting,
            announced: self.announced,
        }
    }

    /// A dispatcher that takes new clients and has none.
    pub fn new() -> (d: Dispatcher)
        ensures
            dispatch_ok(d@),
            d@ == (DispatchParts {
                sessions: Seq::empty(),
                clients: Seq::empty(),
                accepting: true,
                announced: false,
            }),
    {
        Dispatcher { sessions: Vec::new(), clients: Vec::new(), accepting: true, announced: false }
    }

    fn client_session(&self, client: u32) -> (r: Option<u32>)
        ensures
            r == session_of(self@.clients, client),
    {
        let mut i: usize = 0;
        assert(self.clients@.skip(0) =~= self.clients@);
        while i < self.clients.len()
            invariant
                i <= self.clients@.len(),
                session_of(self.clients@, client) == session_of(
                    self.clients@.skip(i as int),
                    client,
                ),
            decreases self.clients.len() - i,
        {
            assert(self.clients@.skip(i as int).skip(1) =~= self.clients@.skip(i + 1));
            if self.clients[i].0 == client {
                return Some(self.clients[i].1);
            }
            i = i + 1;
        }
        None
    }

    /// What is to be done with a datagram, whose wire shaping was undone. A
    /// session's datagram goes to it; a first message that repeats one goes to
    /// the session of that one, even once no new clients are taken; and a new
    /// client is taken as long as they are and there is room.
    pub fn on_datagram(&self, shapes: &Shapes, routing_key: &[u8; 20], d: &[u8]) -> (r: Route)
        requires
            shapes.wf(),
        ensures
            r == route(self@, *shapes, routing_key@, d@),
    {
        if d.len() >= shapes.data_min {
            let n: u32 = bytes::u32_of(d[0], d[1], d[2], d[3]);
            if has_number(&self.sessions, n) {
                return Route::Session(n);
            }
        }
        if d.len() >= shapes.first_min {
            let head = vstd::slice::slice_subrange(d, 0, 20);
            assert(head@ =~= d@.take(20));
            if bytes::same_bytes(head, routing_key) {
                let client: u32 = bytes::u32_of(d[20], d[21], d[22], d[23]);
                return match self.client_session(client) {
                    Some(s) => if has_number(&self.sessions, s) {
                        Route::Again(s)
                    } else {
                        Route::Drop
                    },
                    None => if self.accepting && self.sessions.len() < MAX_INFLIGHT {
                        Route::New(client)
                    } else {
                        Route::Drop
                    },
                };
            }
        }
        Route::Drop
    }

    /// Takes a new client under a session number that was drawn. Returns whether
    /// the number was free; where it was not, another is to be drawn.
    pub fn take_client(&mut self, client: u32, session: u32) -> (free: bool)
        requires
            dispatch_ok(old(self)@),
            old(self)@.sessions.len() < MAX_INFLIGHT,
        ensures
            dispatch_ok(final(self)@),
            free == !old(self)@.sessions.contains(session),
            !free ==> final(self)@ == old(self)@,
            free ==> final(self)@ == (DispatchParts {
                sessions: old(self)@.sessions.push(session),
                clients: old(self)@.clients.push((client, session)),
                ..old(self)@
            }),
    {
        if has_number(&self.sessions, session) {
            return false;
        }
        self.sessions.push(session);
        self.clients.push((client, session));
        true
    }

    /// Draws a number for the session of a new client and takes it in. A number
    /// that is in use is drawn again, and where draws do not help, the next one
    /// that is free is taken: a client always gets a number of its own.
    pub fn draw_client(&mut self, client: u32) -> (session: u32)
        requires
            dispatch_ok(old(self)@),
            old(self)@.sessions.len() < MAX_INFLIGHT,
        ensures
            dispatch_ok(final(self)@),
            !old(self)@.sessions.contains(session),
            final(self)@ == (DispatchParts {
                sessions: old(self)@.sessions.push(session),
                clients: old(self)@.clients.push((client, session)),
                ..old(self)@
            }),
    {
        let mut session: u32 = outside::random_u32();
        let mut draws: u32 = 1;
        while draws < MAX_DRAWS && has_number(&self.sessions, session)
            invariant
                draws <= MAX_DRAWS,
            decreases MAX_DRAWS - draws,
        {
            session = outside::random_u32();
            draws = draws + 1;
        }
        session = free_number(&self.sessions, session);
        let _free: bool = self.take_client(client, session);
        session
    }

    /// A client was authenticated, and its session handed on if `delivered`. The
    /// first session that was handed on claims the socket: no new clients are
    /// taken, and it is said once that another socket is to be opened.
    pub fn authenticated(&mut self, delivered: bool) -> (roll: bool)
        ensures
            final(self)@ == (DispatchParts {
                accepting: old(self)@.accepting && !delivered,
                announced: old(self)@.announced || delivered,
                ..old(self)@
            }),
            roll == (delivered && !old(self)@.announced),
    {
        if !delivered {
            return false;
        }
        self.accepting = false;
        let first: bool = !self.announced;
        self.announced = true;
        first
    }

    /// The session of a datagram is gone. Returns whether nothing is left to
    /// do.
    pub fn session_gone(&mut self, session: u32) -> (done: bool)
        requires
            dispatch_ok(old(self)@),
        ensures
            dispatch_ok(final(self)@),
            final(self)@ == lost(old(self)@, session),
            done == is_done(final(self)@),
    {
        let gone = vec![session];
        assert(gone@ =~= seq![session]);
        proof {
            without_is_distinct(self.sessions@, gone@);
            without_keeps(self.sessions@, gone@, 0);
        }
        self.sessions = drop_numbers(&self.sessions, &gone);
        let mut out: Vec<(u32, u32)> = Vec::new();
        let mut i: usize = 0;
        assert(self.clients@.take(0) =~= out@);
        while i < self.clients.len()
            invariant
                i <= self.clients@.len(),
                out@ == clients_not_of(self.clients@.take(i as int), session),
            decreases self.clients.len() - i,
        {
            assert(self.clients@.take(i + 1).drop_last() =~= self.clients@.take(i as int));
            if self.clients[i].1 != session {
                out.push(self.clients[i]);
            }
            i = i + 1;
        }
        assert(self.clients@.take(i as int) =~= self.clients@);
        self.clients = out;
        !self.accepting && self.sessions.len() == 0
    }

    /// A handshake failed: its session and its client are forgotten. Returns
    /// whether nothing is left to do.
    pub fn handshake_failed(&mut self, session: u32, client: u32) -> (done: bool)
        requires
            dispatch_ok(old(self)@),
        ensures
            dispatch_ok(final(self)@),
            final(self)@ == reaped(old(self)@, session, client),
            done == is_done(final(self)@),
    {
        let gone = vec![session];
        assert(gone@ =~= seq![session]);
        proof {
            without_is_distinct(self.sessions@, gone@);
            without_keeps(self.sessions@, gone@, 0);
        }
        self.sessions = drop_numbers(&self.sessions, &gone);
        let mut out: Vec<(u32, u32)> = Vec::new();
        let mut i: usize = 0;
        assert(self.clients@.take(0) =~= out@);
        while i < self.clients.len()
            invariant
                i <= self.clients@.len(),
                out@ == clients_but(self.clients@.take(i as int), client),
            decreases self.clients.len() - i,
        {
            assert(self.clients@.take(i + 1).drop_last() =~= self.clients@.take(i as int));
            if self.clients[i].0 != client {
                out.push(self.clients[i]);
            }
            i = i + 1;
        }
        assert(self.clients@.take(i as int) =~= self.clients@);
        self.clients = out;
        !self.accepting && self.sessions.len() == 0
    }

    /// Looks for sessions that ended silently, once no new clients are taken.
    /// Returns whether nothing is left to do.
    pub fn cleanup(&mut self, ended: &Vec<u32>) -> (done: bool)
        requires
            dispatch_ok(old(self)@),
        ensures
            dispatch_ok(final(self)@),
            final(self)@ == cleaned(old(self)@, ended@),
            done == is_done(final(self)@),
    {
        if self.accepting {
            return false;
        }
        proof {
            without_is_distinct(self.sessions@, ended@);
            without_keeps(self.sessions@, ended@, 0);
        }
        self.sessions = drop_numbers(&self.sessions, ended);
        let mut out: Vec<(u32, u32)> = Vec::new();
        let mut i: usize = 0;
        assert(self.clients@.take(0) =~= out@);
        while i < self.clients.len()
            invariant
                i <= self.clients@.len(),
                out@ == clients_of(self.clients@.take(i as int), self.sessions@),
            decreases self.clients.len() - i,
        {
            assert(self.clients@.take(i + 1).drop_last() =~= self.clients@.take(i as int));
            if has_number(&self.sessions, self.clients[i].1) {
                out.push(self.clients[i]);
            }
            i = i + 1;
        }
        assert(self.clients@.take(i as int) =~= self.clients@);
        self.clients = out;
        self.sessions.len() == 0
    }
}

/// A new client is taken only while new clients are, and never beyond the
/// limit.
pub proof fn new_clients_are_limited(
    p: DispatchParts,
    shapes: Shapes,
    routing_key: Seq<u8>,
    d: Seq<u8>,
)
    requires
        dispatch_ok(p),
    ensures
        route(p, shapes, routing_key, d) is New ==> p.accepting && p.sessions.len() < MAX_INFLIGHT
            && d.take(20) == routing_key && session_of(p.clients, number_at(d, 20)) is None,
{
}

proof fn added_client_is_found(c: Seq<(u32, u32)>, client: u32, session: u32)
    requires
        session_of(c, client) is None,
    ensures
        session_of(c.push((client, session)), client) == Some(session),
    decreases c.len(),
{
    let d = c.push((client, session));
    if c.len() > 0 {
        added_client_is_found(c.skip(1), client, session);
        assert(d.skip(1) =~= c.skip(1).push((client, session)));
    }
}

/// A first message that is repeated reaches the session that the first one
/// made, whether or not new clients are still taken, unless it happens to start
/// with another session's number.
pub proof fn repeated_message_finds_its_session(
    p: DispatchParts,
    shapes: Shapes,
    routing_key: Seq<u8>,
    d: Seq<u8>,
    session: u32,
    accepting: bool,
)
    requires
        route(p, shapes, routing_key, d) == Route::New(number_at(d, 20)),
        !p.sessions.contains(session),
        number_at(d, 0) != session || d.len() < shapes.data_min,
    ensures
        ({
            let next = DispatchParts {
                sessions: p.sessions.push(session),
                clients: p.clients.push((number_at(d, 20), session)),
                accepting,
                ..p
            };
            route(next, shapes, routing_key, d) == Route::Again(session)
        }),
{
    let next = p.sessions.push(session);
    added_client_is_found(p.clients, number_at(d, 20), session);
    assert(next.last() == session);
    assert(next.contains(session));
    if next.contains(number_at(d, 0)) {
        let i = next.index_of(number_at(d, 0));
        if i < p.sessions.len() {
            assert(p.sessions[i] == number_at(d, 0));
        }
    }
}

/// A failed handshake leaves nothing behind: its session's number routes
/// nothing any more.
pub proof fn failed_handshake_leaves_nothing(p: DispatchParts, session: u32, client: u32)
    ensures
        !reaped(p, session, client).sessions.contains(session),
{
    without_keeps(p.sessions, seq![session], session);
    assert(seq![session][0] == session);
}

/// A datagram that starts with the number of a session, its highest byte first,
/// reaches that session, whoever else is there.
pub proof fn data_reaches_its_session(
    p: DispatchParts,
    shapes: Shapes,
    routing_key: Seq<u8>,
    d: Seq<u8>,
    session: u32,
)
    requires
        shapes.wf(),
        d.len() >= shapes.data_min,
        session == d[0] * 0x100_0000 + d[1] * 0x1_0000 + d[2] * 0x100 + d[3],
        p.sessions.contains(session),
    ensures
        route(p, shapes, routing_key, d) == Route::Session(session),
{
    assert(number_at(d, 0) == session);
}

/// A first message for this exit, from a client that has no session yet, is
/// taken as a new client while new ones are taken and fewer than 4096 sessions
/// are there, and is dropped otherwise.
pub proof fn first_message_opens_a_session(
    p: DispatchParts,
    shapes: Shapes,
    routing_key: Seq<u8>,
    d: Seq<u8>,
    client: u32,
)
    requires
        shapes.wf(),
        d.len() >= shapes.first_min,
        routing_key.len() == 20,
        forall|i: int| 0 <= i < 20 ==> d[i] == routing_key[i],
        client == d[20] * 0x100_0000 + d[21] * 0x1_0000 + d[22] * 0x100 + d[23],
        forall|i: int| 0 <= i < p.clients.len() ==> (#[trigger] p.clients[i]).0 != client,
        !p.sessions.contains(
            (d[0] * 0x100_0000 + d[1] * 0x1_0000 + d[2] * 0x100 + d[3]) as u32,
        ),
    ensures
        route(p, shapes, routing_key, d) == if p.accepting && p.sessions.len() < 4096 {
            Route::New(client)
        } else {
            Route::Drop
        },
{
    assert(d.take(20) =~= routing_key);
    assert(number_at(d, 20) == client);
    lemma_unknown_client(p.clients, client);
}

proof fn lemma_unknown_client(c: Seq<(u32, u32)>, client: u32)
    requires
        forall|i: int| 0 <= i < c.len() ==> (#[trigger] c[i]).0 != client,
    ensures
        session_of(c, client) is None,
    decreases c.len(),
{
    if c.len() > 0 {
        assert(c[0].0 != client);
        assert forall|i: int| 0 <= i < c.skip(1).len() implies (#[trigger] c.skip(1)[i]).0
            != client by {
            assert(c.skip(1)[i] == c[i + 1]);
        }
        lemma_unknown_client(c.skip(1), client);
    }
}

/// What neither starts with the number of a session nor is a first message for
/// this exit is dropped.
pub proof fn strangers_are_dropped(
    p: DispatchParts,
    shapes: Shapes,
    routing_key: Seq<u8>,
    d: Seq<u8>,
)
    requires
        shapes.wf(),
        routing_key.len() == 20,
        d.len() < shapes.data_min || !p.sessions.contains(
            (d[0] * 0x100_0000 + d[1] * 0x1_0000 + d[2] * 0x100 + d[3]) as u32,
        ),
        d.len() < shapes.first_min || exists|i: int| 0 <= i < 20 && d[i] != routing_key[i],
    ensures
        route(p, shapes, routing_key, d) is Drop,
{
    if d.len() >= shapes.first_min {
        let i = choose|i: int| 0 <= i < 20 && d[i] != routing_key[i];
        assert(d.take(20)[i] == d[i]);
    }
}

proof fn lemma_clients_of(c: Seq<(u32, u32)>, sessions: Seq<u32>, x: (u32, u32))
    ensures
        clients_of(c, sessions).contains(x) <==> c.contains(x) && sessions.contains(x.1),
    decreases c.len(),
{
    if c.len() > 0 {
        let init = c.drop_last();
        let before = clients_of(init, sessions);
        let after = clients_of(c, sessions);
        lemma_clients_of(init, sessions, x);
        lemma_last_or_before(c, x);
        if before.contains(x) {
            assert(after[before.index_of(x)] == x);
        }
        if c.last() == x && sessions.contains(x.1) {
            assert(after.last() == x);
        }
        if after.contains(x) {
            let i = after.index_of(x);
            if i < before.len() {
                assert(before[i] == x);
            }
        }
    }
}

proof fn lemma_last_or_before(c: Seq<(u32, u32)>, x: (u32, u32))
    requires
        c.len() > 0,
    ensures
        c.contains(x) <==> c.drop_last().contains(x) || c.last() == x,
{
    if c.contains(x) {
        let i = c.index_of(x);
        if i < c.len() - 1 {
            assert(c.drop_last()[i] == x);
        }
    }
    if c.drop_last().contains(x) {
        let i = c.drop_last().index_of(x);
        assert(c[i] == x);
    }
    if c.last() == x {
        assert(c[c.len() - 1] == x);
    }
}

proof fn lemma_clients_not_of(c: Seq<(u32, u32)>, session: u32, x: (u32, u32))
    ensures
        clients_not_of(c, session).contains(x) <==> c.contains(x) && x.1 != session,
    decreases c.len(),
{
    if c.len() > 0 {
        let init = c.drop_last();
        let before = clients_not_of(init, session);
        let after = clients_not_of(c, session);
        lemma_clients_not_of(init, session, x);
        lemma_last_or_before(c, x);
        if before.contains(x) {
            assert(after[before.index_of(x)] == x);
        }
        if c.last() == x && x.1 != session {
            assert(after.last() == x);
        }
        if after.contains(x) {
            let i = after.index_of(x);
            if i < before.len() {
                assert(before[i] == x);
            }
        }
    }
}

proof fn lemma_clients_but(c: Seq<(u32, u32)>, client: u32, x: (u32, u32))
    ensures
        clients_but(c, client).contains(x) <==> c.contains(x) && x.0 != client,
    decreases c.len(),
{
    if c.len() > 0 {
        let init = c.drop_last();
        let before = clients_but(init, client);
        let after = clients_but(c, client);
        lemma_clients_but(init, client, x);
        lemma_last_or_before(c, x);
        if before.contains(x) {
            assert(after[before.index_of(x)] == x);
        }
        if c.last() == x && x.0 != client {
            assert(after.last() == x);
        }
        if after.contains(x) {
            let i = after.index_of(x);
            if i < before.len() {
                assert(before[i] == x);
            }
        }
    }
}

/// A session that goes takes its own number and its own clients along, and no
/// other session's; so does a handshake that fails. The socket is done with
/// exactly when it takes no new clients and no session is left.
pub proof fn other_sessions_stay(
    p: DispatchParts,
    session: u32,
    client: u32,
    n: u32,
    x: (u32, u32),
)
    ensures
        lost(p, session).sessions.contains(n) <==> p.sessions.contains(n) && n != session,
        lost(p, session).clients.contains(x) <==> p.clients.contains(x) && x.1 != session,
        reaped(p, session, client).sessions.contains(n) <==> p.sessions.contains(n) && n != session,
        reaped(p, session, client).clients.contains(x) <==> p.clients.contains(x) && x.0 != client,
        lost(p, session).accepting == p.accepting && reaped(p, session, client).accepting
            == p.accepting,
        is_done(p) <==> !p.accepting && (forall|m: u32| !(#[trigger] p.sessions.contains(m))),
{
    without_keeps(p.sessions, seq![session], n);
    assert(seq![session].contains(n) <==> n == session) by {
        assert(seq![session][0] == session);
    }
    lemma_clients_not_of(p.clients, session, x);
    lemma_clients_but(p.clients, client, x);
    if forall|m: u32| !(#[trigger] p.sessions.contains(m)) {
        if p.sessions.len() > 0 {
            assert(p.sessions.contains(p.sessions[0]));
        }
    }
}

/// While new clients are taken nothing is cleaned up. After that, exactly the
/// sessions that have ended go, and the clients without a session with them.
pub proof fn cleanup_drops_what_has_ended(
    p: DispatchParts,
    ended: Seq<u32>,
    n: u32,
    x: (u32, u32),
)
    ensures
        p.accepting ==> cleaned(p, ended) == p,
        !p.accepting ==> {
            &&& cleaned(p, ended).sessions.contains(n) <==> p.sessions.contains(n)
                && !ended.contains(n)
            &&& cleaned(p, ended).clients.contains(x) <==> p.clients.contains(x)
                && p.sessions.contains(x.1) && !ended.contains(x.1)
        },
{
    let sessions = without(p.sessions, ended);
    without_keeps(p.sessions, ended, n);
    without_keeps(p.sessions, ended, x.1);
    lemma_clients_of(p.clients, sessions, x);
}

} // verus!
