//! The exit: which destinations a tunnel may reach, the table of its UDP
//! flows, and the driver between the tunnel and the virtual IP stack.

use vstd::prelude::*;
use vstd::string::*;
use crate::addr;
use crate::addr::{IpAddr, SocketAddr};
use crate::reassembly;
use crate::reassembly::IpReassembler;

verus! {

/// The first of the local ports that a hole punch tries.
pub const BASE_PORT: u16 = 54321;

/// How long a UDP flow may be idle, in milliseconds.
pub const UDP_NAT_TIMEOUT: u64 = 30_000;

/// How often idle UDP flows are looked for, in milliseconds.
pub const UDP_NAT_SWEEP_INTERVAL: u64 = 10_000;

/// How many UDP flows are tracked at once.
pub const MAX_UDP_NAT_ENTRIES: usize = 256;

/// How many packets wait for the transport before more are dropped.
pub const EGRESS_CHANNEL_CAPACITY: usize = 4096;

/// Why a tunnel could not be set up.
#[derive(Debug, PartialEq, Eq)]
pub enum TunnelError {
    /// The channel on which the peers negotiate is closed.
    NegChannelClosed,
    /// The peer sent what cannot be understood.
    ProtocolError(String),
    /// The peer named an address that is no target for a punch.
    PunchTargetRefused(String),
    /// The own public address could not be found.
    PierceError(String),
}

/// Whether an IPv4 address is in a range that is not public.
pub open spec fn local_v4(o: Seq<u8>) -> bool {
    ||| o[0] == 0
    ||| o[0] == 10
    ||| o[0] == 100 && 64 <= o[1] <= 127
    ||| o[0] == 127
    ||| o[0] == 169 && o[1] == 254
    ||| o[0] == 172 && 16 <= o[1] <= 31
    ||| o[0] == 192 && o[1] == 168
    ||| o[0] >= 224
}

/// Whether an IPv6 address is the loopback address.
pub open spec fn loopback_v6(g: Seq<u16>) -> bool {
    g[7] == 1 && forall|i: int| 0 <= i < 7 ==> g[i] == 0
}

/// Whether an address is private, loopback, link-local or otherwise not
/// public. An IPv4 address that is written as a mapped IPv6 address is judged
/// by the IPv4 ranges.
pub open spec fn local(ip: IpAddr) -> bool {
    match ip {
        IpAddr::V4(o) => local_v4(o@),
        IpAddr::V6(g) => {
            ||| loopback_v6(g@)
            ||| 0xfc00 <= g@[0] <= 0xfdff
            ||| 0xfe80 <= g@[0] <= 0xfebf
            ||| addr::is_mapped(g@) && local_v4(addr::mapped_octets(g@))
        },
    }
}

fn is_local_v4(a: u8, b: u8) -> (r: bool)
    ensures
        r == local_v4(seq![a, b]),
{
    a == 0 || a == 10 || (a == 100 && b >= 64 && b <= 127) || a == 127 || (a == 169 && b == 254)
        || (a == 172 && b >= 16 && b <= 31) || (a == 192 && b == 168) || a >= 224
}

/// Whether an address is private, loopback, link-local or otherwise not
/// public, and so should not be reached through the tunnel.
pub fn is_local_address(ip: IpAddr) -> (r: bool)
    ensures
        r == local(ip),
{
    match ip {
        IpAddr::V4(o) => is_local_v4(o[0], o[1]),
        IpAddr::V6(g) => {
            let zero: bool = g[0] == 0 && g[1] == 0 && g[2] == 0 && g[3] == 0 && g[4] == 0;
            if zero && g[5] == 0 && g[6] == 0 && g[7] == 1 {
                assert(loopback_v6(g@));
                return true;
            }
            assert(!loopback_v6(g@));
            if (g[0] >= 0xfc00 && g[0] <= 0xfdff) || (g[0] >= 0xfe80 && g[0] <= 0xfebf) {
                return true;
            }
            if zero && g[5] == 0xffff {
                assert(addr::is_mapped(g@));
                return is_local_v4((g[6] / 256) as u8, (g[6] % 256) as u8);
            }
            assert(!addr::is_mapped(g@));
            false
        },
    }
}

/// Whether a destination may be reached, where `block_local` keeps clients away
/// from addresses that are not public.
pub open spec fn admitted(remote: SocketAddr, block_local: bool) -> bool {
    !(block_local && local(remote.ip))
}

/// Whether a TCP connection, or a datagram, to a destination is let through.
pub fn admits(remote: SocketAddr, block_local: bool) -> (r: bool)
    ensures
        r == admitted(remote, block_local),
{
    !(block_local && is_local_address(remote.ip))
}

/// A UDP flow: the client's address, the destination, the number of the socket
/// that carries it, and when it was last used.
#[derive(Debug, Clone, Copy, PartialEq, Eq)]
pub struct NatEntry {
    pub local: SocketAddr,
    pub remote: SocketAddr,
    pub socket: u64,
    pub last_activity: u64,
}

/// The place of the flow between two addresses at or after `from`, or the
/// length.
pub open spec fn flow_place(
    es: Seq<NatEntry>,
    local: SocketAddr,
    remote: SocketAddr,
    from: int,
) -> int
    decreases es.len() - from,
{
    if from >= es.len() {
        es.len() as int
    } else if es[from].local == local && es[from].remote == remote {
        from
    } else {
        flow_place(es, local, remote, from + 1)
    }
}

/// The place of the flow among the first `n` that has been idle the longest.
pub open spec fn idlest(es: Seq<NatEntry>, n: int) -> int
    decreases n,
{
    if n <= 1 {
        0
    } else {
        let before = idlest(es, n - 1);
        if es[n - 1].last_activity < es[before].last_activity {
            n - 1
        } else {
            before
        }
    }
}

/// Whether no two flows are between the same addresses.
pub open spec fn flows_differ(es: Seq<NatEntry>) -> bool {
    forall|i: int, j: int|
        0 <= i < j < es.len() ==> (#[trigger] es[i]).local != (#[trigger] es[j]).local
            || es[i].remote != es[j].remote
}

/// A table to which a flow was added, and the place of the flow that had to
/// leave for it.
pub open spec fn inserted(es: Seq<NatEntry>, e: NatEntry, cap: nat) -> (Seq<NatEntry>, Option<int>) {
    let at = flow_place(es, e.local, e.remote, 0);
    if at < es.len() {
        (es.update(at, e), None)
    } else if es.len() >= cap && es.len() > 0 {
        let out = idlest(es, es.len() as int);
        (es.remove(out).push(e), Some(out))
    } else {
        (es.push(e), None)
    }
}

/// Whether a flow is still in use at `now`.
pub open spec fn in_use(e: NatEntry, now: u64) -> bool {
    now - e.last_activity <= UDP_NAT_TIMEOUT
}

/// The flows that are still in use at `now`.
pub open spec fn swept(es: Seq<NatEntry>, now: u64) -> Seq<NatEntry> {
    es.filter(|e: NatEntry| in_use(e, now))
}

/// What is to be done with a datagram from the client.
#[derive(Debug, Clone, Copy, PartialEq, Eq)]
pub enum DatagramStep {
    /// It could not be read, and is passed over.
    Skip,
    /// Its destination is not public, and it is dropped.
    Blocked,
    /// It is sent on a socket.
    Send(u64),
    /// A socket is to be opened for it.
    Open,
}

/// The table of UDP flows.
pub struct UdpNat {
    entries: Vec<NatEntry>,
}

impl UdpNat {
    /// The flows.
    pub closed spec fn view(&self) -> Seq<NatEntry> {
        self.entries@
    }

    /// Whether no two flows are between the same addresses.
    pub open spec fn wf(&self) -> bool {
        flows_differ(self@)
    }

    /// A table without flows.
    pub fn new() -> (t: UdpNat)
        ensures
            t.wf(),
            t@ == Seq::<NatEntry>::empty(),
    {
        UdpNat { entries: Vec::new() }
    }

    /// How many flows there are.
    pub fn len(&self) -> (n: usize)
        ensures
            n == self@.len(),
    {
        self.entries.len()
    }

    fn find(&self, local: &SocketAddr, remote: &SocketAddr) -> (at: usize)
        ensures
            at == flow_place(self@, *local, *remote, 0),
            at <= self@.len(),
            at < self@.len() ==> self@[at as int].local == *local && self@[at as int].remote
                == *remote,
            forall|j: int|
                0 <= j < at ==> (#[trigger] self@[j]).local != *local || self@[j].remote != *remote,
    {
        let mut i: usize = 0;
        while i < self.entries.len()
            invariant
                i <= self@.len(),
                flow_place(self@, *local, *remote, 0) == flow_place(self@, *local, *remote, i as int),
                forall|j: int|
                    0 <= j < i ==> (#[trigger] self@[j]).local != *local || self@[j].remote
                        != *remote,
            decreases self.entries.len() - i,
        {
            if self.entries[i].local.same(local) && self.entries[i].remote.same(remote) {
                return i;
            }
            i = i + 1;
        }
        i
    }

    /// Whether there is a flow between two addresses.
    pub fn contains(&self, local: SocketAddr, remote: SocketAddr) -> (r: bool)
        ensures
            r == (flow_place(self@, local, remote, 0) < self@.len()),
    {
        self.find(&local, &remote) < self.entries.len()
    }

    /// What is to be done with a datagram, of which `parsed` are the client's
    /// address and the destination. A flow that carries it is used at `now`.
    pub fn on_datagram(
        &mut self,
        parsed: Option<(SocketAddr, SocketAddr)>,
        block_local: bool,
        now: u64,
    ) -> (s: DatagramStep)
        requires
            old(self).wf(),
        ensures
            final(self).wf(),
            match parsed {
                None => s is Skip && final(self)@ == old(self)@,
                Some((local, remote)) => {
                    let at = flow_place(old(self)@, local, remote, 0);
                    if !admitted(remote, block_local) {
                        s is Blocked && final(self)@ == old(self)@
                    } else if at < old(self)@.len() {
                        s == DatagramStep::Send(old(self)@[at].socket) && final(self)@ == old(
                            self,
                        )@.update(at, NatEntry { last_activity: now, ..old(self)@[at] })
                    } else {
                        s is Open && final(self)@ == old(self)@
                    }
                },
            },
    {
        let (local, remote) = match parsed {
            Some(p) => p,
            None => return DatagramStep::Skip,
        };
        if !admits(remote, block_local) {
            return DatagramStep::Blocked;
        }
        let at: usize = self.find(&local, &remote);
        if at < self.entries.len() {
            let e = self.entries[at];
            self.entries.set(
                at,
                NatEntry {
                    local: e.local,
                    remote: e.remote,
                    socket: e.socket,
                    last_activity: now,
                },
            );
            DatagramStep::Send(e.socket)
        } else {
            DatagramStep::Open
        }
    }

    /// Adds a flow. Where it is new and there are `cap` flows already, the one
    /// that has been idle the longest leaves; the number of its socket is
    /// returned, which is to be closed.
    pub fn insert_bounded(&mut self, e: NatEntry, cap: usize) -> (evicted: Option<u64>)
        requires
            old(self).wf(),
        ensures
            final(self).wf(),
            final(self)@ == inserted(old(self)@, e, cap as nat).0,
            evicted == (match inserted(old(self)@, e, cap as nat).1 {
                Some(out) => Some(old(self)@[out].socket),
                None => None,
            }),
    {
        let at: usize = self.find(&e.local, &e.remote);
        let n: usize = self.entries.len();
        if at < n {
            self.entries.set(at, e);
            return None;
        }
        let ghost before = self.entries@;
        if n >= cap && n > 0 {
            let mut best: usize = 0;
            let mut i: usize = 1;
            while i < n
                invariant
                    n == self.entries@.len(),
                    1 <= i <= n,
                    best < i,
                    best == idlest(self.entries@, i as int),
                decreases n - i,
            {
                if self.entries[i].last_activity < self.entries[best].last_activity {
                    best = i;
                }
                i = i + 1;
            }
            let gone = self.entries.remove(best);
            assert forall|k: int| 0 <= k < self.entries@.len() implies (#[trigger] self.entries@[k])
                == before[if k < best {
                k
            } else {
                k + 1
            }] by {}
            self.entries.push(e);
            Some(gone.socket)
        } else {
            self.entries.push(e);
            None
        }
    }

    /// Drops the flows that have been idle for too long; the numbers of their
    /// sockets are returned, which are to be closed.
    pub fn sweep(&mut self, now: u64) -> (closed: Vec<u64>)
        requires
            old(self).wf(),
        ensures
            final(self).wf(),
            final(self)@ == swept(old(self)@, now),
            closed@ == old(self)@.filter(|e: NatEntry| !in_use(e, now)).map_values(
                |e: NatEntry| e.socket,
            ),
    {
        let ghost all = self.entries@;
        let ghost stays = |e: NatEntry| in_use(e, now);
        let ghost goes = |e: NatEntry| !in_use(e, now);
        let ghost number = |e: NatEntry| e.socket;
        let mut kept: Vec<NatEntry> = Vec::new();
        let mut closed: Vec<u64> = Vec::new();
        let ghost mut from: Seq<int> = Seq::empty();
        let mut i: usize = 0;
        proof {
            assert(all.take(0).filter(stays) =~= kept@) by {
                reveal(Seq::filter);
            }
            assert(all.take(0).filter(goes).map_values(number) =~= closed@) by {
                reveal(Seq::filter);
            }
        }
        while i < self.entries.len()
            invariant
                i <= self.entries@.len(),
                all == self.entries@,
                stays == (|e: NatEntry| in_use(e, now)),
                goes == (|e: NatEntry| !in_use(e, now)),
                number == (|e: NatEntry| e.socket),
                kept@ == all.take(i as int).filter(stays),
                closed@ == all.take(i as int).filter(goes).map_values(number),
                from.len() == kept@.len(),
                forall|k: int|
                    #![trigger from[k]]
                    0 <= k < from.len() ==> 0 <= from[k] < i && kept@[k] == all[from[k]],
                forall|j: int, k: int| 0 <= j < k < from.len() ==> from[j] < from[k],
            decreases self.entries.len() - i,
        {
            let e = self.entries[i];
            assert(all.take(i + 1).drop_last() =~= all.take(i as int));
            proof {
                reveal(Seq::filter);
            }
            if e.last_activity >= now || now - e.last_activity <= UDP_NAT_TIMEOUT {
                kept.push(e);
                proof {
                    from = from.push(i as int);
                }
            } else {
                assert(all.take(i as int).filter(goes).push(e).map_values(number) =~= all.take(
                    i as int,
                ).filter(goes).map_values(number).push(e.socket));
                closed.push(e.socket);
            }
            i = i + 1;
        }
        assert(all.take(i as int) =~= all);
        assert(flows_differ(kept@)) by {
            assert forall|j: int, k: int| 0 <= j < k < kept@.len() implies (
            #[trigger] kept@[j]).local != (#[trigger] kept@[k]).local || kept@[j].remote
                != kept@[k].remote by {
                assert(from[j] < from[k]);
                assert(kept@[j] == all[from[j]] && kept@[k] == all[from[k]]);
            }
        }
        self.entries = kept;
        closed
    }
}

proof fn idlest_is_idlest(es: Seq<NatEntry>, n: int)
    requires
        0 < n <= es.len(),
    ensures
        0 <= idlest(es, n) < n,
        forall|i: int|
            0 <= i < n ==> es[idlest(es, n)].last_activity <= (#[trigger] es[i]).last_activity,
    decreases n,
{
    if n > 1 {
        idlest_is_idlest(es, n - 1);
    }
}

proof fn flow_place_is_first(es: Seq<NatEntry>, local: SocketAddr, remote: SocketAddr, from: int)
    requires
        0 <= from <= es.len(),
    ensures
        from <= flow_place(es, local, remote, from) <= es.len(),
    decreases es.len() - from,
{
    if from < es.len() {
        flow_place_is_first(es, local, remote, from + 1);
    }
}

/// The table keeps its bound, and holds the new flow.
pub proof fn nat_stays_bounded(es: Seq<NatEntry>, e: NatEntry, cap: nat)
    requires
        cap > 0,
        es.len() <= cap,
    ensures
        inserted(es, e, cap).0.len() <= cap,
        inserted(es, e, cap).0.contains(e),
{
    let at = flow_place(es, e.local, e.remote, 0);
    let after = inserted(es, e, cap).0;
    flow_place_is_first(es, e.local, e.remote, 0);
    if es.len() > 0 {
        idlest_is_idlest(es, es.len() as int);
    }
    if at < es.len() {
        assert(after[at] == e);
    } else {
        assert(after.last() == e);
    }
}

/// A flow that leaves the table for another has been idle at least as long as
/// every other, so a flow that is in use survives a flood of new ones as long
/// as an idler one is there.
pub proof fn live_flows_survive(es: Seq<NatEntry>, e: NatEntry, cap: nat, i: int, j: int)
    requires
        0 <= i < es.len(),
        0 <= j < es.len(),
        es[j].last_activity < es[i].last_activity,
        es[i].local != e.local || es[i].remote != e.remote,
    ensures
        inserted(es, e, cap).0.contains(es[i]),
{
    let at = flow_place(es, e.local, e.remote, 0);
    let after = inserted(es, e, cap).0;
    flow_place_is_first(es, e.local, e.remote, 0);
    idlest_is_idlest(es, es.len() as int);
    if at < es.len() {
        flow_place_finds(es, e.local, e.remote, 0);
        assert(after[i] == es[i]);
    } else if es.len() >= cap {
        let out = idlest(es, es.len() as int);
        assert(out != i);
        if i < out {
            assert(after[i] == es[i]);
        } else {
            assert(after[i - 1] == es[i]);
        }
    } else {
        assert(after[i] == es[i]);
    }
}

proof fn flow_place_finds(es: Seq<NatEntry>, local: SocketAddr, remote: SocketAddr, from: int)
    requires
        0 <= from <= es.len(),
    ensures
        ({
            let at = flow_place(es, local, remote, from);
            at < es.len() ==> es[at].local == local && es[at].remote == remote
        }),
    decreases es.len() - from,
{
    if from < es.len() {
        flow_place_finds(es, local, remote, from + 1);
    }
}

/// An IPv4 address as a number of 32 bits, its first octet on top.
pub open spec fn v4_number(o: Seq<u8>) -> u32 {
    (o[0] * 0x100_0000 + o[1] * 0x1_0000 + o[2] * 0x100 + o[3]) as u32
}

proof fn lemma_v4_blocks(n: u32, a: u32, b: u32, c: u32, d: u32)
    by (bit_vector)
    requires
        a < 256,
        b < 256,
        c < 256,
        d < 256,
        n == a * 0x100_0000 + b * 0x1_0000 + c * 0x100 + d,
    ensures
        n & 0xff00_0000 == 0x0000_0000 <==> a == 0,
        n & 0xff00_0000 == 0x0a00_0000 <==> a == 10,
        n & 0xffc0_0000 == 0x6440_0000 <==> a == 100 && 64 <= b && b <= 127,
        n & 0xff00_0000 == 0x7f00_0000 <==> a == 127,
        n & 0xffff_0000 == 0xa9fe_0000 <==> a == 169 && b == 254,
        n & 0xfff0_0000 == 0xac10_0000 <==> a == 172 && 16 <= b && b <= 31,
        n & 0xffff_0000 == 0xc0a8_0000 <==> a == 192 && b == 168,
        n & 0xe000_0000 == 0xe000_0000 <==> a >= 224,
{
}

/// An IPv4 address is kept from a tunnel exactly if it lies in `0.0.0.0/8`,
/// `10.0.0.0/8`, `100.64.0.0/10`, `127.0.0.0/8`, `169.254.0.0/16`,
/// `172.16.0.0/12`, `192.168.0.0/16` or `224.0.0.0/3`; every other one is
/// reached, on every port. Where local addresses are not blocked, every
/// address is reached.
pub proof fn v4_is_local_in_its_blocks(o: [u8; 4], port: u16)
    ensures
        ({
            let n = v4_number(o@);
            let block = {
                ||| n & 0xff00_0000 == 0x0000_0000
                ||| n & 0xff00_0000 == 0x0a00_0000
                ||| n & 0xffc0_0000 == 0x6440_0000
                ||| n & 0xff00_0000 == 0x7f00_0000
                ||| n & 0xffff_0000 == 0xa9fe_0000
                ||| n & 0xfff0_0000 == 0xac10_0000
                ||| n & 0xffff_0000 == 0xc0a8_0000
                ||| n & 0xe000_0000 == 0xe000_0000
            };
            let a = SocketAddr { ip: IpAddr::V4(o), port, scope: 0 };
            &&& local(IpAddr::V4(o)) <==> block
            &&& admitted(a, true) <==> !block
            &&& admitted(a, false)
        }),
        o@[0] == 192 && o@[1] != 168 ==> !local(IpAddr::V4(o)),
        o@[0] == 172 && !(16 <= o@[1] <= 31) ==> !local(IpAddr::V4(o)),
        o@[0] == 100 && !(64 <= o@[1] <= 127) ==> !local(IpAddr::V4(o)),
        o@[0] == 169 && o@[1] != 254 ==> !local(IpAddr::V4(o)),
{
    lemma_v4_blocks(
        v4_number(o@),
        o@[0] as u32,
        o@[1] as u32,
        o@[2] as u32,
        o@[3] as u32,
    );
}

proof fn lemma_v6_blocks(g: u16)
    by (bit_vector)
    ensures
        g & 0xfe00 == 0xfc00 <==> 0xfc00 <= g && g <= 0xfdff,
        g & 0xffc0 == 0xfe80 <==> 0xfe80 <= g && g <= 0xfebf,
{
}

/// An IPv6 address that maps no IPv4 address is kept from a tunnel exactly if
/// it is `::1` or lies in `fc00::/7` or `fe80::/10`; one that maps an IPv4
/// address, exactly if that address is.
pub proof fn v6_is_local_in_its_blocks(g: [u16; 8], o: [u8; 4], port: u16, scope: u32)
    ensures
        ({
            let a = SocketAddr { ip: IpAddr::V6(g), port, scope };
            let block = {
                ||| g@ == seq![0u16, 0u16, 0u16, 0u16, 0u16, 0u16, 0u16, 1u16]
                ||| g@[0] & 0xfe00 == 0xfc00
                ||| g@[0] & 0xffc0 == 0xfe80
            };
            &&& g@.take(6) != seq![0u16, 0u16, 0u16, 0u16, 0u16, 0xffffu16] ==> (local(
                IpAddr::V6(g),
            ) <==> block) && (admitted(a, true) <==> !block)
            &&& g@ == seq![
                0u16,
                0u16,
                0u16,
                0u16,
                0u16,
                0xffffu16,
                (o@[0] * 256 + o@[1]) as u16,
                (o@[2] * 256 + o@[3]) as u16,
            ] ==> (local(IpAddr::V6(g)) <==> local(IpAddr::V4(o)))
            &&& admitted(a, false)
        }),
{
    lemma_v6_blocks(g@[0]);
    let one = seq![0u16, 0u16, 0u16, 0u16, 0u16, 0u16, 0u16, 1u16];
    let prefix = seq![0u16, 0u16, 0u16, 0u16, 0u16, 0xffffu16];
    if loopback_v6(g@) {
        assert(g@ =~= one);
    }
    if g@ == one {
        assert(g@[7] == 1 && g@[0] == 0 && g@[1] == 0 && g@[2] == 0 && g@[3] == 0 && g@[4] == 0
            && g@[5] == 0 && g@[6] == 0);
        assert(loopback_v6(g@));
    }
    if addr::is_mapped(g@) {
        assert(g@.take(6) =~= prefix);
    }
    if g@.take(6) == prefix {
        assert forall|i: int| 0 <= i < 6 implies g@[i] == prefix[i] by {
            assert(g@.take(6)[i] == g@[i]);
        }
    }
}

proof fn lemma_flow_place_contains(es: Seq<NatEntry>, local: SocketAddr, remote: SocketAddr, from: int)
    requires
        0 <= from <= es.len(),
    ensures
        flow_place(es, local, remote, from) < es.len() <==> exists|i: int|
            from <= i < es.len() && (#[trigger] es[i]).local == local && es[i].remote == remote,
    decreases es.len() - from,
{
    if from < es.len() {
        lemma_flow_place_contains(es, local, remote, from + 1);
        if es[from].local == local && es[from].remote == remote {
        } else if flow_place(es, local, remote, from + 1) < es.len() {
            let i = choose|i: int|
                from + 1 <= i < es.len() && (#[trigger] es[i]).local == local && es[i].remote
                    == remote;
            assert(from <= i < es.len() && es[i].local == local && es[i].remote == remote);
        }
    }
}

/// A flow is found by its two addresses alone: one that is in the table is
/// found, at its own place, and where none of the table is between the two
/// addresses none is found.
pub proof fn flows_are_found_by_their_addresses(
    es: Seq<NatEntry>,
    local: SocketAddr,
    remote: SocketAddr,
)
    requires
        flows_differ(es),
    ensures
        flow_place(es, local, remote, 0) < es.len() <==> exists|i: int|
            0 <= i < es.len() && (#[trigger] es[i]).local == local && es[i].remote == remote,
        forall|i: int|
            0 <= i < es.len() && (#[trigger] es[i]).local == local && es[i].remote == remote
                ==> flow_place(es, local, remote, 0) == i,
{
    lemma_flow_place_contains(es, local, remote, 0);
    flow_place_finds(es, local, remote, 0);
    flow_place_is_first(es, local, remote, 0);
    let at = flow_place(es, local, remote, 0);
    assert forall|i: int|
        0 <= i < es.len() && (#[trigger] es[i]).local == local && es[i].remote == remote implies at
        == i by {
        assert(at < es.len());
        assert(es[at].local == local && es[at].remote == remote);
        if at < i {
            assert(es[at].local != es[i].local || es[at].remote != es[i].remote);
        } else if i < at {
            assert(es[i].local != es[at].local || es[i].remote != es[at].remote);
        }
    }
}

/// A flow that is added takes the place of the one between the same addresses;
/// without one, it is one more where there is room, and otherwise exactly one
/// flow leaves, one that has been idle for as long as any. The flow is then
/// found with its own socket, and all other flows stay as they are.
pub proof fn added_flow_is_found(es: Seq<NatEntry>, e: NatEntry, cap: nat)
    requires
        flows_differ(es),
    ensures
        ({
            let (after, gone) = inserted(es, e, cap);
            let at = flow_place(after, e.local, e.remote, 0);
            let known = exists|i: int|
                0 <= i < es.len() && (#[trigger] es[i]).local == e.local && es[i].remote
                    == e.remote;
            &&& flows_differ(after)
            &&& 0 <= at < after.len() && after[at] == e
            &&& gone is Some <==> !known && es.len() >= cap && es.len() > 0
            &&& gone matches Some(out) ==> 0 <= out < es.len() && after.len() == es.len() && forall|
                i: int,
            |
                0 <= i < es.len() ==> es[out].last_activity <= (#[trigger] es[i]).last_activity
            &&& known ==> after.len() == es.len()
            &&& !known && gone is None ==> after.len() == es.len() + 1
            &&& forall|i: int|
                0 <= i < es.len() && gone != Some(i) && ((#[trigger] es[i]).local != e.local
                    || es[i].remote != e.remote) ==> after.contains(es[i])
        }),
{
    let (after, gone) = inserted(es, e, cap);
    let place = flow_place(es, e.local, e.remote, 0);
    flows_are_found_by_their_addresses(es, e.local, e.remote);
    flow_place_is_first(es, e.local, e.remote, 0);
    flow_place_finds(es, e.local, e.remote, 0);
    if es.len() > 0 {
        idlest_is_idlest(es, es.len() as int);
    }
    let out = idlest(es, es.len() as int);
    let last = after.len() - 1;
    if place < es.len() {
        assert(after[place] == e);
        assert(flows_differ(after));
        flows_are_found_by_their_addresses(after, e.local, e.remote);
    } else {
        assert(after[last] == e);
        assert(forall|i: int|
            0 <= i < es.len() ==> (#[trigger] es[i]).local != e.local || es[i].remote != e.remote);
        assert forall|k: int| 0 <= k < last implies (#[trigger] after[k]) == es[if gone is Some && k
            >= out {
            k + 1
        } else {
            k
        }] by {}
        assert(flows_differ(after));
        flows_are_found_by_their_addresses(after, e.local, e.remote);
    }
    assert forall|i: int|
        0 <= i < es.len() && gone != Some(i) && ((#[trigger] es[i]).local != e.local || es[i].remote
            != e.remote) implies after.contains(es[i]) by {
        if gone is Some && i > out {
            assert(after[i - 1] == es[i]);
        } else {
            assert(after[i] == es[i]);
        }
    }
}

/// A sweep drops a flow exactly if it has been idle for more than thirty
/// seconds; it adds none and changes none.
pub proof fn sweep_drops_idle_flows(es: Seq<NatEntry>, now: u64, e: NatEntry)
    ensures
        swept(es, now).contains(e) <==> es.contains(e) && now <= e.last_activity + 30_000,
        swept(es, now).len() <= es.len(),
{
    let stays = |e: NatEntry| in_use(e, now);
    es.lemma_filter_len(stays);
    if swept(es, now).contains(e) {
        es.lemma_filter_contains_rev(stays, e);
        let k = choose|k: int| 0 <= k < swept(es, now).len() && swept(es, now)[k] == e;
        es.lemma_filter_pred(stays, k);
    }
    if es.contains(e) && in_use(e, now) {
        let i = choose|i: int| 0 <= i < es.len() && es[i] == e;
        es.lemma_filter_contains(stays, i);
    }
}

/// The reading side of a tunnel: counts the packets that came and puts the
/// fragments among them together.
pub struct Ingress {
    pub count: u64,
    pub reassembler: IpReassembler,
}

impl Ingress {
    /// A reading side that has seen nothing.
    pub fn new() -> (i: Ingress)
        ensures
            i.count == 0,
            i.reassembler.wf(),
            i.reassembler@ == Seq::<reassembly::Group>::empty(),
    {
        Ingress { count: 0, reassembler: IpReassembler::new() }
    }

    /// What to hand to the stack for a packet that came.
    pub fn on_packet(&mut self, pkt: Vec<u8>, now: u64) -> (out: Vec<Vec<u8>>)
        requires
            old(self).reassembler.wf(),
            now + reassembly::REASSEMBLY_TIMEOUT <= u64::MAX,
        ensures
            final(self).reassembler.wf(),
            final(self).count == after_one(old(self).count),
            (final(self).reassembler@, reassembly::packets(out@)) == reassembly::processed(
                old(self).reassembler@,
                pkt@,
                now as nat,
            ),
    {
        self.count = one_more(self.count);
        self.reassembler.process(pkt, now)
    }
}

/// A counter after one more; it starts again after its largest value.
pub open spec fn after_one(n: u64) -> u64 {
    if n == u64::MAX {
        0
    } else {
        (n + 1) as u64
    }
}

fn one_more(n: u64) -> (m: u64)
    ensures
        m == after_one(n),
{
    if n == u64::MAX {
        0
    } else {
        n + 1
    }
}

/// What the driver has counted.
#[derive(Debug, Clone, Copy, PartialEq, Eq)]
pub struct DriverStats {
    /// Packets that were given to the stack.
    pub ingress_delivered: u64,
    /// How often the stack had not taken the last packet yet.
    pub flush_pending: u64,
    /// How often the stack had no room.
    pub ready_pending: u64,
    /// Packets that the stack gave.
    pub egress_produced: u64,
    /// Packets of the stack that were dropped.
    pub egress_dropped: u64,
}

/// What the driver is to do next.
#[derive(Debug, PartialEq, Eq)]
pub enum DriverAsk {
    /// Poll the stack for a packet, and offer it to the transport.
    PollNext,
    /// Poll whether the stack has taken the last packet.
    PollFlush,
    /// Take a packet that has come, if there is one.
    Take,
    /// Poll whether the stack has room.
    PollReady,
    /// Give the stack a packet, then poll whether it has taken it.
    Send(Vec<u8>),
    /// Poll for a packet to come.
    PollRecv,
    /// Wait until woken; at once if `wake` says so.
    Park { wake: bool },
    /// The tunnel has ended.
    Stop,
}

/// What came of polling the stack for a packet.
#[derive(Debug, Clone, Copy, PartialEq, Eq)]
pub enum OutPoll {
    /// A packet, and whether the transport's queue had room for it.
    Packet { queued: bool },
    Failed,
    Ended,
    Pending,
}

/// What came of polling the stack's input.
#[derive(Debug, Clone, Copy, PartialEq, Eq)]
pub enum SinkPoll {
    Done,
    Failed,
    Pending,
}

/// What came of polling for a packet.
#[derive(Debug, PartialEq, Eq)]
pub enum RecvPoll {
    Arrived(Vec<u8>),
    Ended,
    Pending,
}

/// The state of a driver: the packet that the stack had no room for, and what
/// was counted.
pub struct DriverState {
    pub held: Option<Vec<u8>>,
    pub stats: DriverStats,
}

/// What happens to a driver.
pub enum DriverEvent {
    Drained(OutPoll),
    Flushed(SinkPoll),
    Taken(Option<Vec<u8>>),
    Ready(SinkPoll),
    Received(RecvPoll),
}

/// What the driver does when nothing can be given to the stack: it waits for a
/// packet unless it holds one.
pub open spec fn waiting(s: DriverState) -> DriverAsk {
    if s.held is None {
        DriverAsk::PollRecv
    } else {
        DriverAsk::Park { wake: false }
    }
}

/// The next state of a driver, and what it is to do.
pub open spec fn driven(s: DriverState, e: DriverEvent) -> (DriverState, DriverAsk) {
    match e {
        DriverEvent::Drained(p) => match p {
            OutPoll::Packet { queued } => (
                DriverState {
                    stats: DriverStats {
                        egress_produced: after_one(s.stats.egress_produced),
                        egress_dropped: if queued {
                            s.stats.egress_dropped
                        } else {
                            after_one(s.stats.egress_dropped)
                        },
                        ..s.stats
                    },
                    ..s
                },
                DriverAsk::PollNext,
            ),
            OutPoll::Failed => (s, DriverAsk::PollNext),
            OutPoll::Ended => (s, DriverAsk::Stop),
            OutPoll::Pending => (s, DriverAsk::PollFlush),
        },
        DriverEvent::Flushed(p) => match p {
            SinkPoll::Done => (
                s,
                if s.held is Some {
                    DriverAsk::PollReady
                } else {
                    DriverAsk::Take
                },
            ),
            SinkPoll::Failed => (s, DriverAsk::Stop),
            SinkPoll::Pending => (
                DriverState {
                    stats: DriverStats {
                        flush_pending: after_one(s.stats.flush_pending),
                        ..s.stats
                    },
                    ..s
                },
                waiting(s),
            ),
        },
        DriverEvent::Taken(p) => match p {
            Some(pkt) => (DriverState { held: Some(pkt), ..s }, DriverAsk::PollReady),
            None => (s, waiting(s)),
        },
        DriverEvent::Ready(p) => match (p, s.held) {
            (SinkPoll::Done, Some(pkt)) => (
                DriverState {
                    held: None,
                    stats: DriverStats {
                        ingress_delivered: after_one(s.stats.ingress_delivered),
                        ..s.stats
                    },
                },
                DriverAsk::Send(pkt),
            ),
            (SinkPoll::Done, None) => (s, DriverAsk::Take),
            (SinkPoll::Failed, _) => (s, DriverAsk::Stop),
            (SinkPoll::Pending, _) => (
                DriverState {
                    stats: DriverStats {
                        ready_pending: after_one(s.stats.ready_pending),
                        ..s.stats
                    },
                    ..s
                },
                waiting(s),
            ),
        },
        DriverEvent::Received(p) => match p {
            RecvPoll::Arrived(pkt) => (
                DriverState { held: Some(pkt), ..s },
                DriverAsk::Park { wake: true },
            ),
            RecvPoll::Ended => (s, DriverAsk::Stop),
            RecvPoll::Pending => (s, DriverAsk::Park { wake: false }),
        },
    }
}

/// Drives the virtual IP stack of a tunnel.
pub struct StackDriver {
    held: Option<Vec<u8>>,
    stats: DriverStats,
}

impl StackDriver {
    /// The driver's state.
    pub closed spec fn view(&self) -> DriverState {
        DriverState { held: self.held, stats: self.stats }
    }

    /// A driver that holds and has counted nothing.
    pub fn new() -> (d: StackDriver)
        ensures
            d@.held is None,
            d@.stats == (DriverStats {
                ingress_delivered: 0,
                flush_pending: 0,
                ready_pending: 0,
                egress_produced: 0,
                egress_dropped: 0,
            }),
    {
        StackDriver {
            held: None,
            stats: DriverStats {
                ingress_delivered: 0,
                flush_pending: 0,
                ready_pending: 0,
                egress_produced: 0,
                egress_dropped: 0,
            },
        }
    }

    /// What was counted.
    pub fn stats(&self) -> (s: DriverStats)
        ensures
            s == self@.stats,
    {
        self.stats
    }

    /// Whether a packet waits for room in the stack.
    pub fn holds_packet(&self) -> (r: bool)
        ensures
            r == (self@.held is Some),
    {
        self.held.is_some()
    }

    fn wait(&self) -> (a: DriverAsk)
        ensures
            a == waiting(self@),
    {
        if self.held.is_some() {
            DriverAsk::Park { wake: false }
        } else {
            DriverAsk::PollRecv
        }
    }

    /// What follows on polling the stack for a packet.
    pub fn drained(&mut self, p: OutPoll) -> (a: DriverAsk)
        ensures
            (final(self)@, a) == driven(old(self)@, DriverEvent::Drained(p)),
    {
        match p {
            OutPoll::Packet { queued } => {
                self.stats.egress_produced = one_more(self.stats.egress_produced);
                if !queued {
                    self.stats.egress_dropped = one_more(self.stats.egress_dropped);
                }
                DriverAsk::PollNext
            },
            OutPoll::Failed => DriverAsk::PollNext,
            OutPoll::Ended => DriverAsk::Stop,
            OutPoll::Pending => DriverAsk::PollFlush,
        }
    }

    /// What follows on polling whether the stack has taken the last packet.
    pub fn flushed(&mut self, p: SinkPoll) -> (a: DriverAsk)
        ensures
            (final(self)@, a) == driven(old(self)@, DriverEvent::Flushed(p)),
    {
        match p {
            SinkPoll::Done => if self.held.is_some() {
                DriverAsk::PollReady
            } else {
                DriverAsk::Take
            },
            SinkPoll::Failed => DriverAsk::Stop,
            SinkPoll::Pending => {
                self.stats.flush_pending = one_more(self.stats.flush_pending);
                self.wait()
            },
        }
    }

    /// What follows on taking a packet that has come.
    pub fn taken(&mut self, p: Option<Vec<u8>>) -> (a: DriverAsk)
        requires
            old(self)@.held is None,
        ensures
            (final(self)@, a) == driven(old(self)@, DriverEvent::Taken(p)),
    {
        match p {
            Some(pkt) => {
                self.held = Some(pkt);
                DriverAsk::PollReady
            },
            None => self.wait(),
        }
    }

    /// What follows on polling whether the stack has room.
    pub fn ready(&mut self, p: SinkPoll) -> (a: DriverAsk)
        ensures
            (final(self)@, a) == driven(old(self)@, DriverEvent::Ready(p)),
    {
        match p {
            SinkPoll::Done => match self.held.take() {
                Some(pkt) => {
                    self.stats.ingress_delivered = one_more(self.stats.ingress_delivered);
                    DriverAsk::Send(pkt)
                },
                None => DriverAsk::Take,
            },
            SinkPoll::Failed => DriverAsk::Stop,
            SinkPoll::Pending => {
                self.stats.ready_pending = one_more(self.stats.ready_pending);
                self.wait()
            },
        }
    }

    /// What follows on polling for a packet.
    pub fn received(&mut self, p: RecvPoll) -> (a: DriverAsk)
        requires
            old(self)@.held is None,
        ensures
            (final(self)@, a) == driven(old(self)@, DriverEvent::Received(p)),
    {
        match p {
            RecvPoll::Arrived(pkt) => {
                self.held = Some(pkt);
                DriverAsk::Park { wake: true }
            },
            RecvPoll::Ended => DriverAsk::Stop,
            RecvPoll::Pending => DriverAsk::Park { wake: false },
        }
    }
}

/// The packet that an event brings, as a sequence of at most one.
pub open spec fn brought(e: DriverEvent) -> Seq<Vec<u8>> {
    match e {
        DriverEvent::Taken(Some(pkt)) => seq![pkt],
        DriverEvent::Received(RecvPoll::Arrived(pkt)) => seq![pkt],
        _ => Seq::empty(),
    }
}

/// The packet that is given to the stack, as a sequence of at most one.
pub open spec fn given(a: DriverAsk) -> Seq<Vec<u8>> {
    match a {
        DriverAsk::Send(pkt) => seq![pkt],
        _ => Seq::empty(),
    }
}

/// The packet that is held, as a sequence of at most one.
pub open spec fn held(s: DriverState) -> Seq<Vec<u8>> {
    match s.held {
        Some(pkt) => seq![pkt],
        None => Seq::empty(),
    }
}

/// Whether a driver that follows what it is told to do can meet with an event:
/// a packet is only taken, or waited for, while none is held.
pub open spec fn can_happen(s: DriverState, e: DriverEvent) -> bool {
    e is Taken || e is Received ==> s.held is None
}

/// Whether a driver can meet with events in order.
pub open spec fn can_all_happen(s: DriverState, es: Seq<DriverEvent>) -> bool
    decreases es.len(),
{
    es.len() > 0 ==> can_happen(s, es[0]) && can_all_happen(driven(s, es[0]).0, es.skip(1))
}

/// The packets that events bring.
pub open spec fn all_brought(es: Seq<DriverEvent>) -> Seq<Vec<u8>>
    decreases es.len(),
{
    if es.len() == 0 {
        Seq::empty()
    } else {
        brought(es[0]) + all_brought(es.skip(1))
    }
}

/// The packets that a driver gives to the stack as it meets with events, and
/// its state after them.
pub open spec fn driven_through(s: DriverState, es: Seq<DriverEvent>) -> (Seq<Vec<u8>>, DriverState)
    decreases es.len(),
{
    if es.len() == 0 {
        (Seq::empty(), s)
    } else {
        let (next, ask) = driven(s, es[0]);
        let rest = driven_through(next, es.skip(1));
        (given(ask) + rest.0, rest.1)
    }
}

/// No packet that came is lost, doubled or overtaken on its way to the stack:
/// what was given to it, and then what is still held, is what was held at
/// first and then what came.
pub proof fn ingress_keeps_order(s: DriverState, es: Seq<DriverEvent>)
    requires
        can_all_happen(s, es),
    ensures
        driven_through(s, es).0 + held(driven_through(s, es).1) == held(s) + all_brought(es),
    decreases es.len(),
{
    if es.len() == 0 {
        assert(driven_through(s, es).0 + held(s) =~= held(s) + all_brought(es));
    } else {
        let (next, ask) = driven(s, es[0]);
        ingress_keeps_order(next, es.skip(1));
        let rest = driven_through(next, es.skip(1));
        assert(held(s) + brought(es[0]) =~= given(ask) + held(next));
        assert(given(ask) + (rest.0 + held(rest.1)) =~= (given(ask) + rest.0) + held(rest.1));
        assert(given(ask) + (held(next) + all_brought(es.skip(1))) =~= (given(ask) + held(next))
            + all_brought(es.skip(1)));
        assert((held(s) + brought(es[0])) + all_brought(es.skip(1)) =~= held(s) + (brought(es[0])
            + all_brought(es.skip(1))));
    }
}

/// A packet is only asked for while none is held, so a driver that does what
/// it is told never loses one.
pub proof fn asks_only_when_empty(s: DriverState, e: DriverEvent)
    requires
        can_happen(s, e),
    ensures
        ({
            let (next, ask) = driven(s, e);
            ask is Take || ask is PollRecv ==> next.held is None
        }),
{
}

/// A part of a running tunnel.
#[derive(Debug, Clone, Copy, PartialEq, Eq)]
pub enum TunnelTask {
    /// The driver between the transport and the stack.
    Driver,
    /// Every connection and datagram flow.
    Flows,
    /// The task that takes TCP connections.
    Tcp,
    /// The task that takes datagrams.
    Udp,
    /// The task that runs the stack.
    Runner,
}

/// The tasks to stop when a tunnel ends, in order: the driver where the end was
/// asked for, and then all that is subordinate to it.
pub open spec fn stopped(cancelled: bool, has_runner: bool) -> Seq<TunnelTask> {
    (if cancelled {
        seq![TunnelTask::Driver]
    } else {
        seq![]
    }) + seq![TunnelTask::Flows, TunnelTask::Tcp, TunnelTask::Udp] + (if has_runner {
        seq![TunnelTask::Runner]
    } else {
        seq![]
    })
}

/// The tasks to stop when a tunnel ends: `cancelled` says whether the end was
/// asked for, and `has_runner` whether the stack has a task of its own.
pub fn teardown(cancelled: bool, has_runner: bool) -> (v: Vec<TunnelTask>)
    ensures
        v@ == stopped(cancelled, has_runner),
{
    let mut v: Vec<TunnelTask> = Vec::new();
    if cancelled {
        v.push(TunnelTask::Driver);
    }
    v.push(TunnelTask::Flows);
    v.push(TunnelTask::Tcp);
    v.push(TunnelTask::Udp);
    if has_runner {
        v.push(TunnelTask::Runner);
    }
    assert(v@ =~= stopped(cancelled, has_runner));
    v
}

/// The driver stops exactly where the stack or the tunnel has ended or the
/// stack has failed to take a packet; it drains the stack until that has
/// nothing more, and then sees to the packets for the stack.
pub proof fn driver_runs_until_an_end(s: DriverState, e: DriverEvent)
    requires
        can_happen(s, e),
    ensures
        ({
            let (next, ask) = driven(s, e);
            &&& ask is Stop <==> {
                ||| e == DriverEvent::Drained(OutPoll::Ended)
                ||| e == DriverEvent::Flushed(SinkPoll::Failed)
                ||| e == DriverEvent::Ready(SinkPoll::Failed)
                ||| e == DriverEvent::Received(RecvPoll::Ended)
            }
            &&& ask is PollNext <==> (e matches DriverEvent::Drained(p) && (p is Packet || p
                is Failed))
            &&& ask is PollFlush <==> e == DriverEvent::Drained(OutPoll::Pending)
            &&& ask is PollReady <==> next.held is Some && (e is Taken || e == DriverEvent::Flushed(
                SinkPoll::Done,
            ))
            &&& ask is Take <==> s.held is None && (e == DriverEvent::Flushed(SinkPoll::Done) || e
                == DriverEvent::Ready(SinkPoll::Done))
            &&& ask is Send <==> s.held is Some && e == DriverEvent::Ready(SinkPoll::Done)
        }),
{
}

/// The driver wakes itself exactly where a packet has just come for the stack.
/// It sleeps otherwise only where what it waits for will wake it: the tunnel
/// while it holds no packet, or the stack while it holds one.
pub proof fn driver_is_woken_again(s: DriverState, e: DriverEvent)
    requires
        can_happen(s, e),
    ensures
        ({
            let (next, ask) = driven(s, e);
            &&& ask == (DriverAsk::Park { wake: true }) <==> (e matches DriverEvent::Received(p)
                && p is Arrived)
            &&& ask == (DriverAsk::Park { wake: false }) <==> {
                ||| e == DriverEvent::Received(RecvPoll::Pending)
                ||| s.held is Some && (e == DriverEvent::Flushed(SinkPoll::Pending) || e
                    == DriverEvent::Ready(SinkPoll::Pending))
            }
            &&& ask is PollRecv <==> s.held is None && (e == DriverEvent::Taken(None) || e
                == DriverEvent::Flushed(SinkPoll::Pending) || e == DriverEvent::Ready(
                SinkPoll::Pending,
            ))
        }),
{
}

/// How many of the events are a packet from the stack; with `lost`, one for
/// which the queue to the tunnel had no room.
pub open spec fn packets_out(es: Seq<DriverEvent>, lost: bool) -> nat
    decreases es.len(),
{
    if es.len() == 0 {
        0
    } else {
        packets_out(es.skip(1), lost) + match es[0] {
            DriverEvent::Drained(OutPoll::Packet { queued }) => if lost && queued {
                0nat
            } else {
                1
            },
            _ => 0,
        }
    }
}

/// The counters tell what happened: every packet that came from the stack,
/// every one of them that was dropped, and every packet that the stack was
/// given. They start again at zero after 2^64 - 1.
pub proof fn driver_counts_packets(s: DriverState, es: Seq<DriverEvent>)
    ensures
        ({
            let (sent, end) = driven_through(s, es);
            let size: int = 0x1_0000_0000_0000_0000;
            &&& end.stats.egress_produced == (s.stats.egress_produced + packets_out(es, false)) % size
            &&& end.stats.egress_dropped == (s.stats.egress_dropped + packets_out(es, true)) % size
            &&& end.stats.ingress_delivered == (s.stats.ingress_delivered + sent.len()) % size
        }),
    decreases es.len(),
{
    if es.len() > 0 {
        driver_counts_packets(driven(s, es[0]).0, es.skip(1));
    }
}

/// When a tunnel ends every task is stopped once: its flows before what takes
/// new ones, the driver before all and only where the end was asked for, for it
/// has stopped by itself otherwise, and the stack last where it has a task.
pub proof fn every_task_is_stopped_once(cancelled: bool, has_runner: bool, task: TunnelTask)
    ensures
        stopped(cancelled, has_runner).no_duplicates(),
        stopped(cancelled, has_runner).contains(task) <==> {
            &&& task == TunnelTask::Driver ==> cancelled
            &&& task == TunnelTask::Runner ==> has_runner
        },
        cancelled ==> stopped(cancelled, has_runner)[0] == TunnelTask::Driver,
        has_runner ==> stopped(cancelled, has_runner).last() == TunnelTask::Runner,
        forall|i: int, j: int|
            0 <= i < stopped(cancelled, has_runner).len() && 0 <= j < stopped(
                cancelled,
                has_runner,
            ).len() && (#[trigger] stopped(cancelled, has_runner)[i]) == TunnelTask::Flows && ((
            #[trigger] stopped(cancelled, has_runner)[j]) == TunnelTask::Tcp || stopped(
                cancelled,
                has_runner,
            )[j] == TunnelTask::Udp) ==> i < j,
{
    let s = stopped(cancelled, has_runner);
    let at = if cancelled {
        1int
    } else {
        0int
    };
    assert(s[at] == TunnelTask::Flows && s[at + 1] == TunnelTask::Tcp && s[at + 2]
        == TunnelTask::Udp);
    if cancelled {
        assert(s[0] == TunnelTask::Driver);
    }
    if has_runner {
        assert(s[at + 3] == TunnelTask::Runner);
    }
    assert(s.len() == at + 3 + if has_runner {
        1int
    } else {
        0int
    });
}

} // verus!
