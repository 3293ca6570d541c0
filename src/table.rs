//! The table of live peer connections, keyed by host. Each connection gets
//! an id when it is attached; the socket halves themselves stay with the caller,
//! who follows what the table decides.
use vstd::prelude::*;
use vstd::set_lib::{lemma_len_subset, lemma_set_disjoint_lens};

verus! {

/// The port every sibling listens on for gossip, whatever its service port.
pub const SIBLING_PORT: u16 = 22114;

/// A peer as listed in the address registry: the address text it registered
/// and its host, an IP address in its 128-bit IPv6 form.
pub struct PeerAddress {
    pub address: String,
    pub host: u128,
}

/// One live table entry: the connection that currently speaks for a host.
#[derive(Clone, Copy, Debug, PartialEq, Eq, Structural)]
pub struct Link {
    pub host: u128,
    pub conn: u64,
}

/// The outcome of attaching a connection: its new id, and the connection it
/// superseded for the same host, whose writer the caller drops.
#[derive(Clone, Copy, Debug, PartialEq, Eq, Structural)]
pub struct Attached {
    pub conn: u64,
    pub displaced: Option<u64>,
}

/// The table after a connection with id `conn` is attached for `host`.
pub open spec fn attached(m: Map<u128, u64>, host: u128, conn: u64) -> Map<u128, u64> {
    m.insert(host, conn)
}

/// The connection the table holds for `host`, if any.
pub open spec fn held(m: Map<u128, u64>, host: u128) -> Option<u64> {
    if m.contains_key(host) {
        Some(m[host])
    } else {
        None
    }
}

/// Whether `conn` is the connection that the table holds for `host`.
pub open spec fn holds(m: Map<u128, u64>, host: u128, conn: u64) -> bool {
    m.contains_key(host) && m[host] == conn
}

/// The table after connection `conn` of `host` is released: its entry goes
/// only if it still holds that connection.
pub open spec fn released(m: Map<u128, u64>, host: u128, conn: u64) -> Map<u128, u64> {
    if holds(m, host, conn) {
        m.remove(host)
    } else {
        m
    }
}

/// `s` lists the entries of `m`, each once.
pub open spec fn lists_exactly(s: Seq<Link>, m: Map<u128, u64>) -> bool {
    &&& forall|i: int, j: int| 0 <= i < j < s.len() ==> s[i].host != s[j].host
    &&& forall|i: int| 0 <= i < s.len() ==> holds(m, #[trigger] s[i].host, s[i].conn)
    &&& forall|h: u128| #[trigger] m.contains_key(h) ==> exists|i: int| 0 <= i < s.len() && s[i].host == h
}

/// Whether this instance should dial listed peer `p` when the table is `m`:
/// it is not this instance, whose address is `own`, and its host has no
/// connection yet.
pub open spec fn wants_dial(m: Map<u128, u64>, own: Seq<char>, p: PeerAddress) -> bool {
    p.address@ != own && !m.contains_key(p.host)
}

/// Whether a peer at one of the positions `plan` of `listed` has host `h`.
pub open spec fn plans_host(listed: Seq<PeerAddress>, plan: Seq<usize>, h: u128) -> bool {
    exists|j: int| 0 <= j < plan.len() && listed[plan[j] as int].host == h
}

/// The positions, among the first `n` of `listed`, of the peers to dial, in
/// list order: each one this instance should dial, but for a host already planned.
pub open spec fn dial_plan_of(m: Map<u128, u64>, own: Seq<char>, listed: Seq<PeerAddress>, n: int) -> Seq<usize>
    decreases n,
{
    if n <= 0 {
        seq![]
    } else {
        let prev = dial_plan_of(m, own, listed, n - 1);
        let p = listed[n - 1];
        if wants_dial(m, own, p) && !plans_host(listed, prev, p.host) {
            prev.push((n - 1) as usize)
        } else {
            prev
        }
    }
}

/// The live connection of each peer host: at most one per host, the newest
/// one attached.
pub struct ConnectionTable {
    links: Vec<Link>,
    next_conn: u64,
}

impl View for ConnectionTable {
    type V = Map<u128, u64>;

    /// The connection id held for each host.
    closed spec fn view(&self) -> Map<u128, u64> {
        Map::new(
            |h: u128| exists|i: int| 0 <= i < self.links@.len() && self.links@[i].host == h,
            |h: u128|
                self.links@[choose|i: int| 0 <= i < self.links@.len() && self.links@[i].host == h].conn,
        )
    }
}

impl ConnectionTable {
    /// The id the next attached connection gets.
    pub closed spec fn next_id(&self) -> u64 {
        self.next_conn
    }

    /// One entry per host, and every id held was issued before.
    pub closed spec fn wf(&self) -> bool {
        &&& forall|i: int, j: int|
            0 <= i < j < self.links@.len() ==> self.links@[i].host != self.links@[j].host
        &&& forall|i: int| 0 <= i < self.links@.len() ==> self.links@[i].conn < self.next_conn
    }

    proof fn lemma_entry(&self, i: int)
        requires
            self.wf(),
            0 <= i < self.links@.len(),
        ensures
            holds(self@, self.links@[i].host, self.links@[i].conn),
    {
        let h = self.links@[i].host;
        assert(self@.contains_key(h));
        let k = choose|k: int| 0 <= k < self.links@.len() && self.links@[k].host == h;
        assert(k == i);
    }

    pub fn new() -> (r: ConnectionTable)
        ensures
            r.wf(),
            r@ == Map::<u128, u64>::empty(),
            r.next_id() == 0,
    {
        let r = ConnectionTable { links: Vec::new(), next_conn: 0 };
        assert(r@ =~= Map::<u128, u64>::empty());
        r
    }

    fn find(&self, host: u128) -> (r: Option<usize>)
        requires
            self.wf(),
        ensures
            r matches Some(i) ==> i < self.links@.len() && self.links@[i as int].host == host,
            r is None ==> !self@.contains_key(host),
    {
        let mut i: usize = 0;
        while i < self.links.len()
            invariant
                i <= self.links@.len(),
                forall|k: int| 0 <= k < i ==> self.links@[k].host != host,
            decreases self.links@.len() - i,
        {
            if self.links[i].host == host {
                return Some(i);
            }
            i += 1;
        }
        None
    }

    /// The connection id held for `host`, if any.
    pub fn conn_of(&self, host: u128) -> (r: Option<u64>)
        requires
            self.wf(),
        ensures
            r matches Some(c) ==> holds(self@, host, c),
            r is None ==> !self@.contains_key(host),
    {
        match self.find(host) {
            Some(i) => {
                proof {
                    self.lemma_entry(i as int);
                }
                Some(self.links[i].conn)
            },
            None => None,
        }
    }

    /// Every id the table holds was issued before the next one.
    pub proof fn lemma_ids_below_next(&self)
        requires
            self.wf(),
        ensures
            forall|h: u128| #[trigger] self@.contains_key(h) ==> self@[h] < self.next_id(),
    {
        assert forall|h: u128| #[trigger] self@.contains_key(h) implies self@[h] < self.next_id() by {
            let i = choose|i: int| 0 <= i < self.links@.len() && self.links@[i].host == h;
            self.lemma_entry(i);
        }
    }

    proof fn lemma_lists_view(&self)
        requires
            self.wf(),
        ensures
            lists_exactly(self.links@, self@),
    {
        assert forall|i: int| 0 <= i < self.links@.len() implies holds(
            self@,
            #[trigger] self.links@[i].host,
            self.links@[i].conn,
        ) by {
            self.lemma_entry(i);
        }
    }

    proof fn lemma_view_is(&self, m: Map<u128, u64>)
        requires
            self.wf(),
            lists_exactly(self.links@, m),
        ensures
            self@ == m,
    {
        self.lemma_lists_view();
        assert forall|h: u128| #[trigger] self@.contains_key(h) implies m.contains_key(h) && m[h]
            == self@[h] by {
            let i = choose|i: int| 0 <= i < self.links@.len() && self.links@[i].host == h;
            self.lemma_entry(i);
        }
        assert(self@ =~= m);
    }

    /// Attaches a new connection for `host`, dialed or accepted; it supersedes
    /// any connection held for that host. `None` once every id has been issued.
    pub fn attach(&mut self, host: u128) -> (r: Option<Attached>)
        requires
            old(self).wf(),
        ensures
            final(self).wf(),
            old(self).next_id() == u64::MAX ==> r is None && final(self)@ == old(self)@
                && final(self).next_id() == old(self).next_id(),
            old(self).next_id() < u64::MAX ==> (r matches Some(a) && a.conn == old(self).next_id()
                && a.displaced == held(old(self)@, host) && (a.displaced matches Some(c) ==> c
                < a.conn) && final(self)@ == attached(
                old(self)@,
                host,
                a.conn,
            ) && final(self).next_id() == old(self).next_id() + 1),
    {
        if self.next_conn == u64::MAX {
            return None;
        }
        proof {
            self.lemma_lists_view();
        }
        let ghost m = self@;
        let conn = self.next_conn;
        let link = Link { host, conn };
        let ghost mut slot: int = self.links@.len() as int;
        let displaced = match self.find(host) {
            Some(i) => {
                proof {
                    slot = i as int;
                }
                proof {
                    self.lemma_entry(i as int);
                }
                let previous = self.links[i].conn;
                self.links.set(i, link);
                Some(previous)
            },
            None => {
                self.links.push(link);
                None
            },
        };
        self.next_conn = conn + 1;
        proof {
            let n = m.insert(host, conn);
            assert forall|h: u128| #[trigger] n.contains_key(h) implies exists|i: int|
                0 <= i < self.links@.len() && self.links@[i].host == h by {
                if h != host {
                    let k = choose|k: int| 0 <= k < old(self).links@.len() && old(self).links@[k].host == h;
                    assert(self.links@[k].host == h);
                } else {
                    assert(self.links@[slot].host == h);
                }
            }
            assert(lists_exactly(self.links@, n));
            self.lemma_view_is(n);
        }
        Some(Attached { conn, displaced })
    }

    /// Releases connection `conn` of `host`, after its reader ended or a write
    /// to it failed. The entry goes, and `true` comes back, only where the table
    /// still holds that very connection: then the caller closes the whole socket.
    /// Where a newer connection took the slot, the table is left as it is and
    /// the caller drops only the stale read half.
    pub fn release(&mut self, host: u128, conn: u64) -> (r: bool)
        requires
            old(self).wf(),
        ensures
            final(self).wf(),
            r == holds(old(self)@, host, conn),
            final(self)@ == released(old(self)@, host, conn),
            final(self).next_id() == old(self).next_id(),
    {
        proof {
            self.lemma_lists_view();
        }
        let ghost m = self@;
        match self.find(host) {
            Some(i) => {
                proof {
                    self.lemma_entry(i as int);
                }
                if self.links[i].conn == conn {
                    self.links.remove(i);
                    proof {
                        let n = m.remove(host);
                        assert forall|h: u128| #[trigger] n.contains_key(h) implies exists|k: int|
                            0 <= k < self.links@.len() && self.links@[k].host == h by {
                            let k = choose|k: int|
                                0 <= k < old(self).links@.len() && old(self).links@[k].host == h;
                            if k < i {
                                assert(self.links@[k].host == h);
                            } else {
                                assert(self.links@[k - 1].host == h);
                            }
                        }
                        assert(lists_exactly(self.links@, n));
                        self.lemma_view_is(n);
                    }
                    true
                } else {
                    false
                }
            },
            None => false,
        }
    }

    /// Every entry of the table, each once.
    pub fn links(&self) -> (r: Vec<Link>)
        requires
            self.wf(),
        ensures
            lists_exactly(r@, self@),
    {
        proof {
            self.lemma_lists_view();
        }
        let mut r: Vec<Link> = Vec::new();
        let mut i: usize = 0;
        while i < self.links.len()
            invariant
                i <= self.links@.len(),
                r@ == self.links@.take(i as int),
            decreases self.links@.len() - i,
        {
            r.push(self.links[i]);
            i += 1;
            assert(r@ =~= self.links@.take(i as int));
        }
        assert(r@ =~= self.links@);
        r
    }

    /// Which listed peers to dial before a broadcast: the positions in `listed`
    /// of those this instance, whose address is `own`, should dial, a host once.
    pub fn dial_plan(&self, own: &String, listed: &Vec<PeerAddress>) -> (r: Vec<usize>)
        requires
            self.wf(),
        ensures
            r@ == dial_plan_of(self@, own@, listed@, listed@.len() as int),
    {
        let mut plan: Vec<usize> = Vec::new();
        let mut k: usize = 0;
        while k < listed.len()
            invariant
                k <= listed@.len(),
                self.wf(),
                plan@ == dial_plan_of(self@, own@, listed@, k as int),
                forall|j: int| 0 <= j < plan@.len() ==> plan@[j] < k,
            decreases listed@.len() - k,
        {
            let p = &listed[k];
            if p.address != *own && self.find(p.host).is_none() {
                let mut seen = false;
                let mut j: usize = 0;
                while j < plan.len()
                    invariant
                        j <= plan@.len(),
                        forall|x: int| 0 <= x < plan@.len() ==> plan@[x] < k,
                        k < listed@.len(),
                        seen <==> exists|x: int| 0 <= x < j && listed@[plan@[x] as int].host == p.host,
                    decreases plan@.len() - j,
                {
                    if listed[plan[j]].host == p.host {
                        seen = true;
                    }
                    j += 1;
                }
                if !seen {
                    plan.push(k);
                }
            }
            k += 1;
        }
        plan
    }
}

/// Of two connections for one host, the later one takes the slot, and the
/// teardown of the earlier one leaves the later one in place.
pub proof fn lemma_racing_connections(m: Map<u128, u64>, host: u128, first: u64, second: u64)
    requires
        first != second,
    ensures
        ({
            let both = attached(attached(m, host, first), host, second);
            &&& held(both, host) == Some(second)
            &&& released(both, host, first) == both
        }),
{
}

proof fn lemma_plan_grows(m: Map<u128, u64>, own: Seq<char>, listed: Seq<PeerAddress>, a: int, b: int)
    requires
        0 <= a <= b,
    ensures
        dial_plan_of(m, own, listed, a).len() <= dial_plan_of(m, own, listed, b).len(),
        dial_plan_of(m, own, listed, a) == dial_plan_of(m, own, listed, b).take(
            dial_plan_of(m, own, listed, a).len() as int,
        ),
    decreases b - a,
{
    let pa = dial_plan_of(m, own, listed, a);
    if a < b {
        lemma_plan_grows(m, own, listed, a, b - 1);
        let prev = dial_plan_of(m, own, listed, b - 1);
        let pb = dial_plan_of(m, own, listed, b);
        assert(pb.take(prev.len() as int) =~= prev);
        assert(pb.take(pa.len() as int) =~= prev.take(pa.len() as int));
    } else {
        assert(pa.take(pa.len() as int) =~= pa);
    }
}

/// Planned positions lie among the first `n`, and name peers to dial, each host once.
pub proof fn lemma_plan_entries(m: Map<u128, u64>, own: Seq<char>, listed: Seq<PeerAddress>, n: int)
    requires
        0 <= n <= listed.len() <= usize::MAX,
    ensures
        ({
            let plan = dial_plan_of(m, own, listed, n);
            &&& forall|j: int| 0 <= j < plan.len() ==> plan[j] < n
            &&& forall|j: int|
                0 <= j < plan.len() ==> wants_dial(m, own, #[trigger] listed[plan[j] as int])
            &&& forall|i: int, j: int|
                0 <= i < j < plan.len() ==> listed[plan[i] as int].host != listed[plan[j] as int].host
        }),
    decreases n,
{
    if n > 0 {
        lemma_plan_entries(m, own, listed, n - 1);
        let prev = dial_plan_of(m, own, listed, n - 1);
        let plan = dial_plan_of(m, own, listed, n);
        let p = listed[n - 1];
        if wants_dial(m, own, p) && !plans_host(listed, prev, p.host) {
            assert(plan == prev.push((n - 1) as usize));
            assert forall|i: int, j: int| 0 <= i < j < plan.len() implies listed[plan[i] as int].host
                != listed[plan[j] as int].host by {
                if j == prev.len() {
                    assert(plan[i] == prev[i]);
                    if listed[prev[i] as int].host == p.host {
                        assert(plans_host(listed, prev, p.host));
                    }
                } else {
                    assert(plan[i] == prev[i] && plan[j] == prev[j]);
                }
            }
        } else {
            assert(plan == prev);
        }
    }
}

/// Every peer among the first `n` that this instance should dial has its host planned.
pub proof fn lemma_plan_covers(m: Map<u128, u64>, own: Seq<char>, listed: Seq<PeerAddress>, n: int, k: int)
    requires
        0 <= k < n <= listed.len() <= usize::MAX,
        wants_dial(m, own, listed[k]),
    ensures
        plans_host(listed, dial_plan_of(m, own, listed, n), listed[k].host),
    decreases n,
{
    let prev = dial_plan_of(m, own, listed, n - 1);
    let plan = dial_plan_of(m, own, listed, n);
    lemma_plan_grows(m, own, listed, n - 1, n);
    if k < n - 1 {
        lemma_plan_covers(m, own, listed, n - 1, k);
        let j = choose|j: int| 0 <= j < prev.len() && listed[prev[j] as int].host == listed[k].host;
        assert(plan[j] == prev[j]);
    } else if plans_host(listed, prev, listed[k].host) {
        let j = choose|j: int| 0 <= j < prev.len() && listed[prev[j] as int].host == listed[k].host;
        assert(plan[j] == prev[j]);
    } else {
        assert(plan == prev.push((n - 1) as usize));
        assert(plan[prev.len() as int] == k);
    }
}

/// Dials reach only listed peers, never this instance itself: an address
/// that the registry no longer lists is not dialed.
pub proof fn lemma_unlisted_not_dialed(m: Map<u128, u64>, own: Seq<char>, listed: Seq<PeerAddress>, address: Seq<char>)
    requires
        listed.len() <= usize::MAX,
        forall|i: int| 0 <= i < listed.len() ==> listed[i].address@ != address,
    ensures
        ({
            let plan = dial_plan_of(m, own, listed, listed.len() as int);
            forall|j: int|
                0 <= j < plan.len() ==> plan[j] < listed.len() && #[trigger] listed[plan[j] as int].address@
                    != address && listed[plan[j] as int].address@ != own
        }),
{
    lemma_plan_entries(m, own, listed, listed.len() as int);
}

/// After a write to a peer fails and its connection is released, the next
/// broadcast dials that peer again if the registry still lists it.
pub proof fn lemma_redial_after_failure(
    m: Map<u128, u64>,
    host: u128,
    conn: u64,
    own: Seq<char>,
    listed: Seq<PeerAddress>,
    k: int,
)
    requires
        holds(m, host, conn),
        0 <= k < listed.len() <= usize::MAX,
        listed[k].host == host,
        listed[k].address@ != own,
    ensures
        plans_host(listed, dial_plan_of(released(m, host, conn), own, listed, listed.len() as int), host),
{
    lemma_plan_covers(released(m, host, conn), own, listed, listed.len() as int, k);
}

/// The hosts of the listed peers other than this instance.
pub open spec fn peer_hosts(own: Seq<char>, listed: Seq<PeerAddress>) -> Set<u128> {
    Set::new(|h: u128| exists|i: int| 0 <= i < listed.len() && listed[i].host == h && listed[i].address@ != own)
}

/// The hosts that a plan dials.
pub open spec fn planned_hosts(listed: Seq<PeerAddress>, plan: Seq<usize>) -> Set<u128> {
    Set::new(|h: u128| plans_host(listed, plan, h))
}

/// A broadcast reaches every listed peer but the unreachable ones. Start from
/// a table `m` that holds listed peers only; dial the plan, where the dials to
/// unreachable hosts fail and the others are attached; write to every entry,
/// where the writes to unreachable hosts fail. Then the frame reaches exactly
/// the reachable listed peers, the failures (dials and writes together) are
/// exactly the unreachable listed peers, and the two counts add up to the
/// number of listed peers.
pub proof fn lemma_broadcast_reach(
    m: Map<u128, u64>,
    own: Seq<char>,
    listed: Seq<PeerAddress>,
    unreachable: Set<u128>,
)
    requires
        listed.len() <= usize::MAX,
        m.dom().subset_of(peer_hosts(own, listed)),
    ensures
        ({
            let peers = peer_hosts(own, listed);
            let planned = planned_hosts(listed, dial_plan_of(m, own, listed, listed.len() as int));
            let connected = m.dom() + planned.difference(unreachable);
            let delivered = connected.difference(unreachable);
            let failed = m.dom().intersect(unreachable) + planned.intersect(unreachable);
            &&& m.dom().disjoint(planned)
            &&& delivered == peers.difference(unreachable)
            &&& failed == peers.intersect(unreachable)
            &&& peers.finite()
            &&& delivered.len() + failed.len() == peers.len()
        }),
{
    let n = listed.len() as int;
    let plan = dial_plan_of(m, own, listed, n);
    let peers = peer_hosts(own, listed);
    let planned = planned_hosts(listed, plan);
    lemma_plan_entries(m, own, listed, n);
    assert forall|h: u128| #[trigger] planned.contains(h) implies peers.contains(h) && !m.contains_key(h) by {
        let j = choose|j: int| 0 <= j < plan.len() && listed[plan[j] as int].host == h;
        assert(wants_dial(m, own, listed[plan[j] as int]));
    }
    assert forall|h: u128| #[trigger] peers.contains(h) && !m.contains_key(h) implies planned.contains(h) by {
        let i = choose|i: int| 0 <= i < listed.len() && listed[i].host == h && listed[i].address@ != own;
        lemma_plan_covers(m, own, listed, n, i);
    }
    let connected = m.dom() + planned.difference(unreachable);
    let delivered = connected.difference(unreachable);
    let failed = m.dom().intersect(unreachable) + planned.intersect(unreachable);
    assert(delivered =~= peers.difference(unreachable));
    assert(failed =~= peers.intersect(unreachable));
    let all_hosts = listed.map_values(|p: PeerAddress| p.host).to_set();
    assert forall|h: u128| #[trigger] peers.contains(h) implies all_hosts.contains(h) by {
        let i = choose|i: int| 0 <= i < listed.len() && listed[i].host == h && listed[i].address@ != own;
        assert(listed.map_values(|p: PeerAddress| p.host)[i] == h);
    }
    vstd::seq_lib::seq_to_set_is_finite(listed.map_values(|p: PeerAddress| p.host));
    lemma_len_subset(peers, all_hosts);
    lemma_len_subset(delivered, peers);
    lemma_len_subset(failed, peers);
    assert(delivered.disjoint(failed));
    lemma_set_disjoint_lens(delivered, failed);
    assert(delivered + failed =~= peers);
}

} // verus!
