//! Source catalog: servers advertise the sources they host; clients and other
//! servers listen to build a global, live view of every source on the LAN.
//!
//! A server receives its own announcement too, so its sources land in the same
//! [`CatalogStore`] as remote ones and the web UI renders local and remote
//! sources uniformly.
//!
//! The time at which a server was heard is a monotonic clock's nanoseconds.
use vstd::prelude::*;

use crate::assoc;
use crate::assoc::{Assoc, Dated};
use crate::order;
use crate::order::order_named;
use crate::stream::SendParams;
use crate::wire;
use crate::wire::{ip_from, octets, CatalogAnnounce, CatalogEntry};

verus! {

/// How often a server re-advertises its catalog.
pub const ANNOUNCE_INTERVAL_MS: u64 = 3000;

/// Drop a server's sources if we haven't heard an announcement in this long
/// (15 s, about five missed announcements).
pub const ANNOUNCE_STALE: u64 = 15_000_000_000;

/// How often a client asks the server that it was pointed at for its catalog.
pub const UNICAST_POLL_MS: u64 = 2000;

pub const FNV_BASIS: u64 = 0xcbf2_9ce4_8422_2325;

pub const FNV_PRIME: u64 = 0x0000_0100_0000_01b3;

/// The FNV-1a 64-bit hash.
pub open spec fn fnv(bytes: Seq<u8>) -> u64
    decreases bytes.len(),
{
    if bytes.len() == 0 {
        FNV_BASIS
    } else {
        (fnv(bytes.drop_last()) ^ (bytes.last() as u64)).wrapping_mul(FNV_PRIME)
    }
}

/// FNV-1a 64-bit hash: small, dependency-free, good enough for stable ids.
pub fn fnv1a(bytes: &[u8]) -> (h: u64)
    ensures
        h == fnv(bytes@),
{
    let mut h: u64 = FNV_BASIS;
    let mut i: usize = 0;
    proof {
        assert(bytes@.take(0) =~= Seq::<u8>::empty());
    }
    while i < bytes.len()
        invariant
            i <= bytes@.len(),
            h == fnv(bytes@.take(i as int)),
        decreases bytes@.len() - i,
    {
        h = (h ^ (bytes[i] as u64)).wrapping_mul(FNV_PRIME);
        i = i + 1;
        proof {
            assert(bytes@.take(i as int).drop_last() =~= bytes@.take(i - 1));
        }
    }
    proof {
        assert(bytes@.take(i as int) =~= bytes@);
    }
    h
}

/// The eight bytes of a number, least significant first.
pub open spec fn le_bytes(n: u64) -> Seq<u8> {
    seq![
        (n % 0x100) as u8,
        (n / 0x100 % 0x100) as u8,
        (n / 0x1_0000 % 0x100) as u8,
        (n / 0x100_0000 % 0x100) as u8,
        (n / 0x1_0000_0000 % 0x100) as u8,
        (n / 0x100_0000_0000 % 0x100) as u8,
        (n / 0x1_0000_0000_0000 % 0x100) as u8,
        (n / 0x100_0000_0000_0000 % 0x100) as u8,
    ]
}

/// The bytes of a number, least significant first.
pub fn to_le(n: u64) -> (v: Vec<u8>)
    ensures
        v@ == le_bytes(n),
{
    let mut v: Vec<u8> = Vec::new();
    v.push((n % 0x100) as u8);
    v.push((n / 0x100 % 0x100) as u8);
    v.push((n / 0x1_0000 % 0x100) as u8);
    v.push((n / 0x100_0000 % 0x100) as u8);
    v.push((n / 0x1_0000_0000 % 0x100) as u8);
    v.push((n / 0x100_0000_0000 % 0x100) as u8);
    v.push((n / 0x1_0000_0000_0000 % 0x100) as u8);
    v.push((n / 0x100_0000_0000_0000 % 0x100) as u8);
    proof {
        assert(v@ =~= le_bytes(n));
    }
    v
}

/// The id of the source with this name on this server: the hash of the server
/// id's bytes and the name's UTF-8 bytes, but never 0.
pub open spec fn id_of(server_id: u64, name: Seq<char>) -> u64 {
    let h = fnv(le_bytes(server_id) + vstd::utf8::encode_utf8(name));
    if h == 0 {
        1
    } else {
        h
    }
}

/// Stable, globally-unique source id from the server id + source name. Never 0
/// (0 is reserved to mean "off / no source selected").
pub fn source_id(server_id: u64, name: &str) -> (id: u64)
    ensures
        id == id_of(server_id, name@),
        id != 0,
{
    let mut key: Vec<u8> = to_le(server_id);
    let bytes: &[u8] = name.as_bytes();
    let ghost head = key@;
    let mut i: usize = 0;
    while i < bytes.len()
        invariant
            i <= bytes@.len(),
            key@ == head + bytes@.take(i as int),
        decreases bytes@.len() - i,
    {
        key.push(bytes[i]);
        i = i + 1;
        proof {
            assert(key@ =~= head + bytes@.take(i as int));
        }
    }
    proof {
        assert(bytes@.take(i as int) =~= bytes@);
        assert(key@ =~= le_bytes(server_id) + vstd::utf8::encode_utf8(name@));
    }
    let id: u64 = fnv1a(key.as_slice());
    if id == 0 {
        1
    } else {
        id
    }
}

/// The group of a source: 239.255.h.l with h in the upper half.
pub open spec fn group_of(source_id: u64) -> int {
    wire::ip_of(
        seq![239u8, 255, (0x80 + source_id % 0x80) as u8, (source_id / 0x100 % 0x100) as u8],
    )
}

/// Auto-derive a source's multicast group from its id, within 239.255.128.0/17,
/// kept clear of the fixed 239.255.42.x control/announce/telemetry groups.
pub fn auto_group(source_id: u64) -> (ip: u32)
    ensures
        ip == group_of(source_id),
{
    let h: u8 = 0x80 + (source_id % 0x80) as u8;
    let l: u8 = (source_id / 0x100 % 0x100) as u8;
    let o: [u8; 4] = [239, 255, h, l];
    proof {
        assert(o@ =~= seq![
            239u8,
            255,
            (0x80 + source_id % 0x80) as u8,
            (source_id / 0x100 % 0x100) as u8,
        ]);
    }
    ip_from(&o)
}

/// A derived group lies within 239.255.128.0/17, so it is none of the fixed
/// groups.
pub proof fn auto_groups_are_clear(source_id: u64)
    ensures
        0xefff_8000 <= group_of(source_id) <= 0xefff_ffff,
        group_of(source_id) != wire::ANNOUNCE_GROUP,
        group_of(source_id) != wire::CONTROL_GROUP,
        group_of(source_id) != wire::TELEMETRY_REQ_GROUP,
        group_of(source_id) != wire::STATS_GROUP,
{
}

/// A resolved source: the advertised entry plus how to reach its owning server
/// for time-sync.
#[derive(Debug)]
pub struct ResolvedSource {
    pub entry: CatalogEntry,
    pub server_id: u64,
    pub server_ip: u32,
    pub sync_port: u16,
}

impl Clone for ResolvedSource {
    fn clone(&self) -> (r: Self)
        ensures
            r == *self,
    {
        ResolvedSource {
            entry: self.entry.clone(),
            server_id: self.server_id,
            server_ip: self.server_ip,
            sync_port: self.sync_port,
        }
    }
}

/// One server's latest announcement and when it came.
pub struct RemoteServer {
    pub announce: CatalogAnnounce,
    pub last_seen: u64,
}

/// What is known of a server.
#[verifier::ext_equal]
pub struct RemoteView {
    pub server_id: u64,
    pub server_ip: int,
    pub sync_port: u16,
    pub sources: Seq<CatalogEntry>,
    pub last_seen: u64,
}

impl View for RemoteServer {
    type V = RemoteView;

    open spec fn view(&self) -> RemoteView {
        seen_at(self.announce, self.last_seen)
    }
}

/// What an announcement tells at the time it comes.
pub open spec fn seen_at(a: CatalogAnnounce, now: u64) -> RemoteView {
    RemoteView {
        server_id: a.server_id,
        server_ip: wire::ip_of(a.server_ip@),
        sync_port: a.sync_port,
        sources: a.sources@,
        last_seen: now,
    }
}

impl Dated for RemoteServer {
    open spec fn date(v: RemoteView) -> u64 {
        v.last_seen
    }

    fn dated(&self) -> (r: u64) {
        self.last_seen
    }
}

/// The `j`-th source of a server, with how to reach it.
pub open spec fn resolved(v: RemoteView, j: int) -> ResolvedSource {
    ResolvedSource {
        entry: v.sources[j],
        server_id: v.server_id,
        server_ip: v.server_ip as u32,
        sync_port: v.sync_port,
    }
}

/// The sources of one server.
pub open spec fn sources_of(v: RemoteView) -> Seq<ResolvedSource> {
    Seq::new(v.sources.len(), |j: int| resolved(v, j))
}

/// The sources of all servers, one server after the other.
pub open spec fn all_sources(servers: Seq<(u64, RemoteView)>) -> Seq<ResolvedSource>
    decreases servers.len(),
{
    if servers.len() == 0 {
        Seq::empty()
    } else {
        all_sources(servers.drop_last()) + sources_of(servers.last().1)
    }
}

/// The names and ids of sources, as ordering keys.
pub open spec fn source_keys(sources: Seq<ResolvedSource>) -> Seq<(Seq<char>, u64)> {
    sources.map_values(|r: ResolvedSource| (r.entry.name@, r.entry.source_id))
}

/// Whether `out` lists all sources of the servers, by name, then by id.
pub open spec fn lists_sources(out: Seq<ResolvedSource>, servers: Seq<(u64, RemoteView)>) -> bool {
    let all = all_sources(servers);
    exists|p: Seq<int>|
        {
            &&& #[trigger] order::ranked(source_keys(all), p)
            &&& out.len() == p.len()
            &&& forall|i: int| 0 <= i < out.len() ==> #[trigger] out[i] == all[p[i]]
        }
}

/// Whether `r` is the first of the sources with this id.
pub open spec fn first_with_id(out: Seq<ResolvedSource>, id: u64, r: Option<ResolvedSource>) -> bool {
    match r {
        Some(x) => exists|i: int|
            {
                &&& 0 <= i < out.len()
                &&& x == #[trigger] out[i]
                &&& x.entry.source_id == id
                &&& forall|j: int| 0 <= j < i ==> (#[trigger] out[j]).entry.source_id != id
            },
        None => forall|j: int| 0 <= j < out.len() ==> (#[trigger] out[j]).entry.source_id != id,
    }
}

/// Live, merged catalog keyed by server id. Shared by the announce receiver and
/// read by the web UI and (on clients) the selection logic.
pub struct CatalogStore {
    pub remote: Assoc<u64, RemoteServer>,
}

impl CatalogStore {
    /// Each server is kept under its own id.
    pub open spec fn wf(&self) -> bool {
        &&& self.remote.wf()
        &&& forall|i: int|
            0 <= i < self.remote.pairs().len() ==> (#[trigger] self.remote.pairs()[i]).1.server_id
                == self.remote.pairs()[i].0 && 0 <= self.remote.pairs()[i].1.server_ip <= u32::MAX
    }

    /// The servers heard of recently, in the order in which they were first heard.
    pub open spec fn live(&self, now: u64) -> Seq<(u64, RemoteView)> {
        assoc::fresh_pairs::<u64, RemoteServer>(self.remote.pairs(), now, ANNOUNCE_STALE)
    }

    pub fn new() -> (r: Self)
        ensures
            r.wf(),
            r.remote@ == Map::<u64, RemoteView>::empty(),
    {
        CatalogStore { remote: Assoc::new() }
    }

    /// Record (or refresh) one server's advertised catalog.
    pub fn merge(&mut self, announce: CatalogAnnounce, now: u64)
        requires
            old(self).wf(),
        ensures
            final(self).wf(),
            final(self).remote@ == old(self).remote@.insert(
                announce.server_id,
                seen_at(announce, now),
            ),
    {
        let ghost before = self.remote;
        let id: u64 = announce.server_id;
        let ghost v = seen_at(announce, now);
        let r: RemoteServer = RemoteServer { announce, last_seen: now };
        self.remote.insert(id, r);
        proof {
            assert forall|i: int| 0 <= i < self.remote.pairs().len() implies (
            #[trigger] self.remote.pairs()[i]).1.server_id == self.remote.pairs()[i].0 && 0
                <= self.remote.pairs()[i].1.server_ip <= u32::MAX by {
                if before@.contains_key(id) {
                    let p = assoc::place_of(before.pairs(), id);
                    if i != p {
                        assert(self.remote.pairs()[i] == before.pairs()[i]);
                    }
                } else if i < before.pairs().len() {
                    assert(self.remote.pairs()[i] == before.pairs()[i]);
                }
            }
        }
    }

    /// Record an announcement that came from `from`: the announcing server's IP is
    /// the datagram's source address (not the announced one), so it's always the
    /// real reachable address.
    pub fn merge_from(&mut self, announce: CatalogAnnounce, from: u32, now: u64)
        requires
            old(self).wf(),
        ensures
            final(self).wf(),
            final(self).remote@ == old(self).remote@.insert(
                announce.server_id,
                (RemoteView { server_ip: from as int, ..seen_at(announce, now) }),
            ),
    {
        let mut a: CatalogAnnounce = announce;
        a.server_ip = octets(from);
        self.merge(a, now);
    }

    /// Forget the servers that have been silent for [`ANNOUNCE_STALE`].
    fn prune(&mut self, now: u64)
        requires
            old(self).wf(),
        ensures
            final(self).wf(),
            final(self).remote.pairs() == old(self).live(now),
            final(self).remote@ == assoc::fresh_part::<u64, RemoteServer>(
                old(self).remote@,
                now,
                ANNOUNCE_STALE,
            ),
    {
        let ghost before = self.remote;
        self.remote.keep_fresh(now, ANNOUNCE_STALE);
        proof {
            assert forall|i: int| 0 <= i < self.remote.pairs().len() implies (
            #[trigger] self.remote.pairs()[i]).1.server_id == self.remote.pairs()[i].0 && 0
                <= self.remote.pairs()[i].1.server_ip <= u32::MAX by {
                assoc::lemma_place(self.remote.pairs(), i);
                let k = self.remote.pairs()[i].0;
                assert(before@.contains_key(k) && before@[k] == self.remote@[k]);
                let p = assoc::place_of(before.pairs(), k);
                assert(before.pairs()[p].1 == before@[k]);
            }
        }
    }

    /// The sources of all servers, one server after the other.
    fn gather(&self) -> (out: Vec<ResolvedSource>)
        requires
            self.wf(),
        ensures
            out@ == all_sources(self.remote.pairs()),
    {
        let ghost pairs = self.remote.pairs();
        let mut out: Vec<ResolvedSource> = Vec::new();
        let n: usize = self.remote.len();
        let mut i: usize = 0;
        proof {
            assert(pairs.take(0) =~= Seq::<(u64, RemoteView)>::empty());
        }
        while i < n
            invariant
                self.wf(),
                pairs == self.remote.pairs(),
                n == pairs.len(),
                i <= n,
                out@ == all_sources(pairs.take(i as int)),
            decreases n - i,
        {
            let r: &RemoteServer = self.remote.value_at(i);
            let ip: u32 = ip_from(&r.announce.server_ip);
            let ghost before = out@;
            let ghost v = pairs[i as int].1;
            let mut j: usize = 0;
            while j < r.announce.sources.len()
                invariant
                    j <= r.announce.sources@.len(),
                    r@ == v,
                    v == pairs[i as int].1,
                    ip == v.server_ip,
                    out@ == before + sources_of(v).take(j as int),
                decreases r.announce.sources@.len() - j,
            {
                let e: CatalogEntry = r.announce.sources[j].clone();
                out.push(
                    ResolvedSource {
                        entry: e,
                        server_id: r.announce.server_id,
                        server_ip: ip,
                        sync_port: r.announce.sync_port,
                    },
                );
                j = j + 1;
                proof {
                    assert(out@.last() == sources_of(v)[j - 1]);
                    assert(out@ =~= before + sources_of(v).take(j as int));
                }
            }
            i = i + 1;
            proof {
                assert(sources_of(v).take(j as int) =~= sources_of(v));
                assert(pairs.take(i as int).drop_last() =~= pairs.take(i - 1));
                assert(pairs.take(i as int).last() == pairs[i - 1]);
            }
        }
        proof {
            assert(pairs.take(i as int) =~= pairs);
        }
        out
    }

    /// Every currently-live source across all servers, sorted for stable UI order.
    pub fn snapshot(&mut self, now: u64) -> (out: Vec<ResolvedSource>)
        requires
            old(self).wf(),
        ensures
            final(self).wf(),
            final(self).remote.pairs() == old(self).live(now),
            final(self).remote@ == assoc::fresh_part::<u64, RemoteServer>(
                old(self).remote@,
                now,
                ANNOUNCE_STALE,
            ),
            lists_sources(out@, old(self).live(now)),
    {
        self.prune(now);
        let all: Vec<ResolvedSource> = self.gather();
        let mut keys: Vec<(String, u64)> = Vec::new();
        let mut k: usize = 0;
        while k < all.len()
            invariant
                k <= all@.len(),
                keys@.len() == k,
                forall|j: int|
                    0 <= j < k ==> (#[trigger] keys@[j]).0@ == all@[j].entry.name@ && keys@[j].1
                        == all@[j].entry.source_id,
            decreases all@.len() - k,
        {
            keys.push((all[k].entry.name.clone(), all[k].entry.source_id));
            k = k + 1;
        }
        let p: Vec<usize> = order_named(&keys);
        let ghost q = p@.map_values(|i: usize| i as int);
        proof {
            assert(order::rank_keys(keys@) =~= source_keys(all@));
        }
        let mut out: Vec<ResolvedSource> = Vec::new();
        let mut i: usize = 0;
        while i < p.len()
            invariant
                i <= p@.len(),
                q == p@.map_values(|i: usize| i as int),
                order::ranked(source_keys(all@), q),
                out@.len() == i,
                forall|j: int| 0 <= j < i ==> #[trigger] out@[j] == all@[q[j]],
            decreases p@.len() - i,
        {
            proof {
                assert(q[i as int] == p@[i as int]);
            }
            out.push(all[p[i]].clone());
            i = i + 1;
        }
        proof {
            assert(order::ranked(source_keys(all@), q));
        }
        out
    }

    /// How to reach one source id, if it is currently advertised.
    pub fn resolve(&mut self, id: u64, now: u64) -> (r: Option<ResolvedSource>)
        requires
            old(self).wf(),
        ensures
            final(self).wf(),
            final(self).remote.pairs() == old(self).live(now),
            final(self).remote@ == assoc::fresh_part::<u64, RemoteServer>(
                old(self).remote@,
                now,
                ANNOUNCE_STALE,
            ),
            exists|out: Seq<ResolvedSource>|
                #[trigger] lists_sources(out, old(self).live(now)) && first_with_id(out, id, r),
    {
        let all: Vec<ResolvedSource> = self.snapshot(now);
        let mut i: usize = 0;
        while i < all.len()
            invariant
                i <= all@.len(),
                forall|j: int| 0 <= j < i ==> (#[trigger] all@[j]).entry.source_id != id,
                lists_sources(all@, old(self).live(now)),
                self.wf(),
                self.remote.pairs() == old(self).live(now),
                self.remote@ == assoc::fresh_part::<u64, RemoteServer>(
                    old(self).remote@,
                    now,
                    ANNOUNCE_STALE,
                ),
            decreases all@.len() - i,
        {
            if all[i].entry.source_id == id {
                let r: ResolvedSource = all[i].clone();
                proof {
                    assert(r == all@[i as int]);
                    assert(first_with_id(all@, id, Some(r)));
                }
                return Some(r);
            }
            i = i + 1;
        }
        proof {
            assert(first_with_id(all@, id, None));
        }
        None
    }

    /// IPs of every server currently heard (for the client's TCP telemetry
    /// fan-out).
    pub fn server_ips(&mut self, now: u64) -> (out: Vec<u32>)
        requires
            old(self).wf(),
        ensures
            final(self).wf(),
            final(self).remote.pairs() == old(self).live(now),
            final(self).remote@ == assoc::fresh_part::<u64, RemoteServer>(
                old(self).remote@,
                now,
                ANNOUNCE_STALE,
            ),
            out@ == old(self).live(now).map_values(|p: (u64, RemoteView)| p.1.server_ip as u32),
    {
        self.prune(now);
        let ghost pairs = self.remote.pairs();
        let n: usize = self.remote.len();
        let mut out: Vec<u32> = Vec::new();
        let mut i: usize = 0;
        while i < n
            invariant
                self.wf(),
                pairs == self.remote.pairs(),
                n == pairs.len(),
                i <= n,
                out@.len() == i,
                forall|j: int| 0 <= j < i ==> #[trigger] out@[j] == pairs[j].1.server_ip,
            decreases n - i,
        {
            out.push(ip_from(&self.remote.value_at(i).announce.server_ip));
            i = i + 1;
        }
        proof {
            assert(out@ =~= pairs.map_values(|p: (u64, RemoteView)| p.1.server_ip as u32));
        }
        out
    }
}

/// Each source of each server is among them all.
proof fn lemma_among_all(servers: Seq<(u64, RemoteView)>, i: int, j: int)
    requires
        0 <= i < servers.len(),
        0 <= j < servers[i].1.sources.len(),
    ensures
        all_sources(servers).contains(resolved(servers[i].1, j)),
    decreases servers.len(),
{
    let init = all_sources(servers.drop_last());
    let x = resolved(servers[i].1, j);
    if i < servers.len() - 1 {
        lemma_among_all(servers.drop_last(), i, j);
        assert(servers.drop_last()[i] == servers[i]);
        let p = init.index_of(x);
        assert(init.contains(x));
        assert(all_sources(servers)[p] == x);
    } else {
        assert(sources_of(servers.last().1)[j] == x);
        assert(all_sources(servers)[init.len() + j] == x);
    }
}

/// Whether the source is one of some server.
pub open spec fn comes_from(servers: Seq<(u64, RemoteView)>, x: ResolvedSource) -> bool {
    exists|i: int, j: int|
        0 <= i < servers.len() && 0 <= j < servers[i].1.sources.len() && x == #[trigger] resolved(
            servers[i].1,
            j,
        )
}

/// Each of the sources is a source of some server.
proof fn lemma_from_server(servers: Seq<(u64, RemoteView)>, k: int)
    requires
        0 <= k < all_sources(servers).len(),
    ensures
        comes_from(servers, all_sources(servers)[k]),
    decreases servers.len(),
{
    let fewer = servers.drop_last();
    let init = all_sources(fewer);
    if k < init.len() {
        lemma_from_server(fewer, k);
        let (i, j) = choose|i: int, j: int|
            0 <= i < fewer.len() && 0 <= j < fewer[i].1.sources.len() && init[k]
                == #[trigger] resolved(fewer[i].1, j);
        assert(fewer[i] == servers[i]);
        assert(all_sources(servers)[k] == resolved(servers[i].1, j));
    } else {
        let j = k - init.len();
        let i = servers.len() - 1;
        assert(all_sources(servers)[k] == resolved(servers[i].1, j));
    }
}

/// The catalog lists exactly the sources of the servers heard of recently: each
/// source of each of them, and nothing else.
pub proof fn catalog_lists_live_sources(
    servers: Seq<(u64, RemoteView)>,
    out: Seq<ResolvedSource>,
)
    requires
        lists_sources(out, servers),
    ensures
        forall|i: int, j: int|
            0 <= i < servers.len() && 0 <= j < servers[i].1.sources.len() ==> out.contains(
                #[trigger] resolved(servers[i].1, j),
            ),
        forall|k: int| 0 <= k < out.len() ==> comes_from(servers, #[trigger] out[k]),
{
    let all = all_sources(servers);
    let p = choose|p: Seq<int>|
        {
            &&& #[trigger] order::ranked(source_keys(all), p)
            &&& out.len() == p.len()
            &&& forall|i: int| 0 <= i < out.len() ==> #[trigger] out[i] == all[p[i]]
        };
    assert forall|i: int, j: int|
        0 <= i < servers.len() && 0 <= j < servers[i].1.sources.len() implies out.contains(
        #[trigger] resolved(servers[i].1, j),
    ) by {
        lemma_among_all(servers, i, j);
        let x = all.index_of(resolved(servers[i].1, j));
        assert(all.contains(resolved(servers[i].1, j)));
        order::ranked_lists_all(source_keys(all), p, x);
        let y = choose|y: int| 0 <= y < p.len() && #[trigger] p[y] == x;
        assert(out[y] == all[p[y]]);
    }
    assert forall|k: int| 0 <= k < out.len() implies comes_from(servers, #[trigger] out[k]) by {
        assert(0 <= p[k] < source_keys(all).len());
        assert(out[k] == all[p[k]]);
        lemma_from_server(servers, p[k]);
    }
}

/// A source is reachable as soon as its server has announced it, and for as long
/// as the server was heard within [`ANNOUNCE_STALE`]: resolving its id gives a
/// source of that id. Once no live server announces the id, resolving it gives
/// nothing.
pub proof fn announced_source_resolves(
    servers: Seq<(u64, RemoteView)>,
    out: Seq<ResolvedSource>,
    id: u64,
    r: Option<ResolvedSource>,
)
    requires
        lists_sources(out, servers),
        first_with_id(out, id, r),
    ensures
        r is Some <==> exists|i: int, j: int|
            0 <= i < servers.len() && 0 <= j < servers[i].1.sources.len() && (#[trigger] resolved(
                servers[i].1,
                j,
            )).entry.source_id == id,
        r is Some ==> r->0.entry.source_id == id,
{
    catalog_lists_live_sources(servers, out);
    if r is Some {
        let k = choose|k: int| 0 <= k < out.len() && r->0 == #[trigger] out[k];
        assert(comes_from(servers, out[k]));
        let (i, j) = choose|i: int, j: int|
            0 <= i < servers.len() && 0 <= j < servers[i].1.sources.len() && out[k]
                == #[trigger] resolved(servers[i].1, j);
        assert(resolved(servers[i].1, j).entry.source_id == id);
    } else if exists|i: int, j: int|
        0 <= i < servers.len() && 0 <= j < servers[i].1.sources.len() && (#[trigger] resolved(
            servers[i].1,
            j,
        )).entry.source_id == id {
        let (i, j) = choose|i: int, j: int|
            0 <= i < servers.len() && 0 <= j < servers[i].1.sources.len() && (#[trigger] resolved(
                servers[i].1,
                j,
            )).entry.source_id == id;
        let x = resolved(servers[i].1, j);
        assert(out.contains(x));
        let k = out.index_of(x);
        assert(out[k].entry.source_id != id);
    }
}

/// Build this server's current [`CatalogAnnounce`], reading each source's live
/// `lead_ms` from its [`SendParams`]. `server_ip` is left 0; the receiver fills
/// it from the datagram's source address. Shared by the announcer and the
/// unicast catalog responder.
pub fn build_announce(
    server_id: u64,
    sync_port: u16,
    sources: &Vec<(CatalogEntry, SendParams)>,
    sent_ms: u64,
) -> (r: CatalogAnnounce)
    ensures
        r.server_id == server_id,
        r.sync_port == sync_port,
        r.sent_ms == sent_ms,
        r.server_ip@ == seq![0u8, 0, 0, 0],
        r.sources@ == sources@.map_values(
            |s: (CatalogEntry, SendParams)|
                (CatalogEntry { lead_ms: s.1.lead_ms as u32, ..s.0 }),
        ),
{
    let mut entries: Vec<CatalogEntry> = Vec::new();
    let mut i: usize = 0;
    while i < sources.len()
        invariant
            i <= sources@.len(),
            entries@.len() == i,
            forall|j: int|
                0 <= j < i ==> #[trigger] entries@[j] == (CatalogEntry {
                    lead_ms: sources@[j].1.lead_ms as u32,
                    ..sources@[j].0
                }),
        decreases sources@.len() - i,
    {
        let mut e: CatalogEntry = sources[i].0.clone();
        e.lead_ms = sources[i].1.lead() as u32;
        entries.push(e);
        i = i + 1;
    }
    proof {
        assert(entries@ =~= sources@.map_values(
            |s: (CatalogEntry, SendParams)|
                (CatalogEntry { lead_ms: s.1.lead_ms as u32, ..s.0 }),
        ));
    }
    let server_ip: [u8; 4] = [0, 0, 0, 0];
    proof {
        assert(server_ip@ =~= seq![0u8, 0, 0, 0]);
    }
    CatalogAnnounce { server_id, server_ip, sync_port, sent_ms, sources: entries }
}

/// The hash takes in one byte after the other, from its basis on: each is mixed into
/// the low bits, and the whole multiplied by the prime, modulo 2^64.
pub proof fn hash_takes_in_every_byte(bytes: Seq<u8>, b: u8)
    ensures
        fnv(Seq::empty()) == 0xcbf2_9ce4_8422_2325,
        fnv(bytes.push(b)) == (fnv(bytes) ^ (b as u64)) * 0x100_0000_01b3
            % 0x1_0000_0000_0000_0000,
{
    assert(bytes.push(b).drop_last() =~= bytes);
}

/// The bytes of a number add up to it, each worth 256 times the one before it.
pub proof fn bytes_add_up(n: u64)
    ensures
        le_bytes(n).len() == 8,
        n == le_bytes(n)[0] + 0x100 * (le_bytes(n)[1] + 0x100 * (le_bytes(n)[2] + 0x100 * (
        le_bytes(n)[3] + 0x100 * (le_bytes(n)[4] + 0x100 * (le_bytes(n)[5] + 0x100 * (
        le_bytes(n)[6] + 0x100 * le_bytes(n)[7])))))),
{
    let n1 = n / 0x100;
    let n2 = n1 / 0x100;
    let n3 = n2 / 0x100;
    let n4 = n3 / 0x100;
    let n5 = n4 / 0x100;
    let n6 = n5 / 0x100;
    let n7 = n6 / 0x100;
    assert(n2 == n / 0x1_0000);
    assert(n3 == n / 0x100_0000);
    assert(n4 == n / 0x1_0000_0000);
    assert(n5 == n / 0x100_0000_0000);
    assert(n6 == n / 0x1_0000_0000_0000);
    assert(n7 == n / 0x100_0000_0000_0000);
    assert(n7 < 0x100);
    let b = le_bytes(n);
    assert(b[0] == n % 0x100 && b[1] == n1 % 0x100 && b[2] == n2 % 0x100 && b[3] == n3 % 0x100);
    assert(b[4] == n4 % 0x100 && b[5] == n5 % 0x100 && b[6] == n6 % 0x100 && b[7] == n7 % 0x100);
    assert(n6 == b[6] + 0x100 * b[7]);
    assert(n5 == b[5] + 0x100 * n6);
    assert(n4 == b[4] + 0x100 * n5);
    assert(n3 == b[3] + 0x100 * n4);
    assert(n2 == b[2] + 0x100 * n3);
    assert(n1 == b[1] + 0x100 * n2);
}

/// A source's id is the hash of its server's id and its name, one after the other; it
/// is never the one that means no source.
pub proof fn ids_are_never_zero(server_id: u64, name: Seq<char>)
    ensures
        id_of(server_id, name) != 0,
        ({
            let h = fnv(le_bytes(server_id) + vstd::utf8::encode_utf8(name));
            h != 0 ==> id_of(server_id, name) == h
        }),
{
}

/// A derived group takes its last two octets from the id: the low seven bits, and the
/// byte above the lowest.
pub proof fn groups_follow_the_id(source_id: u64)
    ensures
        group_of(source_id) / 0x1_0000 == 239 * 0x100 + 255,
        group_of(source_id) / 0x100 % 0x100 >= 0x80,
        group_of(source_id) / 0x100 % 0x80 == source_id as int % 0x80,
        group_of(source_id) % 0x100 == source_id as int / 0x100 % 0x100,
{
    wire::octets_come_most_significant_first(
        seq![239u8, 255, (0x80 + source_id % 0x80) as u8, (source_id / 0x100 % 0x100) as u8],
    );
}

/// The catalog is listed by name, and by id where names are the same.
pub proof fn catalog_is_in_order(
    servers: Seq<(u64, RemoteView)>,
    out: Seq<ResolvedSource>,
    i: int,
    j: int,
)
    requires
        lists_sources(out, servers),
        0 <= i < j < out.len(),
    ensures
        !order::text_before(out[j].entry.name@, out[i].entry.name@),
        out[i].entry.name@ == out[j].entry.name@ ==> out[i].entry.source_id
            <= out[j].entry.source_id,
        out.len() == all_sources(servers).len(),
{
    let all = all_sources(servers);
    let p = choose|p: Seq<int>|
        {
            &&& #[trigger] order::ranked(source_keys(all), p)
            &&& out.len() == p.len()
            &&& forall|i: int| 0 <= i < out.len() ==> #[trigger] out[i] == all[p[i]]
        };
    order::ranking_sorts(source_keys(all), p, i, j);
    assert(out[i] == all[p[i]] && out[j] == all[p[j]]);
    assert(0 <= p[i] < all.len() && 0 <= p[j] < all.len());
}

/// A source that is resolved is the first of its id in the catalog's order.
pub proof fn first_of_an_id_is_found(
    out: Seq<ResolvedSource>,
    id: u64,
    r: Option<ResolvedSource>,
    i: int,
)
    requires
        first_with_id(out, id, r),
        0 <= i < out.len(),
        out[i].entry.source_id == id,
        forall|j: int| 0 <= j < i ==> (#[trigger] out[j]).entry.source_id != id,
    ensures
        r == Some(out[i]),
{
}

/// A server counts as live for fifteen seconds from its last announcement, and no
/// longer.
pub proof fn servers_live_fifteen_seconds(c: CatalogStore, now: u64, p: (u64, RemoteView))
    ensures
        c.live(now).contains(p) <==> c.remote.pairs().contains(p) && now - p.1.last_seen
            < 15_000_000_000,
{
    let pairs = c.remote.pairs();
    if pairs.contains(p) {
        assoc::fresh_pairs_are_the_fresh_ones::<u64, RemoteServer>(
            pairs,
            now,
            ANNOUNCE_STALE,
            pairs.index_of(p),
        );
    } else if c.live(now).contains(p) {
        let j = c.live(now).index_of(p);
        if pairs.len() > 0 {
            assoc::fresh_pairs_are_the_fresh_ones::<u64, RemoteServer>(
                pairs,
                now,
                ANNOUNCE_STALE,
                0,
            );
        } else {
            reveal(Seq::filter);
        }
    }
    if c.live(now).contains(p) {
        let j = c.live(now).index_of(p);
        assert(c.live(now)[j] == p);
    }
}

/// What is kept of an announcement is what it says, and when it came.
pub proof fn announcements_are_kept_whole(a: CatalogAnnounce, now: u64, j: int)
    requires
        0 <= j < a.sources@.len(),
    ensures
        ({
            let v = seen_at(a, now);
            &&& v.server_id == a.server_id
            &&& v.sync_port == a.sync_port
            &&& v.last_seen == now
            &&& v.server_ip == wire::ip_of(a.server_ip@)
            &&& sources_of(v).len() == a.sources@.len()
            &&& sources_of(v)[j].entry == a.sources@[j]
            &&& sources_of(v)[j].server_id == a.server_id
            &&& sources_of(v)[j].sync_port == a.sync_port
            &&& 0 <= v.server_ip <= u32::MAX ==> sources_of(v)[j].server_ip == v.server_ip
        }),
{
}

} // verus!
