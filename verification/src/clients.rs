//! Durable per-client settings.
//!
//! Clients are identified by their device id (a MAC address by default: stable
//! across IP changes and restarts). Each record holds the volume, delay, and an
//! optional display-name override (the default name is the device's hostname,
//! reported via telemetry). The server treats these records as the authority: an
//! edit from the UI writes here, and a reconciler pushes the stored values back to
//! a (re)connecting client, so settings survive client restarts.
use vstd::prelude::*;

use crate::assoc;
use crate::assoc::Assoc;
use crate::sync::copy_map;
use crate::text;
use crate::text::{
    chars_of, copy_opt, filled, is_text, parse_bounded, push_hex_byte, split_chars,
};
use crate::units::{Volume, FULL_VOLUME};

verus! {

/// One persisted client. `name = None` means "use the reported hostname".
#[derive(Debug)]
pub struct ClientRecord {
    pub name: Option<String>,
    pub volume: Volume,
    pub delay_ms: u32,
    /// Output channel map (one source-channel index per output channel, `-1` =
    /// silence). Empty = default identity mapping.
    pub channel_map: Vec<i16>,
    /// Name of the source this client last played *on this server* (restored on
    /// reconnect). `None` when off or playing another server's source.
    pub source: Option<String>,
    /// Id of the group this client belongs to (`None` = ungrouped). Members of a
    /// group follow the group's chosen source; see [`crate::groups`].
    pub group: Option<String>,
}

/// What a client's record holds.
#[verifier::ext_equal]
pub struct RecordView {
    pub name: Option<Seq<char>>,
    pub volume: Volume,
    pub delay_ms: u32,
    pub channel_map: Seq<i16>,
    pub source: Option<Seq<char>>,
    pub group: Option<Seq<char>>,
}

impl View for ClientRecord {
    type V = RecordView;

    open spec fn view(&self) -> RecordView {
        RecordView {
            name: text::opt(self.name),
            volume: self.volume,
            delay_ms: self.delay_ms,
            channel_map: self.channel_map@,
            source: text::opt(self.source),
            group: text::opt(self.group),
        }
    }
}

/// A record with these values and nothing else.
pub open spec fn plain_record(volume: Volume, delay_ms: u32) -> RecordView {
    RecordView {
        name: None,
        volume,
        delay_ms,
        channel_map: Seq::empty(),
        source: None,
        group: None,
    }
}

/// The record of a client of which nothing is known: full volume, no delay.
pub open spec fn default_record() -> RecordView {
    plain_record(Volume { units: FULL_VOLUME }, 0)
}

impl ClientRecord {
    fn plain(volume: Volume, delay_ms: u32) -> (r: Self)
        ensures
            r@ == plain_record(volume, delay_ms),
    {
        ClientRecord {
            name: None,
            volume,
            delay_ms,
            channel_map: Vec::new(),
            source: None,
            group: None,
        }
    }
}

impl Default for ClientRecord {
    fn default() -> (r: Self)
        ensures
            r@ == default_record(),
    {
        ClientRecord::plain(Volume::full(), 0)
    }
}

impl Clone for ClientRecord {
    fn clone(&self) -> (r: Self)
        ensures
            r@ == self@,
    {
        ClientRecord {
            name: copy_opt(&self.name),
            volume: self.volume,
            delay_ms: self.delay_ms,
            channel_map: copy_map(&self.channel_map),
            source: copy_opt(&self.source),
            group: copy_opt(&self.group),
        }
    }
}

/// The records that a list of them makes: of several under one id the last counts.
pub open spec fn records_of(list: Seq<(Seq<char>, RecordView)>) -> Map<Seq<char>, RecordView>
    decreases list.len(),
{
    if list.len() == 0 {
        Map::empty()
    } else {
        records_of(list.drop_last()).insert(list.last().0, list.last().1)
    }
}

/// The record of a client, or the default one.
pub open spec fn known(m: Map<Seq<char>, RecordView>, id: Seq<char>) -> RecordView {
    if m.contains_key(id) {
        m[id]
    } else {
        default_record()
    }
}

/// The records after a group is gone: its members are ungrouped.
pub open spec fn without_group(m: Map<Seq<char>, RecordView>, group: Seq<char>) -> Map<
    Seq<char>,
    RecordView,
> {
    Map::new(|k: Seq<char>| m.contains_key(k), |k: Seq<char>| ungrouped(m[k], group))
}

/// A record out of the group.
pub open spec fn ungrouped(r: RecordView, group: Seq<char>) -> RecordView {
    if r.group == Some(group) {
        RecordView { group: None, ..r }
    } else {
        r
    }
}

/// Whether one of the first `n` records is of this client and in the group.
spec fn is_member(
    pairs: Seq<(Seq<char>, RecordView)>,
    n: int,
    group: Seq<char>,
    id: Seq<char>,
) -> bool {
    exists|j: int|
        0 <= j < n && (#[trigger] pairs[j]).0 == id && pairs[j].1.group == Some(group)
}

/// The persistent store. Whoever changes it writes it back.
pub struct ClientStore {
    pub inner: Assoc<String, ClientRecord>,
}

impl View for ClientStore {
    type V = Map<Seq<char>, RecordView>;

    open spec fn view(&self) -> Map<Seq<char>, RecordView> {
        self.inner@
    }
}

impl ClientStore {
    pub open spec fn wf(&self) -> bool {
        self.inner.wf()
    }

    /// The store with the records that were read, or empty if there are none or
    /// they couldn't be read.
    pub fn load(records: Option<Vec<(String, ClientRecord)>>) -> (r: Self)
        ensures
            r.wf(),
            r@ == match records {
                Some(list) => records_of(
                    list@.map_values(|e: (String, ClientRecord)| (e.0@, e.1@)),
                ),
                None => Map::empty(),
            },
    {
        let mut inner: Assoc<String, ClientRecord> = Assoc::new();
        if let Some(list) = records {
            let ghost all = list@.map_values(|e: (String, ClientRecord)| (e.0@, e.1@));
            let mut i: usize = 0;
            proof {
                assert(all.take(0) =~= Seq::<(Seq<char>, RecordView)>::empty());
            }
            while i < list.len()
                invariant
                    i <= list@.len(),
                    inner.wf(),
                    all == list@.map_values(|e: (String, ClientRecord)| (e.0@, e.1@)),
                    inner@ == records_of(all.take(i as int)),
                decreases list@.len() - i,
            {
                proof {
                    assert(all.take(i + 1).drop_last() =~= all.take(i as int));
                    assert(all.take(i + 1).last() == all[i as int]);
                }
                inner.insert(list[i].0.clone(), list[i].1.clone());
                i = i + 1;
            }
            proof {
                assert(all.take(i as int) =~= all);
            }
        }
        ClientStore { inner }
    }

    pub fn get(&self, mac: &String) -> (r: Option<ClientRecord>)
        requires
            self.wf(),
        ensures
            match r {
                Some(rec) => self@.contains_key(mac@) && rec@ == self@[mac@],
                None => !self@.contains_key(mac@),
            },
    {
        match self.inner.get(mac) {
            Some(rec) => Some(rec.clone()),
            None => None,
        }
    }

    /// Create a record for a newly-seen client from its reported values, if we
    /// don't already have one. Returns the effective record, and whether it is new.
    pub fn get_or_create(&mut self, mac: &String, volume: Volume, delay_ms: u32) -> (r: (
        ClientRecord,
        bool,
    ))
        requires
            old(self).wf(),
        ensures
            final(self).wf(),
            r.1 == !old(self)@.contains_key(mac@),
            r.0@ == if r.1 {
                plain_record(volume, delay_ms)
            } else {
                old(self)@[mac@]
            },
            final(self)@ == if r.1 {
                old(self)@.insert(mac@, plain_record(volume, delay_ms))
            } else {
                old(self)@
            },
    {
        if let Some(rec) = self.inner.get(mac) {
            return (rec.clone(), false);
        }
        self.inner.insert(mac.clone(), ClientRecord::plain(volume, delay_ms));
        (ClientRecord::plain(volume, delay_ms), true)
    }

    /// Where the client's record stands; a default one is made for a new client.
    fn entry(&mut self, mac: &String) -> (i: usize)
        requires
            old(self).wf(),
        ensures
            final(self).wf(),
            i < final(self).inner.pairs().len(),
            final(self).inner.pairs()[i as int] == (mac@, known(old(self)@, mac@)),
            final(self)@ == old(self)@.insert(mac@, known(old(self)@, mac@)),
    {
        match self.inner.find(mac) {
            Some(i) => {
                proof {
                    assoc::lemma_place(self.inner.pairs(), i as int);
                    assert(self@.insert(mac@, self@[mac@]) =~= self@);
                }
                i
            },
            None => {
                let n: usize = self.inner.len();
                self.inner.insert(mac.clone(), ClientRecord::default());
                n
            },
        }
    }

    pub fn set_volume(&mut self, mac: &String, volume: Volume)
        requires
            old(self).wf(),
        ensures
            final(self).wf(),
            final(self)@ == old(self)@.insert(
                mac@,
                (RecordView { volume: volume.spec_clamped(), ..known(old(self)@, mac@) }),
            ),
    {
        let i: usize = self.entry(mac);
        let ghost mid = self.inner;
        self.inner.value_mut(i).volume = volume.clamped();
        proof {
            assoc::lemma_changed(mid, self.inner, i as int, self.inner.entries@[i as int].1);
        }
    }

    pub fn set_delay(&mut self, mac: &String, delay_ms: u32)
        requires
            old(self).wf(),
        ensures
            final(self).wf(),
            final(self)@ == old(self)@.insert(
                mac@,
                (RecordView { delay_ms, ..known(old(self)@, mac@) }),
            ),
    {
        let i: usize = self.entry(mac);
        let ghost mid = self.inner;
        self.inner.value_mut(i).delay_ms = delay_ms;
        proof {
            assoc::lemma_changed(mid, self.inner, i as int, self.inner.entries@[i as int].1);
        }
    }

    /// Set (or clear) the name of the source this client is playing on this
    /// server, so it can be restored on reconnect.
    pub fn set_source_name(&mut self, mac: &String, source: Option<String>)
        requires
            old(self).wf(),
        ensures
            final(self).wf(),
            final(self)@ == old(self)@.insert(
                mac@,
                (RecordView { source: text::opt(source), ..known(old(self)@, mac@) }),
            ),
    {
        let i: usize = self.entry(mac);
        let ghost mid = self.inner;
        self.inner.value_mut(i).source = source;
        proof {
            assoc::lemma_changed(mid, self.inner, i as int, self.inner.entries@[i as int].1);
        }
    }

    /// Set the output channel map (one source-channel index per output channel).
    pub fn set_channel_map(&mut self, mac: &String, map: Vec<i16>)
        requires
            old(self).wf(),
        ensures
            final(self).wf(),
            final(self)@ == old(self)@.insert(
                mac@,
                (RecordView { channel_map: map@, ..known(old(self)@, mac@) }),
            ),
    {
        let i: usize = self.entry(mac);
        let ghost mid = self.inner;
        self.inner.value_mut(i).channel_map = map;
        proof {
            assoc::lemma_changed(mid, self.inner, i as int, self.inner.entries@[i as int].1);
        }
    }

    /// Set (or, with `None`, clear) the client's group membership.
    pub fn set_group(&mut self, mac: &String, group: Option<String>)
        requires
            old(self).wf(),
        ensures
            final(self).wf(),
            final(self)@ == old(self)@.insert(
                mac@,
                (RecordView { group: text::opt(group), ..known(old(self)@, mac@) }),
            ),
    {
        let i: usize = self.entry(mac);
        let ghost mid = self.inner;
        self.inner.value_mut(i).group = group;
        proof {
            assoc::lemma_changed(mid, self.inner, i as int, self.inner.entries@[i as int].1);
        }
    }

    /// Set (or, with `None`/empty, clear) the display-name override.
    pub fn set_name(&mut self, mac: &String, name: Option<String>)
        requires
            old(self).wf(),
        ensures
            final(self).wf(),
            final(self)@ == old(self)@.insert(
                mac@,
                (RecordView {
                    name: text::filled_of(text::opt(name)),
                    ..known(old(self)@, mac@)
                }),
            ),
    {
        let i: usize = self.entry(mac);
        let ghost mid = self.inner;
        self.inner.value_mut(i).name = filled(name);
        proof {
            assoc::lemma_changed(mid, self.inner, i as int, self.inner.entries@[i as int].1);
        }
    }

    /// Ids of all clients belonging to `group`, each once.
    pub fn members(&self, group: &String) -> (out: Vec<String>)
        requires
            self.wf(),
        ensures
            forall|id: Seq<char>|
                out@.map_values(|s: String| s@).contains(id) <==> self@.contains_key(id)
                    && #[trigger] self@[id].group == Some(group@),
            out@.map_values(|s: String| s@).no_duplicates(),
    {
        let ghost pairs = self.inner.pairs();
        let n: usize = self.inner.len();
        let mut out: Vec<String> = Vec::new();
        let mut i: usize = 0;
        while i < n
            invariant
                self.wf(),
                pairs == self.inner.pairs(),
                n == pairs.len(),
                i <= n,
                forall|k: int|
                    0 <= k < out@.len() ==> is_member(
                        pairs,
                        i as int,
                        group@,
                        (#[trigger] out@[k])@,
                    ),
                forall|j: int|
                    0 <= j < i && (#[trigger] pairs[j]).1.group == Some(group@)
                        ==> out@.map_values(|s: String| s@).contains(pairs[j].0),
                out@.map_values(|s: String| s@).no_duplicates(),
            decreases n - i,
        {
            let ghost before = out@;
            let ghost names = out@.map_values(|s: String| s@);
            if is_text(&self.inner.value_at(i).group, group) {
                let id: String = self.inner.key_at(i).clone();
                proof {
                    assert(id@ == pairs[i as int].0);
                    assert(!names.contains(id@)) by {
                        if names.contains(id@) {
                            let k = names.index_of(id@);
                            assert(names[k] == before[k]@);
                            assert(is_member(pairs, i as int, group@, before[k]@));
                            let j = choose|j: int|
                                0 <= j < i && (#[trigger] pairs[j]).0 == before[k]@
                                    && pairs[j].1.group == Some(group@);
                            assert(pairs[j].0 != pairs[i as int].0);
                        }
                    }
                }
                out.push(id);
                proof {
                    let after = out@.map_values(|s: String| s@);
                    assert(after =~= names.push(pairs[i as int].0));
                    assert forall|j: int|
                        0 <= j < i + 1 && (#[trigger] pairs[j]).1.group == Some(
                            group@,
                        ) implies after.contains(pairs[j].0) by {
                        if j < i {
                            let k = names.index_of(pairs[j].0);
                            assert(names.contains(pairs[j].0));
                            assert(after[k] == pairs[j].0);
                        } else {
                            assert(after[names.len() as int] == pairs[j].0);
                        }
                    }
                    assert(out@ =~= before.push(id));
                    assert(id@ == pairs[i as int].0 && pairs[i as int].1.group == Some(group@));
                    assert(is_member(pairs, i + 1, group@, id@));
                }
            }
            proof {
                assert forall|k: int| 0 <= k < out@.len() implies is_member(
                    pairs,
                    i + 1,
                    group@,
                    (#[trigger] out@[k])@,
                ) by {
                    if k < before.len() {
                        assert(out@[k] == before[k]);
                        assert(is_member(pairs, i as int, group@, before[k]@));
                    }
                }
            }
            i = i + 1;
        }
        proof {
            let names = out@.map_values(|s: String| s@);
            assert forall|id: Seq<char>| names.contains(id) <==> self@.contains_key(id)
                && #[trigger] self@[id].group == Some(group@) by {
                if names.contains(id) {
                    let k = names.index_of(id);
                    assert(names[k] == out@[k]@);
                    assert(is_member(pairs, n as int, group@, out@[k]@));
                    let j = choose|j: int|
                        0 <= j < n && (#[trigger] pairs[j]).0 == out@[k]@ && pairs[j].1.group
                            == Some(group@);
                    assoc::lemma_place(pairs, j);
                }
                if self@.contains_key(id) && self@[id].group == Some(group@) {
                    let j = assoc::place_of(pairs, id);
                    assert(pairs[j].1 == self@[id]);
                }
            }
        }
        out
    }

    /// Drop every client out of `group` (used when the group is deleted). Returns
    /// whether any client was in it.
    pub fn clear_group(&mut self, group: &String) -> (changed: bool)
        requires
            old(self).wf(),
        ensures
            final(self).wf(),
            final(self)@ == without_group(old(self)@, group@),
            changed == exists|id: Seq<char>|
                old(self)@.contains_key(id) && #[trigger] old(self)@[id].group == Some(group@),
    {
        let ghost before = self.inner.pairs();
        let n: usize = self.inner.len();
        let mut changed: bool = false;
        let mut i: usize = 0;
        while i < n
            invariant
                self.wf(),
                n == before.len(),
                i <= n,
                self.inner.pairs().len() == n,
                forall|j: int|
                    0 <= j < n ==> #[trigger] self.inner.pairs()[j] == if j < i {
                        (before[j].0, ungrouped(before[j].1, group@))
                    } else {
                        before[j]
                    },
                changed == exists|j: int|
                    0 <= j < i && (#[trigger] before[j]).1.group == Some(group@),
            decreases n - i,
        {
            let ghost mid = self.inner;
            proof {
                assert(self.inner.pairs()[i as int] == before[i as int]);
            }
            if is_text(&self.inner.value_at(i).group, group) {
                self.inner.value_mut(i).group = None;
                changed = true;
                proof {
                    assoc::lemma_changed(mid, self.inner, i as int, self.inner.entries@[i as int].1);
                    assert(before[i as int].1.group == Some(group@));
                    assert(self.inner.pairs()[i as int].1 =~= ungrouped(before[i as int].1, group@));
                }
            }
            i = i + 1;
        }
        proof {
            let after = self.inner.pairs();
            let was = old(self)@;
            assert forall|k: Seq<char>| self@.contains_key(k) == was.contains_key(k) by {
                if self@.contains_key(k) {
                    let p = assoc::place_of(after, k);
                    assert(after[p].0 == before[p].0);
                    assoc::lemma_place(before, p);
                }
                if was.contains_key(k) {
                    let p = assoc::place_of(before, k);
                    assert(after[p].0 == before[p].0);
                    assoc::lemma_place(after, p);
                }
            }
            assert forall|k: Seq<char>| self@.contains_key(k) implies self@[k] == ungrouped(
                was[k],
                group@,
            ) by {
                let p = assoc::place_of(after, k);
                assoc::lemma_place(after, p);
                assert(after[p].0 == before[p].0);
                assoc::lemma_place(before, p);
            }
            assert(self@ =~= without_group(was, group@));
            if changed {
                let j = choose|j: int|
                    0 <= j < n && (#[trigger] before[j]).1.group == Some(group@);
                assoc::lemma_place(before, j);
                assert(was[before[j].0].group == Some(group@));
            }
            if exists|id: Seq<char>| was.contains_key(id) && #[trigger] was[id].group == Some(
                group@,
            ) {
                let id = choose|id: Seq<char>|
                    was.contains_key(id) && #[trigger] was[id].group == Some(group@);
                let p = assoc::place_of(before, id);
                assert(before[p].1.group == Some(group@));
            }
        }
        changed
    }
}

/// Once a group is cleared it has no members, and nothing else has changed.
pub proof fn cleared_group_is_empty(m: Map<Seq<char>, RecordView>, group: Seq<char>, id: Seq<char>)
    requires
        m.contains_key(id),
    ensures
        without_group(m, group).contains_key(id),
        without_group(m, group)[id].group != Some(group),
        m[id].group != Some(group) ==> without_group(m, group)[id] == m[id],
        without_group(m, group)[id].volume == m[id].volume,
        without_group(m, group)[id].name == m[id].name,
        without_group(m, group)[id].source == m[id].source,
{
}

// MAC addresses.

/// The text of a MAC: lowercase colon-separated hex.
pub open spec fn mac_text(mac: Seq<u8>) -> Seq<char> {
    text::join(mac.map_values(|b: u8| text::hex_byte(b)), ':')
}

/// Render a MAC as lowercase colon-separated hex, the form of a client's key.
pub fn mac_hex(mac: [u8; 6]) -> (out: String)
    ensures
        out@ == mac_text(mac@),
{
    let ghost parts = mac@.map_values(|b: u8| text::hex_byte(b));
    let mut out: String = String::new();
    push_hex_byte(&mut out, mac[0]);
    proof {
        assert(parts.take(1).len() == 1);
        assert(out@ =~= text::join(parts.take(1), ':'));
    }
    let mut i: usize = 1;
    while i < 6
        invariant
            1 <= i <= 6,
            parts == mac@.map_values(|b: u8| text::hex_byte(b)),
            out@ == text::join(parts.take(i as int), ':'),
        decreases 6 - i,
    {
        let ghost before = out@;
        out.push(':');
        push_hex_byte(&mut out, mac[i]);
        proof {
            let t = parts.take(i + 1);
            assert(t.drop_last() =~= parts.take(i as int));
            assert(t.last() == text::hex_byte(mac@[i as int]));
            assert(out@ =~= before.push(':') + t.last());
        }
        i = i + 1;
    }
    proof {
        assert(parts.take(6) =~= parts);
    }
    out
}

/// The MAC that a text stands for: six hexadecimal bytes parted by colons.
pub open spec fn mac_of(s: Seq<char>) -> Option<Seq<u8>> {
    let parts = text::split(s, ':');
    if parts.len() == 6 && forall|i: int|
        0 <= i < 6 ==> text::bounded_value(#[trigger] parts[i], 16, 255) is Some {
        Some(Seq::new(6, |i: int| text::bounded_value(parts[i], 16, 255)->0 as u8))
    } else {
        None
    }
}

/// Parse a colon-separated hex MAC (as produced by [`mac_hex`]).
pub fn parse_mac_hex(s: &str) -> (r: Option<[u8; 6]>)
    ensures
        match r {
            Some(mac) => mac_of(s@) == Some(mac@),
            None => mac_of(s@) is None,
        },
{
    let chars: Vec<char> = chars_of(s);
    let parts: Vec<Vec<char>> = split_chars(&chars, ':');
    let ghost views = text::split(s@, ':');
    proof {
        assert(parts@.map_values(|v: Vec<char>| v@) == views);
        assert(parts@.len() == views.len());
    }
    if parts.len() != 6 {
        return None;
    }
    let mut out: [u8; 6] = [0, 0, 0, 0, 0, 0];
    let mut i: usize = 0;
    while i < 6
        invariant
            i <= 6,
            parts@.len() == 6,
            views == text::split(s@, ':'),
            parts@.map_values(|v: Vec<char>| v@) == views,
            forall|j: int|
                0 <= j < i ==> text::bounded_value(#[trigger] views[j], 16, 255) == Some(
                    out@[j] as nat,
                ),
        decreases 6 - i,
    {
        proof {
            assert(parts@.map_values(|v: Vec<char>| v@)[i as int] == parts@[i as int]@);
        }
        match parse_bounded(&parts[i], 16, 255) {
            Some(b) => {
                out[i] = b as u8;
            },
            None => {
                proof {
                    assert(text::bounded_value(views[i as int], 16, 255) is None);
                }
                return None;
            },
        }
        i = i + 1;
    }
    proof {
        assert(out@ =~= mac_of(s@)->0);
    }
    Some(out)
}

/// Parsing gives back the MAC that was rendered.
pub proof fn mac_round_trip(mac: Seq<u8>)
    requires
        mac.len() == 6,
    ensures
        mac_of(mac_text(mac)) == Some(mac),
{
    let parts = mac.map_values(|b: u8| text::hex_byte(b));
    assert forall|i: int| 0 <= i < parts.len() implies !(#[trigger] parts[i]).contains(':') by {
        let h = text::hex_byte(mac[i]);
        if h.contains(':') {
            let k = h.index_of(':');
            assert(h[k] == ':');
            assert(k == 0 || k == 1);
        }
    }
    text::split_undoes_join(parts, ':');
    assert forall|i: int| 0 <= i < 6 implies text::bounded_value(#[trigger] parts[i], 16, 255)
        == Some(mac[i] as nat) by {
        text::hex_byte_round_trip(mac[i]);
    }
    assert(mac_of(mac_text(mac))->0 =~= mac);
}

/// A list of records holds what it says last under an id.
pub proof fn last_record_counts(list: Seq<(Seq<char>, RecordView)>, id: Seq<char>, i: int)
    requires
        0 <= i < list.len(),
        list[i].0 == id,
        forall|j: int| i < j < list.len() ==> (#[trigger] list[j]).0 != id,
    ensures
        records_of(list).contains_key(id),
        records_of(list)[id] == list[i].1,
    decreases list.len(),
{
    let n = list.len() - 1;
    if i < n {
        let init = list.drop_last();
        assert(list[n].0 != id);
        assert(init[i].0 == id);
        assert forall|j: int| i < j < init.len() implies (#[trigger] init[j]).0 != id by {
            assert(list[j].0 != id);
        }
        last_record_counts(init, id, i);
    }
}

/// A list of records holds nothing under an id that it does not name.
pub proof fn unnamed_records_are_not_held(list: Seq<(Seq<char>, RecordView)>, id: Seq<char>)
    requires
        forall|j: int| 0 <= j < list.len() ==> (#[trigger] list[j]).0 != id,
    ensures
        !records_of(list).contains_key(id),
    decreases list.len(),
{
    if list.len() > 0 {
        let init = list.drop_last();
        assert(list[list.len() - 1].0 != id);
        assert forall|j: int| 0 <= j < init.len() implies (#[trigger] init[j]).0 != id by {
            assert(list[j].0 != id);
        }
        unnamed_records_are_not_held(init, id);
    }
}

/// A new record holds the volume and the delay that were reported, and nothing else;
/// of a client of which nothing is known full volume and no delay are taken.
pub proof fn new_records_hold_what_was_reported(
    m: Map<Seq<char>, RecordView>,
    id: Seq<char>,
    volume: Volume,
    delay_ms: u32,
)
    ensures
        ({
            let r = plain_record(volume, delay_ms);
            &&& r.volume == volume
            &&& r.delay_ms == delay_ms
            &&& r.name is None
            &&& r.source is None
            &&& r.group is None
            &&& r.channel_map.len() == 0
        }),
        m.contains_key(id) ==> known(m, id) == m[id],
        !m.contains_key(id) ==> known(m, id).volume.units == 0x100_0000_0000 && known(
            m,
            id,
        ).delay_ms == 0 && known(m, id).source is None && known(m, id).group is None && known(
            m,
            id,
        ).name is None && known(m, id).channel_map.len() == 0,
{
}

/// Clearing a group takes its members out of it and changes nothing else of any
/// record, and no record comes or goes.
pub proof fn clearing_changes_the_group_alone(
    m: Map<Seq<char>, RecordView>,
    group: Seq<char>,
    id: Seq<char>,
)
    ensures
        without_group(m, group).contains_key(id) <==> m.contains_key(id),
        m.contains_key(id) ==> without_group(m, group)[id] == (RecordView {
            group: without_group(m, group)[id].group,
            ..m[id]
        }),
        m.contains_key(id) && m[id].group == Some(group) ==> without_group(m, group)[id].group
            is None,
        m.contains_key(id) && m[id].group != Some(group) ==> without_group(m, group)[id].group
            == m[id].group,
{
}

/// A MAC is written as six pairs of lower-case digits with a colon between each two.
pub proof fn macs_are_pairs_of_digits(mac: Seq<u8>, i: int)
    requires
        mac.len() == 6,
        0 <= i < 6,
    ensures
        text::split(mac_text(mac), ':').len() == 6,
        text::split(mac_text(mac), ':')[i].len() == 2,
        forall|k: int|
            0 <= k < 2 ==> {
                let c = #[trigger] text::split(mac_text(mac), ':')[i][k];
                '0' <= c <= '9' || 'a' <= c <= 'f'
            },
        text::unsigned_value(text::split(mac_text(mac), ':')[i], 16) == Some(mac[i] as nat),
{
    let parts = mac.map_values(|b: u8| text::hex_byte(b));
    assert forall|k: int| 0 <= k < parts.len() implies !(#[trigger] parts[k]).contains(':') by {
        assert forall|n: int| 0 <= n < parts[k].len() implies parts[k][n] != ':' by {}
    }
    text::split_undoes_join(parts, ':');
    text::hex_byte_round_trip(mac[i]);
}

/// A text is a MAC only if it has six parts between colons, each the number that the
/// MAC has there.
pub proof fn macs_have_six_parts(s: Seq<char>)
    ensures
        mac_of(s) matches Some(mac) ==> {
            &&& mac.len() == 6
            &&& text::split(s, ':').len() == 6
            &&& forall|i: int|
                0 <= i < 6 ==> text::unsigned_value(#[trigger] text::split(s, ':')[i], 16) == Some(
                    mac[i] as nat,
                )
        },
{
    if mac_of(s) is Some {
        let parts = text::split(s, ':');
        assert forall|i: int| 0 <= i < 6 implies text::unsigned_value(
            #[trigger] text::split(s, ':')[i],
            16,
        ) == Some((mac_of(s)->0)[i] as nat) by {
            assert(text::bounded_value(parts[i], 16, 255) is Some);
        }
    }
}

} // verus!
