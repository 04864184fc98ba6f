//! Per-player voice-chat state, voice groups and the volume categories on
//! offer, as the server keeps them.
use std::collections::HashMap;
use vstd::prelude::*;
use vstd::std_specs::iter::IteratorSpec;

use crate::config::CategoryConfig;
use crate::packets::VolumeCategory;
use crate::rate_limiter::PacketRateLimiter;
use crate::secret::Secret;

verus! {

broadcast use vstd::std_specs::hash::group_hash_axioms;

/// A player's UDP endpoint.
#[derive(Debug, Clone, Copy, PartialEq, Eq, Structural)]
pub enum PeerAddress {
    /// An IPv4 address (its four octets, first one most significant) and port.
    V4 { ip4: u32, port: u16 },
    /// An IPv6 address (its sixteen octets, first one most significant),
    /// port, flow information and scope.
    V6 { ip6: u128, port: u16, flowinfo: u32, scope_id: u32 },
}

/// What the server knows of a connected player.
#[derive(Debug)]
pub struct PlayerState {
    pub uuid: u128,
    pub name: String,
    pub disconnected: bool,
    pub disabled: bool,
    pub group: Option<u128>,
    pub secret: Secret,
    pub socket_addr: Option<PeerAddress>,
}

impl Clone for PlayerState {
    fn clone(&self) -> (r: Self)
        ensures
            r == *self,
    {
        PlayerState {
            uuid: self.uuid,
            name: self.name.clone(),
            disconnected: self.disconnected,
            disabled: self.disabled,
            group: self.group,
            secret: self.secret,
            socket_addr: self.socket_addr,
        }
    }
}

pub fn clone_opt_string(s: &Option<String>) -> (r: Option<String>)
    ensures
        r == *s,
{
    match s {
        Some(x) => Some(x.clone()),
        None => None,
    }
}

/// A voice group.
#[derive(Debug)]
pub struct Group {
    pub id: u128,
    pub name: String,
    pub password: Option<String>,
    pub persistent: bool,
    pub hidden: bool,
    pub group_type: i32,
}

impl Clone for Group {
    fn clone(&self) -> (r: Self)
        ensures
            r == *self,
    {
        Group {
            id: self.id,
            name: self.name.clone(),
            password: clone_opt_string(&self.password),
            persistent: self.persistent,
            hidden: self.hidden,
            group_type: self.group_type,
        }
    }
}

/// `items` lists the values of `m` in some order, each key's value once.
pub open spec fn lists_values<V>(items: Seq<V>, m: Map<u128, V>) -> bool {
    exists|keys: Seq<u128>|
        #![trigger keys.to_set()]
        {
            &&& keys.no_duplicates()
            &&& keys.to_set() == m.dom()
            &&& items.len() == keys.len()
            &&& forall|i: int| 0 <= i < keys.len() ==> items[i] == m[#[trigger] keys[i]]
        }
}

/// The values of a map, in the order the map hands them out.
pub fn player_values(m: &HashMap<u128, PlayerState>) -> (r: Vec<PlayerState>)
    ensures
        lists_values(r@, m@),
{
    let mut out: Vec<PlayerState> = Vec::new();
    let ghost mut keys: Seq<u128> = Seq::empty();
    let ghost v = vstd::std_specs::hash::spec_hash_map_iter(m).remaining();
    for entry in it: m.iter()
        invariant
            it.seq() == v,
            out@.len() == it.index(),
            keys.len() == it.index(),
            forall|i: int| 0 <= i < it.index() ==> keys[i] == *it.seq()[i].0,
            forall|i: int| 0 <= i < it.index() ==> out@[i] == *it.seq()[i].1,
    {
        proof {
            keys = keys.push(*entry.0);
        }
        out.push(entry.1.clone());
    }
    proof {
        assert(v.len() == m@.dom().len());
        assert(keys.len() == v.len());
        assert forall|i: int| 0 <= i < keys.len() implies m@.contains_key(#[trigger] keys[i])
            && out@[i] == m@[keys[i]] by {
            assert(m@.contains_key(*v[i].0));
        }
        assert forall|i: int, j: int|
            0 <= i < keys.len() && 0 <= j < keys.len() && i != j implies keys[i] != keys[j] by {
            if keys[i] == keys[j] {
                assert(*v[i].1 == m@[keys[i]]);
                assert(*v[j].1 == m@[keys[j]]);
                assert(v[i] == v[j]);
            }
        }
        assert(keys.no_duplicates());
        assert forall|k: u128| #[trigger] m@.dom().contains(k) implies keys.to_set().contains(k) by {
            assert(v.contains((&k, &m@[k])));
            let i = choose|i: int| 0 <= i < v.len() && v[i] == (&k, &m@[k]);
            assert(keys[i] == k);
        }
        assert(keys.to_set() =~= m@.dom());
    }
    out
}


/// The value of `m` at `k`, if any.
pub open spec fn lookup<V>(m: Map<u128, V>, k: u128) -> Option<V> {
    if m.contains_key(k) {
        Some(m[k])
    } else {
        None
    }
}

/// The keys of a map, each once.
pub fn map_keys<V>(m: &HashMap<u128, V>) -> (r: Vec<u128>)
    ensures
        r@.no_duplicates(),
        r@.to_set() == m@.dom(),
{
    let mut out: Vec<u128> = Vec::new();
    let ghost v = vstd::std_specs::hash::spec_keys_iter(m).remaining();
    for k in it: m.keys()
        invariant
            it.seq() == v,
            out@.len() == it.index(),
            forall|i: int| 0 <= i < it.index() ==> out@[i] == *it.seq()[i],
    {
        out.push(*k);
    }
    proof {
        assert(out@ =~= v.unref());
    }
    out
}


/// `items` lists, in some order and once per player, the endpoint and
/// secret of every player whose endpoint is known.
pub open spec fn lists_keep_alive_targets(
    items: Seq<(PeerAddress, Secret)>,
    m: Map<u128, PlayerState>,
) -> bool {
    exists|keys: Seq<u128>|
        #![trigger keys.to_set()]
        {
            &&& keys.no_duplicates()
            &&& keys.to_set() == m.dom().filter(|k: u128| m[k].socket_addr is Some)
            &&& items.len() == keys.len()
            &&& forall|i: int|
                0 <= i < keys.len() ==> items[i] == (
                    m[#[trigger] keys[i]].socket_addr.unwrap(),
                    m[keys[i]].secret,
                )
        }
}

/// Whether some player is in group `g`.
pub open spec fn has_members(players: Map<u128, PlayerState>, g: u128) -> bool {
    exists|k: u128| #[trigger] players.contains_key(k) && players[k].group == Some(g)
}

/// The category a configuration entry declares.
pub open spec fn category_of(c: CategoryConfig) -> VolumeCategory {
    VolumeCategory { id: c.id, name: c.name, description: c.description }
}

/// The table with `c` in place of the entry of the same id, or added at the
/// end when there is none.
pub open spec fn with_category(t: Seq<VolumeCategory>, c: VolumeCategory) -> Seq<VolumeCategory>
    decreases t.len(),
{
    if t.len() == 0 {
        seq![c]
    } else if t[0].id@ == c.id@ {
        seq![c] + t.drop_first()
    } else {
        seq![t[0]] + with_category(t.drop_first(), c)
    }
}

/// The categories that a list of configuration entries declares; a later
/// entry replaces an earlier one of the same id.
pub open spec fn category_table(cfgs: Seq<CategoryConfig>) -> Seq<VolumeCategory>
    decreases cfgs.len(),
{
    if cfgs.len() == 0 {
        Seq::empty()
    } else {
        with_category(category_table(cfgs.drop_last()), category_of(cfgs.last()))
    }
}

proof fn lemma_with_category_found(t: Seq<VolumeCategory>, c: VolumeCategory, i: int)
    requires
        0 <= i < t.len(),
        t[i].id@ == c.id@,
        forall|j: int| 0 <= j < i ==> t[j].id@ != c.id@,
    ensures
        with_category(t, c) == t.update(i, c),
    decreases i,
{
    if i == 0 {
        assert(with_category(t, c) =~= t.update(0, c));
    } else {
        let d = t.drop_first();
        lemma_with_category_found(d, c, i - 1);
        assert(with_category(t, c) =~= t.update(i, c));
    }
}

proof fn lemma_with_category_absent(t: Seq<VolumeCategory>, c: VolumeCategory)
    requires
        forall|j: int| 0 <= j < t.len() ==> t[j].id@ != c.id@,
    ensures
        with_category(t, c) == t.push(c),
    decreases t.len(),
{
    if t.len() == 0 {
        assert(with_category(t, c) =~= t.push(c));
    } else {
        let d = t.drop_first();
        lemma_with_category_absent(d, c);
        assert(with_category(t, c) =~= t.push(c));
    }
}

/// No two categories of the table share an id.
pub open spec fn distinct_category_ids(t: Seq<VolumeCategory>) -> bool {
    forall|i: int, j: int| 0 <= i < j < t.len() ==> #[trigger] t[i].id@ != #[trigger] t[j].id@
}

/// Putting a category in a table whose ids are distinct keeps them
/// distinct; every entry of the new table is the category put or an entry
/// of the old one.
proof fn lemma_with_category_distinct(t: Seq<VolumeCategory>, c: VolumeCategory)
    requires
        distinct_category_ids(t),
    ensures
        distinct_category_ids(with_category(t, c)),
        forall|k: int|
            0 <= k < with_category(t, c).len() ==> #[trigger] with_category(t, c)[k] == c
                || t.contains(with_category(t, c)[k]),
    decreases t.len(),
{
    let w = with_category(t, c);
    if t.len() == 0 {
    } else if t[0].id@ == c.id@ {
        let d = t.drop_first();
        assert(w =~= seq![c] + d);
        assert forall|i: int, j: int| 0 <= i < j < w.len() implies #[trigger] w[i].id@
            != #[trigger] w[j].id@ by {
            assert(w[j] == t[j]);
            if i > 0 {
                assert(w[i] == t[i]);
            }
        }
        assert forall|k: int| 0 <= k < w.len() implies #[trigger] w[k] == c || t.contains(w[k]) by {
            if k > 0 {
                assert(w[k] == t[k]);
            }
        }
    } else {
        let d = t.drop_first();
        let w1 = with_category(d, c);
        assert(distinct_category_ids(d)) by {
            assert forall|i: int, j: int| 0 <= i < j < d.len() implies #[trigger] d[i].id@
                != #[trigger] d[j].id@ by {
                assert(d[i] == t[i + 1] && d[j] == t[j + 1]);
            }
        }
        lemma_with_category_distinct(d, c);
        assert(w =~= seq![t[0]] + w1);
        assert forall|i: int, j: int| 0 <= i < j < w.len() implies #[trigger] w[i].id@
            != #[trigger] w[j].id@ by {
            assert(w[j] == w1[j - 1]);
            if i > 0 {
                assert(w[i] == w1[i - 1]);
            } else {
                if w1[j - 1] != c {
                    assert(d.contains(w1[j - 1]));
                    let m = choose|m: int| 0 <= m < d.len() && d[m] == w1[j - 1];
                    assert(t[m + 1] == d[m]);
                }
            }
        }
        assert forall|k: int| 0 <= k < w.len() implies #[trigger] w[k] == c || t.contains(w[k]) by {
            if k == 0 {
                assert(w[0] == t[0]);
            } else {
                assert(w[k] == w1[k - 1]);
                if w1[k - 1] != c {
                    assert(d.contains(w1[k - 1]));
                    let m = choose|m: int| 0 <= m < d.len() && d[m] == w1[k - 1];
                    assert(t[m + 1] == d[m]);
                }
            }
        }
    }
}

/// A category table built from configuration entries never holds an id
/// twice.
pub proof fn lemma_category_table_distinct(cfgs: Seq<CategoryConfig>)
    ensures
        distinct_category_ids(category_table(cfgs)),
    decreases cfgs.len(),
{
    if cfgs.len() > 0 {
        lemma_category_table_distinct(cfgs.drop_last());
        lemma_with_category_distinct(category_table(cfgs.drop_last()), category_of(cfgs.last()));
    }
}

fn put_category(table: &mut Vec<VolumeCategory>, c: VolumeCategory)
    ensures
        final(table)@ == with_category(old(table)@, c),
{
    let mut i: usize = 0;
    while i < table.len()
        invariant
            table@ == old(table)@,
            i <= table@.len(),
            forall|j: int| 0 <= j < i ==> table@[j].id@ != c.id@,
        decreases table@.len() - i,
    {
        if table[i].id == c.id {
            proof {
                lemma_with_category_found(old(table)@, c, i as int);
            }
            table[i] = c;
            return ;
        }
        i = i + 1;
    }
    proof {
        lemma_with_category_absent(old(table)@, c);
    }
    table.push(c);
}

/// Every group is kept under its own id.
pub open spec fn groups_keyed(m: Map<u128, Group>) -> bool {
    forall|k: u128| #[trigger] m.contains_key(k) ==> m[k].id == k
}

/// The voice-chat state of the server: its players, its groups, the
/// volume categories on offer, and the UDP rate limiter.
pub struct StateManager {
    states: HashMap<u128, PlayerState>,
    groups: HashMap<u128, Group>,
    categories: Vec<VolumeCategory>,
    rate_limiter: PacketRateLimiter,
}

impl StateManager {
    pub closed spec fn players(&self) -> Map<u128, PlayerState> {
        self.states@
    }

    pub closed spec fn groups(&self) -> Map<u128, Group> {
        self.groups@
    }

    pub closed spec fn categories(&self) -> Seq<VolumeCategory> {
        self.categories@
    }

    /// The UDP rate limiter.
    pub closed spec fn limiter(&self) -> PacketRateLimiter {
        self.rate_limiter
    }

    /// The rate limiter's buckets are its own, every group is kept under
    /// its own id, and no two categories share an id.
    pub open spec fn wf(&self) -> bool {
        &&& self.limiter().wf()
        &&& groups_keyed(self.groups())
        &&& distinct_category_ids(self.categories())
    }

    /// Whether the rate limits can be applied (see `PacketRateLimiter::usable`).
    pub fn limits_usable(&self) -> (r: bool)
        ensures
            r == self.limiter().usable(),
    {
        self.rate_limiter.limits_usable()
    }

    /// Whether a UDP packet of `player` arriving now passes the rate limit
    /// (see `PacketRateLimiter::allow`).
    pub fn allow_packet(&mut self, player: u128) -> (r: bool)
        requires
            old(self).wf(),
            old(self).limiter().usable(),
        ensures
            final(self).wf(),
            exists|now: u64|
                (final(self).limiter().buckets(), r) == #[trigger] crate::rate_limiter::allow_outcome(
                    old(self).limiter().max_packets_per_second(),
                    old(self).limiter().threshold(),
                    old(self).limiter().window_ns(),
                    old(self).limiter().buckets(),
                    player,
                    now,
                ),
            old(self).limiter().max_packets_per_second() <= 0 ==> r,
            final(self).limiter().max_packets_per_second() == old(self).limiter().max_packets_per_second(),
            final(self).limiter().threshold() == old(self).limiter().threshold(),
            final(self).limiter().window_ns() == old(self).limiter().window_ns(),
            final(self).players() == old(self).players(),
            final(self).groups() == old(self).groups(),
            final(self).categories() == old(self).categories(),
    {
        self.rate_limiter.allow(player)
    }

    /// Forgets the rate-limit bucket of a player who left.
    pub fn on_player_logged_out(&mut self, player: u128)
        requires
            old(self).wf(),
        ensures
            final(self).wf(),
            final(self).limiter().buckets() == old(self).limiter().buckets().remove(player),
            final(self).limiter().max_packets_per_second() == old(self).limiter().max_packets_per_second(),
            final(self).limiter().threshold() == old(self).limiter().threshold(),
            final(self).limiter().window_ns() == old(self).limiter().window_ns(),
            final(self).players() == old(self).players(),
            final(self).groups() == old(self).groups(),
            final(self).categories() == old(self).categories(),
    {
        self.rate_limiter.on_player_logged_out(player);
    }

    /// No players and no groups yet; the categories that `categories`
    /// declares; a rate limiter of `max_packets_per_second` (see
    /// `PacketRateLimiter::new` for `threshold`).
    pub fn new(categories: &[CategoryConfig], max_packets_per_second: i32, threshold: u64) -> (r:
        StateManager)
        ensures
            r.players() == Map::<u128, PlayerState>::empty(),
            r.groups() == Map::<u128, Group>::empty(),
            r.categories() == category_table(categories@),
            r.limiter().buckets() == Map::<u128, crate::rate_limiter::RateLimiter>::empty(),
            r.limiter().max_packets_per_second() == max_packets_per_second,
            r.limiter().threshold() == (if max_packets_per_second > 0 {
                threshold
            } else {
                0
            }),
            r.limiter().window_ns() == crate::rate_limiter::TIME_WINDOW_NANOS,
            r.wf(),
    {
        proof {
            lemma_category_table_distinct(categories@);
        }
        let mut cats: Vec<VolumeCategory> = Vec::new();
        let mut i: usize = 0;
        while i < categories.len()
            invariant
                i <= categories@.len(),
                cats@ == category_table(categories@.take(i as int)),
            decreases categories@.len() - i,
        {
            let cfg = &categories[i];
            let c = VolumeCategory {
                id: cfg.id.clone(),
                name: cfg.name.clone(),
                description: clone_opt_string(&cfg.description),
            };
            put_category(&mut cats, c);
            proof {
                let t = categories@.take(i + 1);
                assert(t.drop_last() =~= categories@.take(i as int));
            }
            i = i + 1;
        }
        assert(categories@.take(categories@.len() as int) =~= categories@);
        StateManager {
            states: HashMap::new(),
            groups: HashMap::new(),
            categories: cats,
            rate_limiter: PacketRateLimiter::new(max_packets_per_second, threshold),
        }
    }

    /// Registers a joining player under a fresh random secret, which it
    /// returns: connected, voice chat enabled, in no group, endpoint unknown.
    pub fn add_player_sync(&mut self, uuid: u128, name: String) -> (r: Secret)
        ensures
            old(self).wf() ==> final(self).wf(),
            final(self).players() == old(self).players().insert(
                uuid,
                PlayerState {
                    uuid,
                    name,
                    disconnected: false,
                    disabled: false,
                    group: None,
                    secret: r,
                    socket_addr: None,
                },
            ),
            final(self).groups() == old(self).groups(),
            final(self).categories() == old(self).categories(),
            final(self).limiter() == old(self).limiter(),
    {
        let secret = Secret::generate();
        let state = PlayerState {
            uuid,
            name,
            disconnected: false,
            disabled: false,
            group: None,
            secret,
            socket_addr: None,
        };
        self.states.insert(uuid, state);
        secret
    }

    pub fn remove_player_sync(&mut self, uuid: &u128)
        ensures
            old(self).wf() ==> final(self).wf(),
            final(self).players() == old(self).players().remove(*uuid),
            final(self).groups() == old(self).groups(),
            final(self).categories() == old(self).categories(),
            final(self).limiter() == old(self).limiter(),
    {
        self.states.remove(uuid);
    }

    pub fn get_player_sync(&self, uuid: &u128) -> (r: Option<PlayerState>)
        ensures
            r == lookup(self.players(), *uuid),
    {
        match self.states.get(uuid) {
            Some(s) => Some(s.clone()),
            None => None,
        }
    }

    /// Sets a known player's connection flags; an unknown player is ignored.
    pub fn update_state_sync(&mut self, uuid: &u128, disconnected: bool, disabled: bool)
        ensures
            old(self).wf() ==> final(self).wf(),
            final(self).players() == if old(self).players().contains_key(*uuid) {
                old(self).players().insert(
                    *uuid,
                    PlayerState { disconnected, disabled, ..old(self).players()[*uuid] },
                )
            } else {
                old(self).players()
            },
            final(self).groups() == old(self).groups(),
            final(self).categories() == old(self).categories(),
            final(self).limiter() == old(self).limiter(),
    {
        let found = match self.states.get(uuid) {
            Some(s) => Some(s.clone()),
            None => None,
        };
        if let Some(mut state) = found {
            state.disconnected = disconnected;
            state.disabled = disabled;
            self.states.insert(*uuid, state);
        }
    }

    /// Records a known player's UDP endpoint; an unknown player is ignored.
    pub fn update_player_addr_sync(&mut self, uuid: &u128, addr: PeerAddress)
        ensures
            old(self).wf() ==> final(self).wf(),
            final(self).players() == if old(self).players().contains_key(*uuid) {
                old(self).players().insert(
                    *uuid,
                    PlayerState { socket_addr: Some(addr), ..old(self).players()[*uuid] },
                )
            } else {
                old(self).players()
            },
            final(self).groups() == old(self).groups(),
            final(self).categories() == old(self).categories(),
            final(self).limiter() == old(self).limiter(),
    {
        let found = match self.states.get(uuid) {
            Some(s) => Some(s.clone()),
            None => None,
        };
        if let Some(mut state) = found {
            state.socket_addr = Some(addr);
            self.states.insert(*uuid, state);
        }
    }

    /// Puts a known player in a group, or in none; an unknown player is
    /// ignored.
    pub fn set_player_group_sync(&mut self, player_uuid: &u128, group_id: Option<u128>)
        ensures
            old(self).wf() ==> final(self).wf(),
            final(self).players() == if old(self).players().contains_key(*player_uuid) {
                old(self).players().insert(
                    *player_uuid,
                    PlayerState { group: group_id, ..old(self).players()[*player_uuid] },
                )
            } else {
                old(self).players()
            },
            final(self).groups() == old(self).groups(),
            final(self).categories() == old(self).categories(),
            final(self).limiter() == old(self).limiter(),
    {
        let found = match self.states.get(player_uuid) {
            Some(s) => Some(s.clone()),
            None => None,
        };
        if let Some(mut state) = found {
            state.group = group_id;
            self.states.insert(*player_uuid, state);
        }
    }

    /// Every player's state, in no particular order.
    pub fn get_all_players_sync(&self) -> (r: Vec<PlayerState>)
        ensures
            lists_values(r@, self.players()),
    {
        player_values(&self.states)
    }

    /// The endpoint and secret of every player whose endpoint is known, in
    /// no particular order.
    pub fn get_keep_alive_targets_sync(&self) -> (r: Vec<(PeerAddress, Secret)>)
        ensures
            lists_keep_alive_targets(r@, self.players()),
    {
        let keys = map_keys(&self.states);
        let ghost m = self.states@;
        let mut out: Vec<(PeerAddress, Secret)> = Vec::new();
        let ghost mut picked: Seq<u128> = Seq::empty();
        let mut i: usize = 0;
        while i < keys.len()
            invariant
                m == self.states@,
                keys@.no_duplicates(),
                keys@.to_set() == m.dom(),
                i <= keys@.len(),
                picked.no_duplicates(),
                out@.len() == picked.len(),
                forall|j: int| 0 <= j < picked.len() ==> m.contains_key(#[trigger] picked[j])
                    && m[picked[j]].socket_addr is Some && out@[j] == (
                    m[picked[j]].socket_addr.unwrap(),
                    m[picked[j]].secret,
                ),
                forall|j: int|
                    0 <= j < picked.len() ==> exists|l: int| 0 <= l < i && keys@[l] == #[trigger] picked[j],
                forall|l: int|
                    0 <= l < i && m[#[trigger] keys@[l]].socket_addr is Some ==> picked.contains(
                        keys@[l],
                    ),
            decreases keys@.len() - i,
        {
            let k = keys[i];
            let ghost before = picked;
            proof {
                assert(keys@.to_set().contains(k));
            }
            match self.states.get(&k) {
                Some(st) => {
                    if let Some(addr) = st.socket_addr {
                        proof {
                            assert(!picked.contains(k)) by {
                                if picked.contains(k) {
                                    let j = choose|j: int| 0 <= j < picked.len() && picked[j] == k;
                                    let l = choose|l: int| 0 <= l < i && keys@[l] == picked[j];
                                    assert(keys@[l] == keys@[i as int]);
                                }
                            }
                            picked = picked.push(k);
                        }
                        out.push((addr, st.secret));
                    }
                },
                None => {},
            }
            proof {
                assert forall|x: u128| before.contains(x) implies picked.contains(x) by {
                    let j = choose|j: int| 0 <= j < before.len() && before[j] == x;
                    assert(picked[j] == x);
                }
                if m[k].socket_addr is Some {
                    assert(picked[picked.len() - 1] == k);
                }
            }
            i = i + 1;
        }
        proof {
            let f = m.dom().filter(|k: u128| m[k].socket_addr is Some);
            assert forall|k: u128| f.contains(k) implies picked.to_set().contains(k) by {
                assert(keys@.to_set().contains(k));
                let l = choose|l: int| 0 <= l < keys@.len() && keys@[l] == k;
                assert(picked.contains(keys@[l]));
            }
            assert forall|k: u128| picked.to_set().contains(k) implies f.contains(k) by {
                let j = choose|j: int| 0 <= j < picked.len() && picked[j] == k;
                assert(m.contains_key(picked[j]));
            }
            assert(picked.to_set() =~= f);
        }
        out
    }

    pub fn add_group_sync(&mut self, group: Group)
        ensures
            old(self).wf() ==> final(self).wf(),
            final(self).groups() == old(self).groups().insert(group.id, group),
            final(self).players() == old(self).players(),
            final(self).categories() == old(self).categories(),
            final(self).limiter() == old(self).limiter(),
    {
        let id = group.id;
        self.groups.insert(id, group);
    }

    pub fn get_group_sync(&self, id: &u128) -> (r: Option<Group>)
        ensures
            r == lookup(self.groups(), *id),
    {
        match self.groups.get(id) {
            Some(g) => Some(g.clone()),
            None => None,
        }
    }

    /// A group of that name, if there is one; which one, when several
    /// share the name, depends on the map's order.
    pub fn get_group_by_name_sync(&self, name: &str) -> (r: Option<Group>)
        ensures
            match r {
                Some(g) => g.name@ == name@ && exists|k: u128| #[trigger]
                    self.groups().contains_key(k) && self.groups()[k] == g,
                None => forall|k: u128| #[trigger]
                    self.groups().contains_key(k) ==> self.groups()[k].name@ != name@,
            },
    {
        let keys = map_keys(&self.groups);
        let mut i: usize = 0;
        while i < keys.len()
            invariant
                keys@.to_set() == self.groups@.dom(),
                i <= keys@.len(),
                forall|l: int| 0 <= l < i ==> self.groups@[#[trigger] keys@[l]].name@ != name@,
            decreases keys@.len() - i,
        {
            let k = keys[i];
            proof {
                assert(keys@.to_set().contains(k));
            }
            match self.groups.get(&k) {
                Some(g) => {
                    if crate::config::str_eq(g.name.as_str(), name) {
                        return Some(g.clone());
                    }
                },
                None => {},
            }
            i = i + 1;
        }
        proof {
            assert forall|k: u128| #[trigger]
                self.groups@.contains_key(k) implies self.groups@[k].name@ != name@ by {
                assert(keys@.to_set().contains(k));
                let l = choose|l: int| 0 <= l < keys@.len() && keys@[l] == k;
                assert(self.groups@[keys@[l]].name@ != name@);
            }
        }
        None
    }

    /// Every group, in no particular order.
    pub fn get_all_groups_sync(&self) -> (r: Vec<Group>)
        ensures
            lists_values(r@, self.groups()),
    {
        let keys = map_keys(&self.groups);
        let mut out: Vec<Group> = Vec::new();
        let mut i: usize = 0;
        while i < keys.len()
            invariant
                keys@.to_set() == self.groups@.dom(),
                keys@.no_duplicates(),
                i <= keys@.len(),
                out@.len() == i,
                forall|l: int| 0 <= l < i ==> out@[l] == self.groups@[#[trigger] keys@[l]],
            decreases keys@.len() - i,
        {
            let k = keys[i];
            proof {
                assert(keys@.to_set().contains(k));
            }
            match self.groups.get(&k) {
                Some(g) => {
                    out.push(g.clone());
                },
                None => {},
            }
            i = i + 1;
        }
        proof {
            assert(keys@.to_set() == self.groups@.dom());
        }
        out
    }

    /// The volume categories on offer.
    pub fn get_categories_sync(&self) -> (r: Vec<VolumeCategory>)
        ensures
            r@ == self.categories(),
    {
        let mut out: Vec<VolumeCategory> = Vec::new();
        let mut i: usize = 0;
        while i < self.categories.len()
            invariant
                i <= self.categories@.len(),
                out@ == self.categories@.take(i as int),
            decreases self.categories@.len() - i,
        {
            out.push(self.categories[i].clone());
            proof {
                assert(out@ =~= self.categories@.take(i + 1));
            }
            i = i + 1;
        }
        assert(self.categories@.take(self.categories@.len() as int) =~= self.categories@);
        out
    }

    pub fn remove_group_sync(&mut self, id: &u128)
        ensures
            old(self).wf() ==> final(self).wf(),
            final(self).groups() == old(self).groups().remove(*id),
            final(self).players() == old(self).players(),
            final(self).categories() == old(self).categories(),
            final(self).limiter() == old(self).limiter(),
    {
        self.groups.remove(id);
    }

    /// Whether some player is in group `group_id`.
    fn group_has_members(&self, group_id: u128) -> (r: bool)
        ensures
            r == has_members(self.players(), group_id),
    {
        let keys = map_keys(&self.states);
        let mut i: usize = 0;
        while i < keys.len()
            invariant
                keys@.to_set() == self.states@.dom(),
                i <= keys@.len(),
                forall|l: int| 0 <= l < i ==> self.states@[#[trigger] keys@[l]].group != Some(group_id),
            decreases keys@.len() - i,
        {
            let k = keys[i];
            proof {
                assert(keys@.to_set().contains(k));
            }
            match self.states.get(&k) {
                Some(st) => {
                    if st.group == Some(group_id) {
                        return true;
                    }
                },
                None => {},
            }
            i = i + 1;
        }
        proof {
            assert forall|k: u128| #[trigger] self.states@.contains_key(k) implies self.states@[k].group
                != Some(group_id) by {
                assert(keys@.to_set().contains(k));
                let l = choose|l: int| 0 <= l < keys@.len() && keys@[l] == k;
                assert(self.states@[keys@[l]].group != Some(group_id));
            }
        }
        false
    }

    /// Removes a group that has no members and is not persistent; says
    /// whether it did.
    pub fn remove_if_empty_sync(&mut self, group_id: &u128) -> (r: bool)
        ensures
            old(self).wf() ==> final(self).wf(),
            r == (!has_members(old(self).players(), *group_id) && old(self).groups().contains_key(
                *group_id,
            ) && !old(self).groups()[*group_id].persistent),
            final(self).groups() == if r {
                old(self).groups().remove(*group_id)
            } else {
                old(self).groups()
            },
            final(self).players() == old(self).players(),
            final(self).categories() == old(self).categories(),
            final(self).limiter() == old(self).limiter(),
    {
        let has_players = self.group_has_members(*group_id);
        if !has_players {
            let removable = match self.groups.get(group_id) {
                Some(g) => !g.persistent,
                None => false,
            };
            if removable {
                self.groups.remove(group_id);
                return true;
            }
        }
        false
    }
}

} // verus!
