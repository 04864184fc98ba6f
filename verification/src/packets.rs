//! The plugin-message packets exchanged with the client mod over the game
//! connection: what the server writes, and the requests it reads.
use vstd::prelude::*;

use crate::secret::Secret;
use crate::state::PlayerState;
use crate::wire::{
    be_bytes, enc_bool, enc_i16, enc_i32, enc_string, enc_u64, enc_u8, enc_uuid, put_be, put_bool,
    put_i16, put_i32, put_string, put_u64, put_u8, put_uuid, read_bool, read_i16, read_string,
    read_uuid, rest, get_bool, get_i16, get_string, get_uuid, lemma_bool_roundtrip,
    lemma_string_roundtrip, lemma_uuid_roundtrip, lemma_i16_roundtrip, lemma_u8_roundtrip,
};
use vstd::utf8::encode_utf8;

verus! {

/// The channel that carries the secret packet.
pub const SECRET_CHANNEL: &'static str = "voicechat:secret";

/// A volume category the client can show a slider for.
#[derive(Debug)]
pub struct VolumeCategory {
    pub id: String,
    pub name: String,
    pub description: Option<String>,
}

impl Clone for VolumeCategory {
    fn clone(&self) -> (r: Self)
        ensures
            r == *self,
    {
        VolumeCategory {
            id: self.id.clone(),
            name: self.name.clone(),
            description: crate::state::clone_opt_string(&self.description),
        }
    }
}

/// An optional UUID: a presence byte, then the UUID when present.
pub open spec fn enc_opt_uuid(u: Option<u128>) -> Seq<u8> {
    match u {
        Some(id) => enc_u8(1) + enc_uuid(id),
        None => enc_u8(0),
    }
}

/// An optional string: a presence byte, then the string when present.
pub open spec fn enc_opt_string(s: Option<Seq<char>>) -> Seq<u8> {
    match s {
        Some(t) => enc_u8(1) + enc_string(t),
        None => enc_u8(0),
    }
}

pub open spec fn opt_chars(s: Option<String>) -> Option<Seq<char>> {
    match s {
        Some(t) => Some(t@),
        None => None,
    }
}

/// A count as a signed 32-bit field: its low 32 bits.
pub open spec fn enc_count(n: nat) -> Seq<u8> {
    be_bytes(n % 0x1_0000_0000, 4)
}

fn put_opt_uuid(out: &mut Vec<u8>, u: Option<u128>)
    ensures
        final(out)@ == old(out)@ + enc_opt_uuid(u),
{
    match u {
        Some(id) => {
            put_u8(out, 1);
            put_uuid(out, id);
            assert(final(out)@ =~= old(out)@ + enc_opt_uuid(u));
        },
        None => {
            put_u8(out, 0);
        },
    }
}

fn put_opt_string(out: &mut Vec<u8>, s: &Option<String>)
    ensures
        final(out)@ == old(out)@ + enc_opt_string(opt_chars(*s)),
{
    match s {
        Some(t) => {
            put_u8(out, 1);
            put_string(out, t.as_str());
            assert(final(out)@ =~= old(out)@ + enc_opt_string(opt_chars(*s)));
        },
        None => {
            put_u8(out, 0);
        },
    }
}

/// The settings and secret a joining player receives.
pub struct SecretPacket {
    pub secret: Secret,
    pub server_port: i32,
    pub player_uuid: u128,
    pub codec: u8,
    pub mtu_size: i32,
    /// The maximum voice distance, as the bits of an IEEE 754 double.
    pub distance_bits: u64,
    pub keep_alive: i32,
    pub groups_enabled: bool,
    pub voice_host: String,
    pub allow_recording: bool,
}

impl SecretPacket {
    pub open spec fn spec_bytes(&self) -> Seq<u8> {
        enc_uuid(self.secret.uuid) + enc_i32(self.server_port) + enc_uuid(self.player_uuid)
            + enc_u8(self.codec) + enc_i32(self.mtu_size) + enc_u64(self.distance_bits) + enc_i32(
            self.keep_alive,
        ) + enc_bool(self.groups_enabled) + enc_string(self.voice_host@) + enc_bool(
            self.allow_recording,
        )
    }

    pub fn to_bytes(&self) -> (r: Vec<u8>)
        ensures
            r@ == self.spec_bytes(),
    {
        let mut buf: Vec<u8> = Vec::new();
        let key = self.secret.to_bytes();
        buf.extend_from_slice(key.as_slice());
        assert(buf@ =~= enc_uuid(self.secret.uuid));
        put_i32(&mut buf, self.server_port);
        put_uuid(&mut buf, self.player_uuid);
        put_u8(&mut buf, self.codec);
        put_i32(&mut buf, self.mtu_size);
        put_u64(&mut buf, self.distance_bits);
        put_i32(&mut buf, self.keep_alive);
        put_bool(&mut buf, self.groups_enabled);
        put_string(&mut buf, self.voice_host.as_str());
        put_bool(&mut buf, self.allow_recording);
        buf
    }
}

/// A request to create a group.
#[derive(Debug)]
pub struct CreateGroupPacket {
    pub name: String,
    pub password: Option<String>,
    pub group_type: i16,
}

/// A request to join a group.
#[derive(Debug)]
pub struct JoinGroupPacket {
    pub group: u128,
    pub password: Option<String>,
}

/// Announces a group.
pub struct AddGroupPacket<'a> {
    pub id: u128,
    pub name: &'a str,
    pub password: bool,
    pub persistent: bool,
    pub hidden: bool,
    pub group_type: i16,
}

impl<'a> AddGroupPacket<'a> {
    pub open spec fn spec_bytes(&self) -> Seq<u8> {
        enc_uuid(self.id) + enc_string(self.name@) + enc_bool(self.password) + enc_bool(
            self.persistent,
        ) + enc_bool(self.hidden) + enc_i16(self.group_type)
    }

    pub fn to_bytes(&self) -> (r: Vec<u8>)
        ensures
            r@ == self.spec_bytes(),
    {
        let mut buf: Vec<u8> = Vec::new();
        put_uuid(&mut buf, self.id);
        put_string(&mut buf, self.name);
        put_bool(&mut buf, self.password);
        put_bool(&mut buf, self.persistent);
        put_bool(&mut buf, self.hidden);
        put_i16(&mut buf, self.group_type);
        assert(buf@ =~= self.spec_bytes());
        buf
    }
}

/// Withdraws a group.
pub struct RemoveGroupPacket {
    pub group: u128,
}

impl RemoveGroupPacket {
    pub open spec fn spec_bytes(&self) -> Seq<u8> {
        enc_uuid(self.group)
    }

    pub fn to_bytes(&self) -> (r: Vec<u8>)
        ensures
            r@ == self.spec_bytes(),
    {
        let mut buf: Vec<u8> = Vec::new();
        put_uuid(&mut buf, self.group);
        assert(buf@ =~= self.spec_bytes());
        buf
    }
}

/// Tells a player the group they are now in, or that the password was
/// wrong.
pub struct JoinedGroupPacket {
    pub group: Option<u128>,
    pub wrong_password: bool,
}

impl JoinedGroupPacket {
    pub open spec fn spec_bytes(&self) -> Seq<u8> {
        enc_opt_uuid(self.group) + enc_bool(self.wrong_password)
    }

    pub fn to_bytes(&self) -> (r: Vec<u8>)
        ensures
            r@ == self.spec_bytes(),
    {
        let mut buf: Vec<u8> = Vec::new();
        put_opt_uuid(&mut buf, self.group);
        put_bool(&mut buf, self.wrong_password);
        assert(buf@ =~= self.spec_bytes());
        buf
    }
}

/// The encoding of one player's state.
pub open spec fn enc_player_state(s: PlayerState) -> Seq<u8> {
    enc_bool(s.disabled) + enc_bool(s.disconnected) + enc_uuid(s.uuid) + enc_string(s.name@)
        + enc_opt_uuid(s.group)
}

fn put_player_state(out: &mut Vec<u8>, state: &PlayerState)
    ensures
        final(out)@ == old(out)@ + enc_player_state(*state),
{
    put_bool(out, state.disabled);
    put_bool(out, state.disconnected);
    put_uuid(out, state.uuid);
    put_string(out, state.name.as_str());
    put_opt_uuid(out, state.group);
    assert(final(out)@ =~= old(out)@ + enc_player_state(*state));
}

/// One player's state.
pub struct PlayerStatePacket<'a> {
    pub player_state: &'a PlayerState,
}

impl<'a> PlayerStatePacket<'a> {
    pub open spec fn spec_bytes(&self) -> Seq<u8> {
        enc_player_state(*self.player_state)
    }

    pub fn to_bytes(&self) -> (r: Vec<u8>)
        ensures
            r@ == self.spec_bytes(),
    {
        let mut buf: Vec<u8> = Vec::new();
        put_player_state(&mut buf, self.player_state);
        assert(buf@ =~= self.spec_bytes());
        buf
    }
}

/// Offers a volume category: no translation keys and no icon are sent.
pub struct AddCategoryPacket<'a> {
    pub category: &'a VolumeCategory,
}

impl<'a> AddCategoryPacket<'a> {
    pub open spec fn spec_bytes(&self) -> Seq<u8> {
        enc_string(self.category.id@) + enc_string(self.category.name@) + enc_u8(0)
            + enc_opt_string(opt_chars(self.category.description)) + enc_u8(0) + enc_u8(0)
    }

    pub fn to_bytes(&self) -> (r: Vec<u8>)
        ensures
            r@ == self.spec_bytes(),
    {
        let mut buf: Vec<u8> = Vec::new();
        put_string(&mut buf, self.category.id.as_str());
        put_string(&mut buf, self.category.name.as_str());
        put_u8(&mut buf, 0);
        put_opt_string(&mut buf, &self.category.description);
        put_u8(&mut buf, 0);
        put_u8(&mut buf, 0);
        assert(buf@ =~= self.spec_bytes());
        buf
    }
}

/// Withdraws a volume category.
pub struct RemoveCategoryPacket<'a> {
    pub category_id: &'a str,
}

impl<'a> RemoveCategoryPacket<'a> {
    pub open spec fn spec_bytes(&self) -> Seq<u8> {
        enc_string(self.category_id@)
    }

    pub fn to_bytes(&self) -> (r: Vec<u8>)
        ensures
            r@ == self.spec_bytes(),
    {
        let mut buf: Vec<u8> = Vec::new();
        put_string(&mut buf, self.category_id);
        assert(buf@ =~= self.spec_bytes());
        buf
    }
}

/// The states of several players, one after another.
pub open spec fn enc_player_states(states: Seq<PlayerState>) -> Seq<u8>
    decreases states.len(),
{
    if states.len() == 0 {
        Seq::empty()
    } else {
        enc_player_states(states.drop_last()) + enc_player_state(states.last())
    }
}

/// The states of all players, preceded by their count.
pub struct PlayerStatesPacket<'a> {
    pub player_states: &'a [PlayerState],
}

impl<'a> PlayerStatesPacket<'a> {
    pub open spec fn spec_bytes(&self) -> Seq<u8> {
        enc_count(self.player_states@.len()) + enc_player_states(self.player_states@)
    }

    pub fn to_bytes(&self) -> (r: Vec<u8>)
        ensures
            r@ == self.spec_bytes(),
    {
        let mut buf: Vec<u8> = Vec::new();
        let n = self.player_states.len();
        put_be(&mut buf, ((n as u64) % 0x1_0000_0000) as u128, 4);
        let ghost head = buf@;
        let mut i: usize = 0;
        assert(self.player_states@.take(0) =~= Seq::<PlayerState>::empty());
        while i < n
            invariant
                i <= n,
                n == self.player_states@.len(),
                buf@ == head + enc_player_states(self.player_states@.take(i as int)),
            decreases n - i,
        {
            put_player_state(&mut buf, &self.player_states[i]);
            proof {
                let t = self.player_states@.take(i + 1);
                assert(t.drop_last() =~= self.player_states@.take(i as int));
                assert(t.last() == self.player_states@[i as int]);
                assert(buf@ =~= head + enc_player_states(t));
            }
            i = i + 1;
        }
        assert(self.player_states@.take(n as int) =~= self.player_states@);
        buf
    }
}


/// Reads an optional string: a presence byte (non-zero: present), then the
/// string when present.
pub open spec fn read_opt_string(s: Seq<u8>) -> Option<(Option<Seq<char>>, nat)> {
    match read_bool(s) {
        Some((has, n)) => if has {
            match read_string(s.skip(n as int)) {
                Some((t, m)) => Some((Some(t), n + m)),
                None => None,
            }
        } else {
            Some((None, n))
        },
        None => None,
    }
}

fn get_opt_string(buf: &[u8], pos: usize) -> (r: Option<(Option<String>, usize)>)
    requires
        pos <= buf@.len(),
    ensures
        match read_opt_string(rest(buf@, pos as int)) {
            Some((v, n)) => r is Some && opt_chars(r.unwrap().0) == v && r.unwrap().1 == pos + n,
            None => r is None,
        },
{
    match get_bool(buf, pos) {
        None => None,
        Some((has, p)) => {
            if has {
                proof {
                    assert(rest(buf@, pos as int).skip(1) =~= rest(buf@, p as int));
                }
                match get_string(buf, p) {
                    Some((t, q)) => Some((Some(t), q)),
                    None => None,
                }
            } else {
                Some((None, p))
            }
        },
    }
}

/// What an update-state request says: whether the player disabled voice
/// chat (any non-zero first byte).
pub open spec fn read_update_state(d: Seq<u8>) -> Option<bool> {
    match read_bool(d) {
        Some((disabled, _)) => Some(disabled),
        None => None,
    }
}

pub fn parse_update_state(data: &[u8]) -> (r: Option<bool>)
    ensures
        r == read_update_state(data@),
{
    assert(rest(data@, 0) =~= data@);
    match get_bool(data, 0) {
        Some((disabled, _)) => Some(disabled),
        None => None,
    }
}

/// What a join request says: the group, then an optional password; bytes
/// after them are ignored.
pub open spec fn read_join_group(d: Seq<u8>) -> Option<(u128, Option<Seq<char>>)> {
    match read_uuid(d) {
        Some((g, n)) => match read_opt_string(d.skip(n as int)) {
            Some((pw, _)) => Some((g, pw)),
            None => None,
        },
        None => None,
    }
}

/// What a create request says: the name, an optional password and the group
/// type; bytes after them are ignored.
pub open spec fn read_create_group(d: Seq<u8>) -> Option<(Seq<char>, Option<Seq<char>>, i16)> {
    match read_string(d) {
        Some((name, n)) => match read_opt_string(d.skip(n as int)) {
            Some((pw, m)) => match read_i16(d.skip((n + m) as int)) {
                Some((t, _)) => Some((name, pw, t)),
                None => None,
            },
            None => None,
        },
        None => None,
    }
}

impl JoinGroupPacket {
    pub fn parse(data: &[u8]) -> (r: Option<JoinGroupPacket>)
        ensures
            match read_join_group(data@) {
                Some((g, pw)) => r is Some && r.unwrap().group == g && opt_chars(
                    r.unwrap().password,
                ) == pw,
                None => r is None,
            },
    {
        assert(rest(data@, 0) =~= data@);
        match get_uuid(data, 0) {
            None => None,
            Some((group, p)) => {
                assert(data@.skip(16) =~= rest(data@, p as int));
                match get_opt_string(data, p) {
                    None => None,
                    Some((password, _)) => Some(JoinGroupPacket { group, password }),
                }
            },
        }
    }
}

impl CreateGroupPacket {
    pub fn parse(data: &[u8]) -> (r: Option<CreateGroupPacket>)
        ensures
            match read_create_group(data@) {
                Some((name, pw, t)) => r is Some && r.unwrap().name@ == name && opt_chars(
                    r.unwrap().password,
                ) == pw && r.unwrap().group_type == t,
                None => r is None,
            },
    {
        assert(rest(data@, 0) =~= data@);
        match get_string(data, 0) {
            None => None,
            Some((name, p)) => {
                assert(data@.skip(p as int) =~= rest(data@, p as int));
                match get_opt_string(data, p) {
                    None => None,
                    Some((password, q)) => {
                        assert(data@.skip(q as int) =~= rest(data@, q as int));
                        match get_i16(data, q) {
                            None => None,
                            Some((group_type, _)) => Some(
                                CreateGroupPacket { name, password, group_type },
                            ),
                        }
                    },
                }
            },
        }
    }
}


/// The string fits the length field of the wire format.
pub open spec fn fits_wire(s: Seq<char>) -> bool {
    encode_utf8(s).len() < 0x8000_0000
}

pub open spec fn opt_fits_wire(s: Option<Seq<char>>) -> bool {
    match s {
        Some(t) => fits_wire(t),
        None => true,
    }
}

/// A written optional string reads back, whatever follows it.
pub proof fn lemma_opt_string_roundtrip(s: Option<Seq<char>>, tail: Seq<u8>)
    requires
        opt_fits_wire(s),
    ensures
        read_opt_string(enc_opt_string(s) + tail) == Some((s, enc_opt_string(s).len())),
{
    let whole = enc_opt_string(s) + tail;
    match s {
        Some(t) => {
            assert(whole =~= enc_bool(true) + (enc_string(t) + tail));
            lemma_bool_roundtrip(true, enc_string(t) + tail);
            assert(whole.skip(1) =~= enc_string(t) + tail);
            lemma_string_roundtrip(t, tail);
        },
        None => {
            assert(whole =~= enc_bool(false) + tail);
            lemma_bool_roundtrip(false, tail);
        },
    }
}

/// An update-state request reads back the flag it was written with.
pub proof fn lemma_update_state_roundtrip(disabled: bool, tail: Seq<u8>)
    ensures
        read_update_state(enc_bool(disabled) + tail) == Some(disabled),
{
    lemma_bool_roundtrip(disabled, tail);
}

/// A join request reads back the group and password it was written with,
/// whatever follows it.
pub proof fn lemma_join_group_roundtrip(group: u128, password: Option<Seq<char>>, tail: Seq<u8>)
    requires
        opt_fits_wire(password),
    ensures
        read_join_group(enc_uuid(group) + enc_opt_string(password) + tail) == Some(
            (group, password),
        ),
{
    let rest_ = enc_opt_string(password) + tail;
    let whole = enc_uuid(group) + enc_opt_string(password) + tail;
    assert(whole =~= enc_uuid(group) + rest_);
    lemma_uuid_roundtrip(group, rest_);
    crate::wire::lemma_be_bytes_len(group as nat, 16);
    assert(whole.skip(16) =~= rest_);
    lemma_opt_string_roundtrip(password, tail);
}

/// A create request reads back the name, password and type it was written
/// with, whatever follows it.
pub proof fn lemma_create_group_roundtrip(
    name: Seq<char>,
    password: Option<Seq<char>>,
    group_type: i16,
    tail: Seq<u8>,
)
    requires
        fits_wire(name),
        opt_fits_wire(password),
    ensures
        read_create_group(
            enc_string(name) + enc_opt_string(password) + enc_i16(group_type) + tail,
        ) == Some((name, password, group_type)),
{
    let a = enc_string(name);
    let b = enc_opt_string(password);
    let c = enc_i16(group_type);
    let whole = a + b + c + tail;
    assert(whole =~= a + (b + c + tail));
    lemma_string_roundtrip(name, b + c + tail);
    assert(whole.skip(a.len() as int) =~= b + (c + tail));
    lemma_opt_string_roundtrip(password, c + tail);
    assert(whole.skip((a.len() + b.len()) as int) =~= c + tail);
    lemma_i16_roundtrip(group_type, tail);
}

} // verus!
