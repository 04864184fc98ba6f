//! The parts of the configuration that the logic reads, and the choices it
//! makes from them.
use vstd::prelude::*;
use vstd::string::{StrSliceExecFns, StringExecFns};

verus! {

/// A volume category as the configuration declares it.
#[derive(Debug)]
pub struct CategoryConfig {
    pub id: String,
    pub name: String,
    pub description: Option<String>,
}

impl Clone for CategoryConfig {
    fn clone(&self) -> (r: Self)
        ensures
            r == *self,
    {
        CategoryConfig {
            id: self.id.clone(),
            name: self.name.clone(),
            description: crate::state::clone_opt_string(&self.description),
        }
    }
}

/// The codec number the client is told for a configured codec name.
pub open spec fn spec_codec_id(codec: Seq<char>) -> u8 {
    if codec == "AUDIO"@ {
        1
    } else if codec == "RESTRICTED_LOWDELAY"@ {
        2
    } else {
        0
    }
}

/// Whether two strings hold the same characters.
pub fn str_eq(a: &str, b: &str) -> (r: bool)
    ensures
        r == (a@ == b@),
{
    let x = a.as_bytes();
    let y = b.as_bytes();
    let mut same = x.len() == y.len();
    let mut i: usize = 0;
    while same && i < x.len()
        invariant
            x@ == vstd::utf8::encode_utf8(a@),
            y@ == vstd::utf8::encode_utf8(b@),
            same ==> x@.len() == y@.len(),
            same ==> forall|j: int| 0 <= j < i ==> x@[j] == y@[j],
            !same ==> x@ != y@,
            i <= x@.len(),
        decreases x@.len() - i + (if same {
            1int
        } else {
            0int
        }),
    {
        if x[i] != y[i] {
            same = false;
        } else {
            i = i + 1;
        }
    }
    proof {
        vstd::utf8::encode_utf8_decode_utf8(a@);
        vstd::utf8::encode_utf8_decode_utf8(b@);
        if same {
            assert(x@ =~= y@);
        }
    }
    same
}

/// `"VOIP"` is 0, `"AUDIO"` 1, `"RESTRICTED_LOWDELAY"` 2; any other name 0.
pub fn codec_id(codec: &str) -> (r: u8)
    ensures
        r == spec_codec_id(codec@),
{
    proof {
        reveal_strlit("VOIP");
        reveal_strlit("AUDIO");
        reveal_strlit("RESTRICTED_LOWDELAY");
        assert("VOIP"@.len() != "AUDIO"@.len());
        assert("VOIP"@.len() != "RESTRICTED_LOWDELAY"@.len());
    }
    if str_eq(codec, "VOIP") {
        0
    } else if str_eq(codec, "AUDIO") {
        1
    } else if str_eq(codec, "RESTRICTED_LOWDELAY") {
        2
    } else {
        0
    }
}

/// The voice port the client is told: the configured one, or, for `-1`,
/// the game server's TCP port `game_port`.
pub fn voice_port(port: i32, game_port: u16) -> (r: i32)
    ensures
        r == (if port == -1 {
            game_port as i32
        } else {
            port
        }),
{
    if port == -1 {
        game_port as i32
    } else {
        port
    }
}

/// The UDP port to bind: the voice port (the game server's TCP port
/// `game_port` for `-1`), as its low 16 bits.
pub fn bind_port(port: i32, game_port: u16) -> (r: u16)
    ensures
        r as int == (if port == -1 {
            game_port as int
        } else {
            port as int
        }) % 0x1_0000,
{
    let p = voice_port(port, game_port);
    if p >= 0 {
        (p % 0x1_0000) as u16
    } else {
        ((p as i64 + 0x1_0000_0000) % 0x1_0000) as u16
    }
}

/// The address to bind: the configured one, or all interfaces when empty.
pub fn bind_host(bind_address: &str) -> (r: &str)
    ensures
        r@ == (if bind_address@.len() == 0 {
            "0.0.0.0"@
        } else {
            bind_address@
        }),
{
    if bind_address.is_empty() {
        "0.0.0.0"
    } else {
        bind_address
    }
}

/// The number that Rust's `/` gives for `a / 50` on integers (rounding
/// toward zero).
pub open spec fn div50_toward_zero(a: int) -> int {
    if a >= 0 {
        a / 50
    } else {
        -((-a) / 50)
    }
}

/// How many ticks (of 50 ms) a player has to connect over UDP before being
/// kicked: the login timeout in milliseconds over 50, rounded toward zero,
/// taken as an unsigned 64-bit number.
pub fn login_timeout_ticks(login_timeout_ms: i32) -> (r: u64)
    ensures
        r as int == div50_toward_zero(login_timeout_ms as int) % 0x1_0000_0000_0000_0000,
{
    if login_timeout_ms >= 0 {
        (login_timeout_ms / 50) as u64
    } else {
        let q: i64 = -((-(login_timeout_ms as i64)) / 50);
        if q == 0 {
            0
        } else {
            (q as i128 + 0x1_0000_0000_0000_0000) as u64
        }
    }
}

/// How many ticks (of 50 ms) lie between keep-alives: the keep-alive
/// interval in milliseconds over 50, rounded down, and at least one tick.
pub fn keep_alive_ticks(keep_alive_ms: i32) -> (r: u64)
    ensures
        r == (if keep_alive_ms >= 100 {
            (keep_alive_ms / 50) as int
        } else {
            1
        }),
{
    if keep_alive_ms >= 100 {
        (keep_alive_ms / 50) as u64
    } else {
        1
    }
}

/// A path with its backslashes turned into slashes.
pub open spec fn forward_slashes(s: Seq<char>) -> Seq<char> {
    Seq::new(s.len(), |i: int| if s[i] == '\\' { '/' } else { s[i] })
}

/// `t` with every slash at its start and at its end taken off.
pub open spec fn trim_slashes(t: Seq<char>) -> Seq<char> {
    let a = choose|a: int| starts_trimmed(t, a);
    let b = choose|b: int| ends_trimmed(t, a, b);
    t.subrange(a, b)
}

/// `a` is where `t` starts once its leading slashes are off.
pub open spec fn starts_trimmed(t: Seq<char>, a: int) -> bool {
    &&& 0 <= a <= t.len()
    &&& forall|i: int| 0 <= i < a ==> t[i] == '/'
    &&& a < t.len() ==> t[a] != '/'
}

/// `b` is where `t`, starting at `a`, ends once its trailing slashes are off.
pub open spec fn ends_trimmed(t: Seq<char>, a: int, b: int) -> bool {
    &&& a <= b <= t.len()
    &&& forall|i: int| b <= i < t.len() ==> t[i] == '/'
    &&& b > a ==> t[b - 1] != '/'
}

proof fn lemma_trim_unique(t: Seq<char>, a: int, b: int)
    requires
        starts_trimmed(t, a),
        ends_trimmed(t, a, b),
    ensures
        trim_slashes(t) == t.subrange(a, b),
{
    let a2 = choose|a: int| starts_trimmed(t, a);
    assert(starts_trimmed(t, a2));
    if a2 < a {
        assert(t[a2] == '/');
    } else if a < a2 {
        assert(t[a] == '/');
    }
    assert(a2 == a);
    let b2 = choose|b: int| ends_trimmed(t, a, b);
    assert(ends_trimmed(t, a, b2));
    if b2 < b {
        assert(t[b - 1] == '/');
    } else if b < b2 {
        assert(t[b2 - 1] == '/');
    }
    assert(b2 == b);
}

/// The folder of the configuration file, as the plugin's data folder names
/// it: backslashes become slashes, and slashes at either end are taken off.
pub fn config_folder(data_folder: &str) -> (r: String)
    ensures
        r@ == trim_slashes(forward_slashes(data_folder@)),
{
    let ghost t = forward_slashes(data_folder@);
    let n = data_folder.unicode_len();
    let mut a: usize = 0;
    while a < n
        invariant
            t == forward_slashes(data_folder@),
            n == data_folder@.len(),
            a <= n,
            forall|i: int| 0 <= i < a ==> t[i] == '/',
        ensures
            a <= n,
            forall|i: int| 0 <= i < a ==> t[i] == '/',
            a < n ==> t[a as int] != '/',
        decreases n - a,
    {
        let c = data_folder.get_char(a);
        if c != '/' && c != '\\' {
            break;
        }
        a = a + 1;
    }
    assert(starts_trimmed(t, a as int));
    let mut b: usize = n;
    while b > a
        invariant
            t == forward_slashes(data_folder@),
            n == data_folder@.len(),
            a <= b <= n,
            forall|i: int| b <= i < n ==> t[i] == '/',
        ensures
            a <= b <= n,
            forall|i: int| b <= i < n ==> t[i] == '/',
            b > a ==> t[b - 1] != '/',
        decreases b - a,
    {
        let c = data_folder.get_char(b - 1);
        if c != '/' && c != '\\' {
            break;
        }
        b = b - 1;
    }
    assert(ends_trimmed(t, a as int, b as int));
    let mut out = String::new();
    let mut seg: usize = a;
    let mut i: usize = a;
    proof {
        reveal_strlit("/");
    }
    while i < b
        invariant
            t == forward_slashes(data_folder@),
            n == data_folder@.len(),
            a <= seg <= i <= b <= n,
            out@ == t.subrange(a as int, seg as int),
            forall|k: int| seg <= k < i ==> data_folder@[k] != '\\',
            "/"@ == seq!['/'],
        decreases b - i,
    {
        if data_folder.get_char(i) == '\\' {
            let piece = data_folder.substring_char(seg, i);
            out.append(piece);
            out.append("/");
            proof {
                assert(piece@ =~= t.subrange(seg as int, i as int));
                assert(out@ =~= t.subrange(a as int, i + 1));
            }
            seg = i + 1;
        }
        i = i + 1;
    }
    let piece = data_folder.substring_char(seg, b);
    out.append(piece);
    proof {
        assert(piece@ =~= t.subrange(seg as int, b as int));
        assert(out@ =~= t.subrange(a as int, b as int));
        lemma_trim_unique(t, a as int, b as int);
    }
    out
}

} // verus!
