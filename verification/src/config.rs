//! The settings of the server, as plain values.
use crate::text;
use std::collections::HashMap;
use vstd::prelude::*;
use vstd::utf8::is_ascii_chars;

verus! {

/// A certificate on disk, or the name for one that the server signs itself.
#[derive(Debug, Clone)]
pub struct StandardTlsConfig {
    pub cert_path: Option<String>,
    pub key_path: Option<String>,
    pub self_signed_domain: Option<String>,
}

/// Everything that one process serves.
#[derive(Debug, Clone)]
pub struct Config {
    pub log: LogConfig,
    pub hysteria2: Vec<Hysteria2Config>,
    pub vless: Vec<VlessConfig>,
    pub tuic: Vec<TuicConfig>,
    pub trojan: Vec<TrojanConfig>,
    pub vmess: Vec<VmessConfig>,
    pub shadowsocks: Vec<ShadowsocksConfig>,
    pub wireguard: Vec<WireGuardConfig>,
    pub anytls: Vec<AnyTlsConfig>,
    pub socks: Vec<SocksConfig>,
}

impl Config {
    /// How many inbounds are set up, over all protocols.
    pub open spec fn inbounds(&self) -> nat {
        self.hysteria2@.len() + self.vless@.len() + self.tuic@.len() + self.trojan@.len()
            + self.vmess@.len() + self.shadowsocks@.len() + self.wireguard@.len()
            + self.anytls@.len() + self.socks@.len()
    }

    /// Whether no protocol is set up at all.
    pub fn is_empty(&self) -> (r: bool)
        ensures
            r <==> self.inbounds() == 0,
    {
        self.hysteria2.is_empty() && self.vless.is_empty() && self.tuic.is_empty()
            && self.trojan.is_empty() && self.vmess.is_empty() && self.shadowsocks.is_empty()
            && self.wireguard.is_empty() && self.anytls.is_empty() && self.socks.is_empty()
    }
}

#[derive(Debug, Clone)]
pub struct SocksUser {
    pub username: String,
    pub password: String,
}

#[derive(Debug, Clone)]
pub struct SocksConfig {
    pub listen: String,
    pub users: Vec<SocksUser>,
}

/// A TUIC inbound. A user is known by the 128 bits of an identifier, read as one
/// big-endian number; times are in milliseconds.
#[derive(Debug, Clone)]
pub struct TuicConfig {
    pub listen: String,
    pub users: HashMap<u128, String>,
    pub tls: Option<StandardTlsConfig>,
    pub max_idle_time: u64,
    pub auth_timeout: u64,
    pub udp_timeout: u64,
    pub udp_relay_ipv6: bool,
    pub max_udp_packet_size: usize,
}

/// How long a TUIC connection may stay idle: 30 seconds.
pub fn default_tuic_idle_time() -> (r: u64)
    ensures
        r == 30_000,
{
    30_000
}

/// How long a TUIC client may take to authenticate: 3 seconds.
pub fn default_tuic_auth_timeout() -> (r: u64)
    ensures
        r == 3_000,
{
    3_000
}

/// How long a TUIC UDP session may stay idle: 30 seconds.
pub fn default_tuic_udp_timeout() -> (r: u64)
    ensures
        r == 30_000,
{
    30_000
}

/// The largest UDP packet that TUIC relays.
pub fn default_tuic_max_udp_packet_size() -> (r: usize)
    ensures
        r == 65535,
{
    65535
}

#[derive(Debug, Clone)]
pub struct Hysteria2Config {
    pub listen: String,
    pub tls: Hy2TlsConfig,
    pub auth: AuthConfig,
    pub bandwidth: BandwidthConfig,
    pub masquerade: MasqueradeConfig,
}

#[derive(Debug, Clone)]
pub struct Hy2TlsConfig {
    pub cert_path: Option<String>,
    pub key_path: Option<String>,
    pub self_signed_domain: Option<String>,
}

#[derive(Debug, Clone)]
pub enum AuthConfig {
    Password { password: String },
    /// Anyone may connect.
    Open,
}

#[derive(Debug, Clone)]
pub struct BandwidthConfig {
    pub up: Option<String>,
    pub down: Option<String>,
}

impl Default for BandwidthConfig {
    fn default() -> (r: Self)
        ensures
            r.up is None,
            r.down is None,
    {
        BandwidthConfig { up: None, down: None }
    }
}

#[derive(Debug, Clone)]
pub struct MasqueradeConfig {
    pub kind: String,
    pub proxy: Option<MasqueradeProxy>,
}

impl Default for MasqueradeConfig {
    fn default() -> (r: Self)
        ensures
            r.kind@.len() == 0,
            r.proxy is None,
    {
        MasqueradeConfig { kind: String::new(), proxy: None }
    }
}

#[derive(Debug, Clone)]
pub struct MasqueradeProxy {
    pub url: String,
    pub rewrite_host: bool,
}

/// What carries a stream: plain TCP, WebSocket or HTTP.
#[derive(Debug, Clone)]
pub struct TransportConfig {
    pub kind: String,
    pub ws_path: String,
    pub ws_host: Option<String>,
    pub xhttp_path: String,
    pub xhttp_host: Option<String>,
}

impl Default for TransportConfig {
    fn default() -> (r: Self)
        ensures
            r.kind@ == "tcp"@,
            r.ws_path@ == "/"@,
            r.ws_host is None,
            r.xhttp_path@ == "/"@,
            r.xhttp_host is None,
    {
        TransportConfig {
            kind: default_transport_type(),
            ws_path: default_ws_path(),
            ws_host: None,
            xhttp_path: default_xhttp_path(),
            xhttp_host: None,
        }
    }
}

#[derive(Debug, Clone)]
pub enum VlessTlsConfig {
    Tls { standard: StandardTlsConfig },
    Reality(RealityConfig),
}

#[derive(Debug, Clone)]
pub struct RealityConfig {
    pub private_key: String,
    pub short_ids: Vec<String>,
    pub dest: String,
    pub server_name: String,
}

#[derive(Debug, Clone)]
pub struct VlessConfig {
    pub listen: String,
    pub uuid: String,
    pub transport: TransportConfig,
    pub tls: Option<VlessTlsConfig>,
}

#[derive(Debug, Clone)]
pub struct TrojanConfig {
    pub listen: String,
    pub password: String,
    pub transport: TransportConfig,
    pub tls: Option<StandardTlsConfig>,
}

#[derive(Debug, Clone)]
pub struct VmessConfig {
    pub listen: String,
    pub uuid: String,
    pub transport: TransportConfig,
    pub tls: Option<StandardTlsConfig>,
}

/// The ciphers of Shadowsocks 2022.
#[derive(Debug, Clone, Copy, PartialEq, Eq, Structural)]
pub enum ShadowsocksCipher {
    Blake3Aes128Gcm,
    Blake3Aes256Gcm,
    Blake3Chacha20Poly1305,
}

impl ShadowsocksCipher {
    /// Bytes in a key.
    pub open spec fn key_size(&self) -> nat {
        match *self {
            ShadowsocksCipher::Blake3Aes128Gcm => 16,
            ShadowsocksCipher::Blake3Aes256Gcm => 32,
            ShadowsocksCipher::Blake3Chacha20Poly1305 => 32,
        }
    }

    pub fn key_len(&self) -> (r: usize)
        ensures
            r == self.key_size(),
    {
        match self {
            ShadowsocksCipher::Blake3Aes128Gcm => 16,
            ShadowsocksCipher::Blake3Aes256Gcm => 32,
            ShadowsocksCipher::Blake3Chacha20Poly1305 => 32,
        }
    }

    /// A salt is as long as a key.
    pub fn salt_len(&self) -> (r: usize)
        ensures
            r == self.key_size(),
    {
        self.key_len()
    }

    pub fn tag_len(&self) -> (r: usize)
        ensures
            r == 16,
    {
        16
    }
}

#[derive(Debug, Clone)]
pub struct ShadowsocksConfig {
    pub listen: String,
    pub password: String,
    pub method: ShadowsocksCipher,
    pub transport: TransportConfig,
    pub tls: Option<StandardTlsConfig>,
}

#[derive(Debug, Clone)]
pub struct AnyTlsConfig {
    pub listen: String,
    pub password: String,
    pub tls: StandardTlsConfig,
    pub padding_scheme: Option<String>,
}

#[derive(Debug, Clone)]
pub struct WireGuardConfig {
    pub listen: String,
    pub private_key: String,
    pub server_address: Vec<String>,
    pub mtu: u16,
    pub peers: Vec<WireGuardPeerConfig>,
}

#[derive(Debug, Clone)]
pub struct WireGuardPeerConfig {
    pub public_key: String,
    pub pre_shared_key: Option<String>,
    pub allowed_ips: Vec<String>,
    pub keepalive_interval: Option<u16>,
    pub dns: Vec<String>,
}

pub fn default_wg_mtu() -> (r: u16)
    ensures
        r == 1420,
{
    1420
}

pub fn default_ss_cipher() -> (r: ShadowsocksCipher)
    ensures
        r == ShadowsocksCipher::Blake3Aes256Gcm,
{
    ShadowsocksCipher::Blake3Aes256Gcm
}

#[derive(Debug, Clone)]
pub struct LogConfig {
    pub level: String,
}

impl Default for LogConfig {
    fn default() -> (r: Self)
        ensures
            r.level@ == "info"@,
    {
        LogConfig { level: default_log_level() }
    }
}

pub fn default_log_level() -> (r: String)
    ensures
        r@ == "info"@,
{
    "info".to_owned()
}

pub fn default_masquerade_type() -> (r: String)
    ensures
        r@ == "none"@,
{
    "none".to_owned()
}

pub fn default_transport_type() -> (r: String)
    ensures
        r@ == "tcp"@,
{
    "tcp".to_owned()
}

pub fn default_ws_path() -> (r: String)
    ensures
        r@ == "/"@,
{
    "/".to_owned()
}

pub fn default_xhttp_path() -> (r: String)
    ensures
        r@ == "/"@,
{
    "/".to_owned()
}

/// A bandwidth as it is written in the settings.
#[derive(Debug, Clone)]
pub enum Rate {
    /// A whole number of units, taken as it stands.
    Exact(u64),
    /// A decimal number of multiples of `bits` bits per second.
    Scaled { number: String, bits: u64 },
}

/// The mathematical counterpart of [`Rate`].
pub enum RateView {
    Exact(nat),
    Scaled { number: Seq<char>, bits: nat },
}

impl View for Rate {
    type V = RateView;

    open spec fn view(&self) -> RateView {
        match *self {
            Rate::Exact(n) => RateView::Exact(n as nat),
            Rate::Scaled { number, bits } => RateView::Scaled { number: number@, bits: bits as nat },
        }
    }
}

/// The view of what an option holds.
pub open spec fn rate_view(r: Option<Rate>) -> Option<RateView> {
    match r {
        Some(x) => Some(x@),
        None => None,
    }
}

/// `s` without `suffix` at its end.
pub open spec fn before_suffix(s: Seq<char>, suffix: Seq<char>) -> Seq<char> {
    s.take(s.len() - suffix.len())
}

/// What a bandwidth in lower case and without spaces says.
pub open spec fn rate_of(s: Seq<char>) -> Option<RateView> {
    if "gbps"@.is_suffix_of(s) {
        Some(RateView::Scaled { number: before_suffix(s, "gbps"@), bits: 1_000_000_000 })
    } else if "mbps"@.is_suffix_of(s) {
        Some(RateView::Scaled { number: before_suffix(s, "mbps"@), bits: 1_000_000 })
    } else if "kbps"@.is_suffix_of(s) {
        Some(RateView::Scaled { number: before_suffix(s, "kbps"@), bits: 1_000 })
    } else if "bps"@.is_suffix_of(s) {
        match text::parse_unsigned_of(before_suffix(s, "bps"@), u64::MAX as nat) {
            Some(n) => Some(RateView::Exact(n)),
            None => None,
        }
    } else {
        None
    }
}

/// The text of a bandwidth without its unit.
fn strip_unit<'a>(s: &'a str, unit: &str) -> (r: &'a str)
    requires
        unit@.is_suffix_of(s@),
    ensures
        r@ == before_suffix(s@, unit@),
{
    let n = text::chars_of(s).len();
    let m = text::chars_of(unit).len();
    text::take_chars(s, n - m)
}

/// Reads a bandwidth that is in lower case and without spaces.
pub fn rate_from_normalized(s: &str) -> (r: Option<Rate>)
    ensures
        rate_view(r) == rate_of(s@),
{
    if text::ends_with(s, "gbps") {
        Some(Rate::Scaled { number: strip_unit(s, "gbps").to_owned(), bits: 1_000_000_000 })
    } else if text::ends_with(s, "mbps") {
        Some(Rate::Scaled { number: strip_unit(s, "mbps").to_owned(), bits: 1_000_000 })
    } else if text::ends_with(s, "kbps") {
        Some(Rate::Scaled { number: strip_unit(s, "kbps").to_owned(), bits: 1_000 })
    } else if text::ends_with(s, "bps") {
        match text::parse_unsigned(strip_unit(s, "bps"), u64::MAX) {
            Some(n) => Some(Rate::Exact(n)),
            None => None,
        }
    } else {
        None
    }
}

/// A bandwidth in ASCII, in lower case and without spaces.
pub open spec fn plain_rate(s: Seq<char>) -> Seq<char> {
    text::without_spaces_of(text::ascii_lower_of(text::trim_of(s)))
}

/// Case and spaces do not count: texts that are the same but for the case of ASCII letters
/// and for spaces, wherever these stand, come to the same, and so say the same bandwidth.
pub proof fn lemma_case_and_spaces(s: Seq<char>, t: Seq<char>)
    requires
        text::ascii_lower_of(text::without_spaces_of(s)) == text::ascii_lower_of(
            text::without_spaces_of(t),
        ),
    ensures
        plain_rate(s) == plain_rate(t),
        rate_of(plain_rate(s)) == rate_of(plain_rate(t)),
{
    text::lemma_plain_order(s);
    text::lemma_plain_order(t);
}

/// What an optional bandwidth setting says.
pub open spec fn setting_rate(s: Option<String>) -> Option<RateView> {
    match s {
        Some(t) => rate_of(
            text::without_spaces_of(text::lowercase_of(text::trim_of(t@))),
        ),
        None => None,
    }
}

impl BandwidthConfig {
    /// Reads a bandwidth such as `100 Mbps`: case and spaces do not count. Numbers of
    /// giga-, mega- and kilobits come back as the decimal text that stands before the
    /// unit.
    pub fn parse_bps(s: &str) -> (r: Option<Rate>)
        ensures
            rate_view(r) == rate_of(
                text::without_spaces_of(text::lowercase_of(text::trim_of(s@))),
            ),
            is_ascii_chars(s@) ==> rate_view(r) == rate_of(plain_rate(s@)),
    {
        proof {
            if is_ascii_chars(s@) {
                text::lemma_trim_is_ascii(s@);
            }
        }
        let lower = text::lowercase(text::trim(s));
        let plain = text::without_spaces(lower.as_str());
        rate_from_normalized(plain.as_str())
    }

    /// The bandwidth towards clients.
    pub fn up_bps(&self) -> (r: Option<Rate>)
        ensures
            rate_view(r) == setting_rate(self.up),
            self.up matches Some(t) ==> is_ascii_chars(t@) ==> rate_view(r) == rate_of(
                plain_rate(t@),
            ),
    {
        match &self.up {
            Some(s) => Self::parse_bps(s.as_str()),
            None => None,
        }
    }

    /// The bandwidth from clients.
    pub fn down_bps(&self) -> (r: Option<Rate>)
        ensures
            rate_view(r) == setting_rate(self.down),
            self.down matches Some(t) ==> is_ascii_chars(t@) ==> rate_view(r) == rate_of(
                plain_rate(t@),
            ),
    {
        match &self.down {
            Some(s) => Self::parse_bps(s.as_str()),
            None => None,
        }
    }
}

/// A bandwidth is a number before its unit: `gbps`, `mbps` and `kbps` stand for 10^9, 10^6
/// and 10^3 bits per second, and `bps` for the number itself. Anything else is none.
pub proof fn lemma_rate_units(number: Seq<char>, n: nat)
    requires
        n <= u64::MAX,
    ensures
        rate_of(number + "gbps"@) == Some(
            RateView::Scaled { number, bits: 1000 * 1000 * 1000 },
        ),
        rate_of(number + "mbps"@) == Some(RateView::Scaled { number, bits: 1000 * 1000 }),
        rate_of(number + "kbps"@) == Some(RateView::Scaled { number, bits: 1000 }),
        rate_of(text::decimal_of(n) + "bps"@) == Some(RateView::Exact(n)),
        rate_of(text::decimal_of(n)) is None,
{
    reveal_strlit("gbps");
    reveal_strlit("mbps");
    reveal_strlit("kbps");
    reveal_strlit("bps");
    let g = number + "gbps"@;
    let m = number + "mbps"@;
    let k = number + "kbps"@;
    let at = number.len() as int;
    assert(g.subrange(at, at + 4) =~= "gbps"@);
    assert(g.take(at) =~= number);
    assert(m.subrange(at, at + 4) =~= "mbps"@);
    assert(m.take(at) =~= number);
    assert(m.subrange(at, at + 4)[0] == 'm');
    assert("gbps"@[0] == 'g');
    assert(k.subrange(at, at + 4) =~= "kbps"@);
    assert(k.take(at) =~= number);
    assert(k.subrange(at, at + 4)[0] == 'k');
    assert("mbps"@[0] == 'm');
    let digits = text::decimal_of(n);
    text::lemma_decimal_round_trip(n, u64::MAX as nat);
    let d = digits + "bps"@;
    let last = digits.len() - 1;
    assert(text::is_digit(digits[last]));
    assert(d.subrange(last + 1, last + 4) =~= "bps"@);
    assert(d.take(last + 1) =~= digits);
    assert(d.subrange(last, last + 4)[0] == digits[last]);
    assert("kbps"@[0] == 'k');
    if digits.len() >= 3 {
        assert(digits.subrange(digits.len() - 3, digits.len() as int)[2] == digits[last]);
    }
    if digits.len() >= 4 {
        assert(digits.subrange(digits.len() - 4, digits.len() as int)[3] == digits[last]);
    }
    assert("bps"@[2] == 's' && "gbps"@[3] == 's' && "mbps"@[3] == 's' && "kbps"@[3] == 's');
}

} // verus!
