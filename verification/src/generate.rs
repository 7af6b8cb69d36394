//! Key pairs for the configuration of a server and of its clients.
use crate::crypto::{base64_encode, base64_encoded, base64_url_encode, base64_url_encoded};
use crate::crypto::{hex_encode, hex_text, random_bytes, x25519_public_key, x25519_public_of};
use crate::crypto::x25519_secret;
use crate::text::{enclosed, lemma_trim_nothing, texts};
use crate::wireguard::server::key_bytes;
use vstd::prelude::*;

verus! {

/// The keys of a WireGuard server and of one client, as text.
pub struct WireguardKeys {
    pub server_private: String,
    pub server_public: String,
    pub client_private: String,
    pub client_public: String,
}

/// The keys of a Reality server, as text.
pub struct RealityKeys {
    pub private: String,
    pub public: String,
    pub short_id: String,
}

/// Whether `k` holds the two secrets and the public keys that belong to them, in standard
/// Base64.
pub open spec fn wireguard_keys_of(server: Seq<u8>, client: Seq<u8>, k: WireguardKeys) -> bool {
    &&& k.server_private@ == base64_encoded(server)
    &&& k.server_public@ == base64_encoded(x25519_public_of(server))
    &&& k.client_private@ == base64_encoded(client)
    &&& k.client_public@ == base64_encoded(x25519_public_of(client))
}

/// A key as text. The text, put into the configuration, stands for the key again.
pub fn key_text(key: &[u8; 32]) -> (r: String)
    ensures
        r@ == base64_encoded(key@),
        key_bytes(r@) == Some(key@),
{
    let r = base64_encode(key.as_slice());
    proof {
        if r@.len() > 0 {
            assert(crate::crypto::is_base64(r@[0]));
            assert(crate::crypto::is_base64(r@[r@.len() - 1]));
        }
        lemma_trim_nothing(r@);
    }
    r
}

/// The keys that belong to two secrets. The private key of the server and the public key
/// of the client can be put into the server's configuration as they are.
pub fn wireguard_keys_from(server: &[u8; 32], client: &[u8; 32]) -> (r: WireguardKeys)
    ensures
        wireguard_keys_of(server@, client@, r),
        key_bytes(r.server_private@) == Some(server@),
        key_bytes(r.client_public@) == Some(x25519_public_of(client@)),
{
    WireguardKeys {
        server_private: key_text(server),
        server_public: key_text(&x25519_public_key(server)),
        client_private: key_text(client),
        client_public: key_text(&x25519_public_key(client)),
    }
}

/// What is printed about the keys, line by line.
pub open spec fn wireguard_lines_of(k: WireguardKeys) -> Seq<Seq<char>> {
    seq![
        "=== WireGuard 密钥对 ==="@,
        ""@,
        "# ── 服务端（填入 ruproxy config.toml）──"@,
        "[wireguard]"@,
        "private_key    = \""@ + k.server_private@ + "\""@,
        "# 对应公钥（填入客户端 wg0.conf [Peer] PublicKey）："@,
        "# "@ + k.server_public@ + ""@,
        ""@,
        "# ── 客户端 1（wg0.conf）──"@,
        "[Interface]"@,
        "PrivateKey = "@ + k.client_private@ + ""@,
        "Address    = 10.0.0.2/24"@,
        "DNS        = 1.1.1.1"@,
        ""@,
        "[Peer]"@,
        "PublicKey           = "@ + k.server_public@ + ""@,
        "Endpoint            = 你的服务器IP:51820"@,
        "AllowedIPs          = 0.0.0.0/0, ::/0"@,
        "PersistentKeepalive = 25"@,
        ""@,
        "# ── 将客户端公钥填入服务端 config.toml ──"@,
        "[[wireguard.peers]]"@,
        "public_key  = \""@ + k.client_public@ + "\""@,
        "allowed_ips = [\"10.0.0.2/32\"]"@,
    ]
}

/// What is printed about the keys, line by line.
pub fn wireguard_lines(k: &WireguardKeys) -> (r: Vec<String>)
    ensures
        texts(r@) == wireguard_lines_of(*k),
{
    let mut out: Vec<String> = Vec::new();
    out.push("=== WireGuard 密钥对 ===".to_owned());
    out.push("".to_owned());
    out.push("# ── 服务端（填入 ruproxy config.toml）──".to_owned());
    out.push("[wireguard]".to_owned());
    out.push(enclosed("private_key    = \"", k.server_private.as_str(), "\""));
    out.push("# 对应公钥（填入客户端 wg0.conf [Peer] PublicKey）：".to_owned());
    out.push(enclosed("# ", k.server_public.as_str(), ""));
    out.push("".to_owned());
    out.push("# ── 客户端 1（wg0.conf）──".to_owned());
    out.push("[Interface]".to_owned());
    out.push(enclosed("PrivateKey = ", k.client_private.as_str(), ""));
    out.push("Address    = 10.0.0.2/24".to_owned());
    out.push("DNS        = 1.1.1.1".to_owned());
    out.push("".to_owned());
    out.push("[Peer]".to_owned());
    out.push(enclosed("PublicKey           = ", k.server_public.as_str(), ""));
    out.push("Endpoint            = 你的服务器IP:51820".to_owned());
    out.push("AllowedIPs          = 0.0.0.0/0, ::/0".to_owned());
    out.push("PersistentKeepalive = 25".to_owned());
    out.push("".to_owned());
    out.push("# ── 将客户端公钥填入服务端 config.toml ──".to_owned());
    out.push("[[wireguard.peers]]".to_owned());
    out.push(enclosed("public_key  = \"", k.client_public.as_str(), "\""));
    out.push("allowed_ips = [\"10.0.0.2/32\"]".to_owned());
    assert(texts(out@) =~= wireguard_lines_of(*k));
    out
}

/// Two fresh key pairs, ready to be printed.
pub fn wireguard_keypair() -> (r: Vec<String>)
    ensures
        exists|server: [u8; 32], client: [u8; 32], k: WireguardKeys|
            #[trigger] wireguard_keys_of(server@, client@, k) && texts(r@) == wireguard_lines_of(k),
{
    let server = x25519_secret();
    let client = x25519_secret();
    let keys = wireguard_keys_from(&server, &client);
    wireguard_lines(&keys)
}

/// Whether `k` holds the secret and the public key that belongs to it, in URL-safe Base64,
/// and the identifier in hexadecimal.
pub open spec fn reality_keys_of(secret: Seq<u8>, id: Seq<u8>, k: RealityKeys) -> bool {
    &&& k.private@ == base64_url_encoded(secret)
    &&& k.public@ == base64_url_encoded(x25519_public_of(secret))
    &&& k.short_id@ == hex_text(id)
}

/// The keys that belong to a secret.
pub fn reality_keys_from(secret: &[u8; 32], id: &[u8]) -> (r: RealityKeys)
    ensures
        reality_keys_of(secret@, id@, r),
{
    RealityKeys {
        private: base64_url_encode(secret.as_slice()),
        public: base64_url_encode(x25519_public_key(secret).as_slice()),
        short_id: hex_encode(id),
    }
}

/// What is printed about the keys, line by line.
pub open spec fn reality_lines_of(k: RealityKeys) -> Seq<Seq<char>> {
    seq![
        "=== Reality 密钥对 ==="@,
        ""@,
        "# ── 服务端（填入 ruproxy config.toml [vless.tls] / [vmess.tls]）──"@,
        "[vless.tls]"@,
        "type        = \"reality\""@,
        "private_key = \""@ + k.private@ + "\""@,
        "short_ids   = [\""@ + k.short_id@ + "\"]"@,
        "# server_names 填你想伪装的域名，例如："@,
        "# server_names = [\"www.microsoft.com\"]"@,
        ""@,
        "# ── 客户端（Xray / sing-box outbound）──"@,
        "# public_key = \""@ + k.public@ + "\""@,
        "# short_id   = \""@ + k.short_id@ + "\""@,
        ""@,
        "# ── 原始值（便于复制）──"@,
        "private_key : "@ + k.private@ + ""@,
        "public_key  : "@ + k.public@ + ""@,
        "short_id    : "@ + k.short_id@ + ""@,
    ]
}

/// What is printed about the keys, line by line.
pub fn reality_lines(k: &RealityKeys) -> (r: Vec<String>)
    ensures
        texts(r@) == reality_lines_of(*k),
{
    let mut out: Vec<String> = Vec::new();
    out.push("=== Reality 密钥对 ===".to_owned());
    out.push("".to_owned());
    out.push("# ── 服务端（填入 ruproxy config.toml [vless.tls] / [vmess.tls]）──".to_owned());
    out.push("[vless.tls]".to_owned());
    out.push("type        = \"reality\"".to_owned());
    out.push(enclosed("private_key = \"", k.private.as_str(), "\""));
    out.push(enclosed("short_ids   = [\"", k.short_id.as_str(), "\"]"));
    out.push("# server_names 填你想伪装的域名，例如：".to_owned());
    out.push("# server_names = [\"www.microsoft.com\"]".to_owned());
    out.push("".to_owned());
    out.push("# ── 客户端（Xray / sing-box outbound）──".to_owned());
    out.push(enclosed("# public_key = \"", k.public.as_str(), "\""));
    out.push(enclosed("# short_id   = \"", k.short_id.as_str(), "\""));
    out.push("".to_owned());
    out.push("# ── 原始值（便于复制）──".to_owned());
    out.push(enclosed("private_key : ", k.private.as_str(), ""));
    out.push(enclosed("public_key  : ", k.public.as_str(), ""));
    out.push(enclosed("short_id    : ", k.short_id.as_str(), ""));
    assert(texts(out@) =~= reality_lines_of(*k));
    out
}

/// A fresh key pair and an identifier of eight bytes, ready to be printed.
pub fn reality_keypair() -> (r: Vec<String>)
    ensures
        exists|secret: [u8; 32], id: Seq<u8>, k: RealityKeys|
            id.len() == 8 && #[trigger] reality_keys_of(secret@, id, k) && texts(r@)
                == reality_lines_of(k),
{
    let secret = x25519_secret();
    let id = random_bytes(8);
    let keys = reality_keys_from(&secret, id.as_slice());
    reality_lines(&keys)
}

/// Where each key is printed: the server's settings get its own secret and the client's
/// public key, the client's get its own secret and the server's public key.
pub proof fn lemma_wireguard_lines(k: WireguardKeys)
    ensures
        ({
            let lines = wireguard_lines_of(k);
            &&& lines[3] == "[wireguard]"@
            &&& lines[4] == "private_key    = \""@ + k.server_private@ + "\""@
            &&& lines[9] == "[Interface]"@
            &&& lines[10] == "PrivateKey = "@ + k.client_private@ + ""@
            &&& lines[14] == "[Peer]"@
            &&& lines[15] == "PublicKey           = "@ + k.server_public@ + ""@
            &&& lines[21] == "[[wireguard.peers]]"@
            &&& lines[22] == "public_key  = \""@ + k.client_public@ + "\""@
        }),
{
}

/// Where each part is printed: the server's settings get the secret and the identifier, the
/// client's the public key and the identifier.
pub proof fn lemma_reality_lines(k: RealityKeys)
    ensures
        ({
            let lines = reality_lines_of(k);
            &&& lines[3] == "[vless.tls]"@
            &&& lines[5] == "private_key = \""@ + k.private@ + "\""@
            &&& lines[6] == "short_ids   = [\""@ + k.short_id@ + "\"]"@
            &&& lines[11] == "# public_key = \""@ + k.public@ + "\""@
            &&& lines[12] == "# short_id   = \""@ + k.short_id@ + "\""@
            &&& lines[15] == "private_key : "@ + k.private@ + ""@
            &&& lines[16] == "public_key  : "@ + k.public@ + ""@
            &&& lines[17] == "short_id    : "@ + k.short_id@ + ""@
        }),
{
}

} // verus!
