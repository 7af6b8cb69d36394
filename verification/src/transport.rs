//! What carries a stream, and what protects it.
use crate::config::{RealityConfig, StandardTlsConfig, TransportConfig, VlessTlsConfig};
use crate::text::{opt_text, same_text};
use crate::xhttp::route::XhttpConfig;
use vstd::prelude::*;

verus! {

/// What carries a stream.
#[derive(Debug, Clone, Copy, PartialEq, Eq, Structural)]
pub enum Transport {
    Tcp,
    Ws,
    Xhttp,
}

/// What protects a stream.
#[derive(Debug, Clone, Copy, PartialEq, Eq, Structural)]
pub enum Security {
    Plain,
    Tls,
    Reality,
}

/// The transport that a name stands for.
pub open spec fn named_transport(kind: Seq<char>) -> Option<Transport> {
    if kind == "tcp"@ {
        Some(Transport::Tcp)
    } else if kind == "ws"@ {
        Some(Transport::Ws)
    } else if kind == "xhttp"@ {
        Some(Transport::Xhttp)
    } else {
        None
    }
}

/// The transport that a name stands for.
pub fn transport_named(kind: &str) -> (r: Option<Transport>)
    ensures
        r == named_transport(kind@),
{
    if same_text(kind, "tcp") {
        Some(Transport::Tcp)
    } else if same_text(kind, "ws") {
        Some(Transport::Ws)
    } else if same_text(kind, "xhttp") {
        Some(Transport::Xhttp)
    } else {
        None
    }
}

/// What protects a VLESS inbound: what its `tls` section says; without one, what the
/// transport says, which either is `reality` or asks for TLS.
pub open spec fn vless_tls_of(
    kind: Seq<char>,
    section: Option<VlessTlsConfig>,
    wants_tls: bool,
    standard: StandardTlsConfig,
    reality: Option<RealityConfig>,
) -> Option<VlessTlsConfig> {
    if section is Some {
        section
    } else if kind == "reality"@ {
        match reality {
            Some(r) => Some(VlessTlsConfig::Reality(r)),
            None => None,
        }
    } else if wants_tls {
        Some(VlessTlsConfig::Tls { standard })
    } else {
        None
    }
}

/// Sorts the settings of a VLESS inbound into its transport and what protects it. Reality
/// runs over TCP.
pub fn vless_layers(
    transport: TransportConfig,
    section: Option<VlessTlsConfig>,
    wants_tls: bool,
    standard: StandardTlsConfig,
    reality: Option<RealityConfig>,
) -> (r: (TransportConfig, Option<VlessTlsConfig>))
    ensures
        r.1 == vless_tls_of(transport.kind@, section, wants_tls, standard, reality),
        ({
            let over_tcp = section is None && transport.kind@ == "reality"@ && reality is Some;
            &&& over_tcp ==> r.0.kind@ == "tcp"@
            &&& !over_tcp ==> r.0.kind@ == transport.kind@
        }),
        r.0.ws_path == transport.ws_path,
        r.0.ws_host == transport.ws_host,
        r.0.xhttp_path == transport.xhttp_path,
        r.0.xhttp_host == transport.xhttp_host,
{
    if section.is_some() {
        return (transport, section);
    }
    if same_text(transport.kind.as_str(), "reality") {
        return match reality {
            Some(x) => {
                let mut over = transport;
                over.kind = "tcp".to_owned();
                (over, Some(VlessTlsConfig::Reality(x)))
            },
            None => (transport, None),
        };
    }
    if wants_tls {
        (transport, Some(VlessTlsConfig::Tls { standard }))
    } else {
        (transport, None)
    }
}

/// What protects the streams of a VLESS inbound.
pub fn vless_security(tls: &Option<VlessTlsConfig>) -> (r: Security)
    ensures
        r == match *tls {
            None => Security::Plain,
            Some(VlessTlsConfig::Tls { .. }) => Security::Tls,
            Some(VlessTlsConfig::Reality(_)) => Security::Reality,
        },
{
    match tls {
        None => Security::Plain,
        Some(VlessTlsConfig::Tls { .. }) => Security::Tls,
        Some(VlessTlsConfig::Reality(_)) => Security::Reality,
    }
}

/// What protects the streams of an inbound that knows TLS only.
pub fn tls_security(tls: &Option<StandardTlsConfig>) -> (r: Security)
    ensures
        r == if *tls is Some {
            Security::Tls
        } else {
            Security::Plain
        },
{
    match tls {
        None => Security::Plain,
        Some(_) => Security::Tls,
    }
}

/// The word for it in the log.
pub fn security_label(s: Security) -> (r: &'static str)
    ensures
        r@ == match s {
            Security::Plain => "none"@,
            Security::Tls => "tls"@,
            Security::Reality => "reality"@,
        },
{
    match s {
        Security::Plain => "none",
        Security::Tls => "tls",
        Security::Reality => "reality",
    }
}

/// Where the HTTP transport serves its streams.
pub fn xhttp_settings(t: &TransportConfig) -> (r: XhttpConfig)
    ensures
        r.path@ == t.xhttp_path@,
        opt_text(r.host) == opt_text(t.xhttp_host),
{
    XhttpConfig {
        path: t.xhttp_path.as_str().to_owned(),
        host: match &t.xhttp_host {
            Some(h) => Some(h.as_str().to_owned()),
            None => None,
        },
    }
}

/// What a VLESS inbound is protected by: its own section, whatever else is set; without
/// one, Reality where the transport is named so and has its settings, and TLS where that is
/// asked for.
pub proof fn lemma_vless_protection(
    kind: Seq<char>,
    own: VlessTlsConfig,
    wants_tls: bool,
    standard: StandardTlsConfig,
    reality: RealityConfig,
)
    ensures
        vless_tls_of(kind, Some(own), wants_tls, standard, Some(reality)) == Some(own),
        vless_tls_of(kind, Some(own), wants_tls, standard, None) == Some(own),
        vless_tls_of("reality"@, None, wants_tls, standard, Some(reality)) == Some(
            VlessTlsConfig::Reality(reality),
        ),
        vless_tls_of("reality"@, None, wants_tls, standard, None) is None,
        kind != "reality"@ ==> vless_tls_of(kind, None, true, standard, Some(reality)) == Some(
            VlessTlsConfig::Tls { standard },
        ),
        kind != "reality"@ ==> vless_tls_of(kind, None, false, standard, Some(reality)) is None,
{
}

/// Three names stand for transports, each for its own, and no other name does.
pub proof fn lemma_transport_names(kind: Seq<char>)
    ensures
        named_transport("tcp"@) == Some(Transport::Tcp),
        named_transport("ws"@) == Some(Transport::Ws),
        named_transport("xhttp"@) == Some(Transport::Xhttp),
        kind != "tcp"@ && kind != "ws"@ && kind != "xhttp"@ ==> named_transport(kind) is None,
{
    reveal_strlit("tcp");
    reveal_strlit("ws");
    reveal_strlit("xhttp");
    assert("tcp"@.len() == 3 && "ws"@.len() == 2 && "xhttp"@.len() == 5);
}

} // verus!
