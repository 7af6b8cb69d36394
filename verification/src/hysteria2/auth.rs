//! The request with which a client signs on, and the answers to it.
use crate::config::AuthConfig;
use crate::hysteria2::tcp::{gen_padding, is_padding};
use crate::text;
use vstd::prelude::*;

verus! {

/// The status that lets a client in.
pub const STATUS_AUTH_OK: u16 = 233;

/// The status that keeps a client out.
pub const STATUS_AUTH_FAILED: u16 = 403;

/// What a request before sign-on comes to.
#[derive(Debug, Clone, Copy, PartialEq, Eq, Structural)]
pub enum AuthStep {
    /// It is no sign-on: it is answered like any web server would.
    Masquerade,
    /// The client is let in.
    Accept,
    /// The client is kept out and the connection closed.
    Reject,
}

/// What a client has to say to be let in.
pub open spec fn admits(auth: AuthConfig, value: Seq<char>) -> bool {
    match auth {
        AuthConfig::Password { password } => value == password@,
        AuthConfig::Open => true,
    }
}

/// Signing on is a `POST` of `/auth` on the host `hysteria`.
pub open spec fn is_sign_on(method: Seq<char>, host: Seq<char>, path: Seq<char>) -> bool {
    method == "POST"@ && host == "hysteria"@ && path == "/auth"@
}

/// What a request comes to.
pub open spec fn auth_step_of(
    auth: AuthConfig,
    method: Seq<char>,
    host: Seq<char>,
    path: Seq<char>,
    value: Seq<char>,
) -> AuthStep {
    if !is_sign_on(method, host, path) {
        AuthStep::Masquerade
    } else if admits(auth, value) {
        AuthStep::Accept
    } else {
        AuthStep::Reject
    }
}

/// Decides on a request before sign-on. `value` is its `Hysteria-Auth` header, empty where
/// there is none that is text.
pub fn auth_step(auth: &AuthConfig, method: &str, host: &str, path: &str, value: &str) -> (r: AuthStep)
    ensures
        r == auth_step_of(*auth, method@, host@, path@, value@),
{
    if !(text::same_text(method, "POST") && text::same_text(host, "hysteria") && text::same_text(
        path,
        "/auth",
    )) {
        return AuthStep::Masquerade;
    }
    let ok = match auth {
        AuthConfig::Password { password } => text::same_text(value, password.as_str()),
        AuthConfig::Open => true,
    };
    if ok {
        AuthStep::Accept
    } else {
        AuthStep::Reject
    }
}

/// With a password set, nobody gets in without it; without one, everybody does.
pub proof fn lemma_password_decides(
    auth: AuthConfig,
    method: Seq<char>,
    host: Seq<char>,
    path: Seq<char>,
    value: Seq<char>,
)
    ensures
        auth_step_of(auth, method, host, path, value) == AuthStep::Accept <==> is_sign_on(
            method,
            host,
            path,
        ) && (auth matches AuthConfig::Password { password } ==> value == password@),
{
}

/// The texts of a list of headers.
pub open spec fn header_texts(v: Seq<(String, String)>) -> Seq<(Seq<char>, Seq<char>)> {
    v.map_values(|h: (String, String)| (h.0@, h.1@))
}

/// The rate, in bytes per second, at which the server takes data; 0 sets no limit.
pub open spec fn rate_text(down_bps: Option<u64>) -> Seq<char> {
    match down_bps {
        Some(n) => text::decimal_of(n as nat),
        None => "0"@,
    }
}

/// The headers of the answer that lets a client in, with the given padding.
pub open spec fn auth_ok_headers_of(down_bps: Option<u64>, padding: Seq<char>) -> Seq<
    (Seq<char>, Seq<char>),
> {
    seq![
        ("hysteria-udp"@, "true"@),
        ("hysteria-cc-rx"@, rate_text(down_bps)),
        ("hysteria-padding"@, padding),
    ]
}

/// The headers of the answer that lets a client in.
pub fn auth_ok_headers(down_bps: Option<u64>) -> (r: Vec<(String, String)>)
    ensures
        exists|padding: Seq<char>|
            is_padding(padding, 256, 2048) && header_texts(r@) == #[trigger] auth_ok_headers_of(
                down_bps,
                padding,
            ),
{
    let padding = gen_padding(256, 2048);
    let ghost p = padding@;
    let rate = match down_bps {
        Some(n) => text::decimal_text(n),
        None => "0".to_owned(),
    };
    let mut v: Vec<(String, String)> = Vec::new();
    v.push(("hysteria-udp".to_owned(), "true".to_owned()));
    v.push(("hysteria-cc-rx".to_owned(), rate));
    v.push(("hysteria-padding".to_owned(), padding));
    assert(header_texts(v@) =~= auth_ok_headers_of(down_bps, p));
    v
}

/// The headers of the answer that keeps a client out, with the given padding.
pub open spec fn auth_fail_headers_of(padding: Seq<char>) -> Seq<(Seq<char>, Seq<char>)> {
    seq![("hysteria-padding"@, padding)]
}

/// The headers of the answer that keeps a client out.
pub fn auth_fail_headers() -> (r: Vec<(String, String)>)
    ensures
        exists|padding: Seq<char>|
            is_padding(padding, 64, 256) && header_texts(r@) == #[trigger] auth_fail_headers_of(
                padding,
            ),
{
    let padding = gen_padding(64, 256);
    let ghost p = padding@;
    let mut v: Vec<(String, String)> = Vec::new();
    v.push(("hysteria-padding".to_owned(), padding));
    assert(header_texts(v@) =~= auth_fail_headers_of(p));
    v
}

/// The UDP sessions of a connection.
pub struct UdpSessions {
    ids: Vec<u32>,
}

impl UdpSessions {
    pub closed spec fn open(&self) -> Set<u32> {
        self.ids@.to_set()
    }

    /// No session is listed twice.
    pub closed spec fn wf(&self) -> bool {
        self.ids@.no_duplicates()
    }

    pub fn new() -> (r: Self)
        ensures
            r.wf(),
            r.open() == Set::<u32>::empty(),
    {
        let r = UdpSessions { ids: Vec::new() };
        assert(r.open() =~= Set::<u32>::empty());
        r
    }

    fn find(&self, id: u32) -> (r: Option<usize>)
        ensures
            match r {
                Some(i) => i < self.ids@.len() && self.ids@[i as int] == id,
                None => !self.ids@.contains(id),
            },
    {
        let mut i: usize = 0;
        while i < self.ids.len()
            invariant
                i <= self.ids@.len(),
                forall|k: int| 0 <= k < i ==> self.ids@[k] != id,
            decreases self.ids@.len() - i,
        {
            if self.ids[i] == id {
                return Some(i);
            }
            i = i + 1;
        }
        None
    }

    /// A datagram for a session has arrived: `true` where the session has to be started.
    pub fn on_datagram(&mut self, id: u32) -> (r: bool)
        requires
            old(self).wf(),
        ensures
            final(self).wf(),
            r == !old(self).open().contains(id),
            final(self).open() == old(self).open().insert(id),
    {
        let ghost before = self.ids@;
        match self.find(id) {
            Some(i) => {
                assert(before[i as int] == id);
                assert(before.to_set().insert(id) =~= before.to_set());
                false
            },
            None => {
                self.ids.push(id);
                proof {
                    let after = self.ids@;
                    assert forall|x: u32| after.to_set().contains(x) == before.to_set().insert(
                        id,
                    ).contains(x) by {
                        if after.contains(x) {
                            let k = choose|k: int| 0 <= k < after.len() && after[k] == x;
                            if k < before.len() {
                                assert(before[k] == x);
                            }
                        }
                        if before.contains(x) {
                            let k = choose|k: int| 0 <= k < before.len() && before[k] == x;
                            assert(after[k] == x);
                        }
                        if x == id {
                            assert(after[before.len() as int] == id);
                        }
                    }
                    assert(after.to_set() =~= before.to_set().insert(id));
                }
                true
            },
        }
    }

    /// A session is over.
    pub fn on_closed(&mut self, id: u32)
        requires
            old(self).wf(),
        ensures
            final(self).wf(),
            final(self).open() == old(self).open().remove(id),
    {
        let ghost before = self.ids@;
        match self.find(id) {
            Some(i) => {
                let gone = self.ids.remove(i);
                proof {
                    let after = self.ids@;
                    assert forall|x: u32| after.to_set().contains(x) == before.to_set().remove(
                        id,
                    ).contains(x) by {
                        if after.contains(x) {
                            let k = choose|k: int| 0 <= k < after.len() && after[k] == x;
                            if k < i {
                                assert(before[k] == x);
                            } else {
                                assert(before[k + 1] == x);
                            }
                        }
                        if before.contains(x) && x != id {
                            let k = choose|k: int| 0 <= k < before.len() && before[k] == x;
                            if k < i {
                                assert(after[k] == x);
                            } else {
                                assert(after[k - 1] == x);
                            }
                        }
                    }
                    assert(after.to_set() =~= before.to_set().remove(id));
                }
            },
            None => {
                assert(!before.to_set().contains(id));
                assert(before.to_set().remove(id) =~= before.to_set());
            },
        }
    }
}

/// Only a `POST` of `/auth` on the host `hysteria` signs on; anything else gets the page
/// that the server pretends to be.
pub proof fn lemma_only_sign_on_counts(
    password: String,
    method: Seq<char>,
    host: Seq<char>,
    path: Seq<char>,
    value: Seq<char>,
)
    ensures
        ({
            let asks = method == "POST"@ && host == "hysteria"@ && path == "/auth"@;
            let auth = AuthConfig::Password { password };
            &&& !asks ==> auth_step_of(auth, method, host, path, value) == AuthStep::Masquerade
            &&& !asks ==> auth_step_of(AuthConfig::Open, method, host, path, value)
                == AuthStep::Masquerade
            &&& asks && value == password@ ==> auth_step_of(auth, method, host, path, value)
                == AuthStep::Accept
            &&& asks && value != password@ ==> auth_step_of(auth, method, host, path, value)
                == AuthStep::Reject
            &&& asks ==> auth_step_of(AuthConfig::Open, method, host, path, value)
                == AuthStep::Accept
        }),
{
}

/// The answer that lets a client in says that there is UDP, at what rate the server takes
/// data in decimal, 0 where it sets no limit, and padding. The rate can be read back.
pub proof fn lemma_answer_headers(rate: u64, padding: Seq<char>)
    ensures
        ({
            let h = auth_ok_headers_of(Some(rate), padding);
            &&& h.len() == 3
            &&& h[0] == ("hysteria-udp"@, "true"@)
            &&& h[1].0 == "hysteria-cc-rx"@
            &&& text::parse_unsigned_of(h[1].1, u64::MAX as nat) == Some(rate as nat)
            &&& h[2] == ("hysteria-padding"@, padding)
        }),
        auth_ok_headers_of(None, padding)[1] == ("hysteria-cc-rx"@, "0"@),
        auth_fail_headers_of(padding) == seq![("hysteria-padding"@, padding)],
{
    text::lemma_decimal_round_trip(rate as nat, u64::MAX as nat);
}

} // verus!
