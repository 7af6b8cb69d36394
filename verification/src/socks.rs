//! SOCKS5: the handshake up to the request to connect.
use crate::address::{address_of, read_address, AddressError, Target, TargetView, ATYP_IPV4};
use crate::config::SocksUser;
use crate::text::{same_text, utf8_lossy, utf8_lossy_of};
use crate::wire::{copy_range, Decoded, DecodedView};
use vstd::prelude::*;
use vstd::utf8::{decode_utf8, valid_utf8};

verus! {

pub const VER: u8 = 0x05;

pub const METHOD_NO_AUTH: u8 = 0x00;

pub const METHOD_PASSWORD: u8 = 0x02;

pub const METHOD_NO_ACCEPTABLE: u8 = 0xff;

pub const CMD_CONNECT: u8 = 0x01;

pub const REP_SUCCESS: u8 = 0x00;

pub const REP_GENERAL_FAILURE: u8 = 0x01;

pub const REP_CMD_NOT_SUPPORTED: u8 = 0x07;

pub const REP_ATYP_NOT_SUPPORTED: u8 = 0x08;

/// What the client is to send next.
#[derive(Debug, Clone, Copy, PartialEq, Eq, Structural)]
pub enum Stage {
    Greeting,
    Credentials,
    Request,
    Over,
}

/// Why a client is turned away.
#[derive(Debug, Clone, Copy, PartialEq, Eq, Structural)]
pub enum SocksError {
    Version(u8),
    CredentialsVersion(u8),
    /// None of the ways to log in that the client offers will do.
    NoMethod,
    /// No user has this name and password.
    Login,
    Address(AddressError),
    Command(u8),
    /// Nothing more is expected of the client.
    Over,
}

/// What to do about the bytes that the client has sent.
pub enum SocksStep {
    /// Wait until this many are there.
    More(usize),
    /// Send this, and go on behind the first so many bytes.
    Reply(Vec<u8>, usize),
    /// Connect to the target; data of the client starts behind the first so many bytes.
    Connect(Target, usize),
    /// Send this, and close.
    Refuse(Vec<u8>, SocksError),
}

/// The mathematical counterpart of [`SocksStep`].
pub enum SocksStepView {
    More(nat),
    Reply(Seq<u8>, nat),
    Connect(TargetView, nat),
    Refuse(Seq<u8>, SocksError),
}

impl View for SocksStep {
    type V = SocksStepView;

    open spec fn view(&self) -> SocksStepView {
        match *self {
            SocksStep::More(n) => SocksStepView::More(n as nat),
            SocksStep::Reply(b, n) => SocksStepView::Reply(b@, n as nat),
            SocksStep::Connect(t, n) => SocksStepView::Connect(t@, n as nat),
            SocksStep::Refuse(b, e) => SocksStepView::Refuse(b@, e),
        }
    }
}

/// The answer to a request: no more than its code, with an address of zeros.
pub open spec fn reply_bytes(rep: u8) -> Seq<u8> {
    seq![VER, rep, 0, ATYP_IPV4, 0, 0, 0, 0, 0, 0]
}

/// The answer to a request.
pub fn reply(rep: u8) -> (r: Vec<u8>)
    ensures
        r@ == reply_bytes(rep),
{
    let r: Vec<u8> = vec![VER, rep, 0, ATYP_IPV4, 0, 0, 0, 0, 0, 0];
    assert(r@ =~= reply_bytes(rep));
    r
}

/// The answer once the target has been reached, or not.
pub fn connect_reply(reached: bool) -> (r: Vec<u8>)
    ensures
        r@ == reply_bytes(
            if reached {
                REP_SUCCESS
            } else {
                REP_GENERAL_FAILURE
            },
        ),
{
    if reached {
        reply(REP_SUCCESS)
    } else {
        reply(REP_GENERAL_FAILURE)
    }
}

/// Whether one of the users has the name and the password.
pub open spec fn known_user(users: Seq<SocksUser>, name: Seq<char>, password: Seq<char>) -> bool {
    exists|i: int|
        0 <= i < users.len() && (#[trigger] users[i]).username@ == name && users[i].password@
            == password
}

/// Whether one of the users has the name and the password.
pub fn check_user(users: &Vec<SocksUser>, name: &str, password: &str) -> (r: bool)
    ensures
        r == known_user(users@, name@, password@),
{
    let mut i: usize = 0;
    while i < users.len()
        invariant
            i <= users@.len(),
            forall|j: int|
                0 <= j < i ==> !((#[trigger] users@[j]).username@ == name@ && users@[j].password@
                    == password@),
        decreases users@.len() - i,
    {
        if same_text(users[i].username.as_str(), name) && same_text(
            users[i].password.as_str(),
            password,
        ) {
            return true;
        }
        i = i + 1;
    }
    false
}

/// Whether the bytes of a name and of a password are those of a user. Bytes that are
/// UTF-8 are compared as the texts that they are; in others the invalid parts are
/// replaced first.
pub fn check_login(users: &Vec<SocksUser>, name: &[u8], password: &[u8]) -> (r: bool)
    ensures
        r == known_user(users@, utf8_lossy_of(name@), utf8_lossy_of(password@)),
        valid_utf8(name@) && valid_utf8(password@) ==> r == known_user(
            users@,
            decode_utf8(name@),
            decode_utf8(password@),
        ),
{
    let name = utf8_lossy(name);
    let password = utf8_lossy(password);
    check_user(users, name.as_str(), password.as_str())
}

/// What follows from a greeting: `VER | NMETHODS | METHODS`.
pub open spec fn on_greeting(users: Seq<SocksUser>, buf: Seq<u8>) -> (Stage, SocksStepView) {
    if buf.len() < 1 {
        (Stage::Greeting, SocksStepView::More(1))
    } else if buf[0] != VER {
        (Stage::Over, SocksStepView::Refuse(Seq::empty(), SocksError::Version(buf[0])))
    } else if buf.len() < 2 {
        (Stage::Greeting, SocksStepView::More(2))
    } else if buf.len() < 2 + buf[1] {
        (Stage::Greeting, SocksStepView::More((2 + buf[1]) as nat))
    } else {
        let end = 2 + buf[1];
        let methods = buf.subrange(2, end);
        if users.len() > 0 && methods.contains(METHOD_PASSWORD) {
            (Stage::Credentials, SocksStepView::Reply(seq![VER, METHOD_PASSWORD], end as nat))
        } else if users.len() == 0 && methods.contains(METHOD_NO_AUTH) {
            (Stage::Request, SocksStepView::Reply(seq![VER, METHOD_NO_AUTH], end as nat))
        } else {
            (
                Stage::Over,
                SocksStepView::Refuse(seq![VER, METHOD_NO_ACCEPTABLE], SocksError::NoMethod),
            )
        }
    }
}

/// What follows from a name and a password: `1 | ULEN | UNAME | PLEN | PASSWD`.
pub open spec fn on_credentials(users: Seq<SocksUser>, buf: Seq<u8>) -> (Stage, SocksStepView) {
    if buf.len() < 1 {
        (Stage::Credentials, SocksStepView::More(1))
    } else if buf[0] != 1 {
        (Stage::Over, SocksStepView::Refuse(Seq::empty(), SocksError::CredentialsVersion(buf[0])))
    } else if buf.len() < 2 {
        (Stage::Credentials, SocksStepView::More(2))
    } else {
        let name_end = 2 + buf[1];
        if buf.len() < name_end + 1 {
            (Stage::Credentials, SocksStepView::More((name_end + 1) as nat))
        } else {
            let end = name_end + 1 + buf[name_end];
            if buf.len() < end {
                (Stage::Credentials, SocksStepView::More(end as nat))
            } else if known_user(
                users,
                utf8_lossy_of(buf.subrange(2, name_end)),
                utf8_lossy_of(buf.subrange(name_end + 1, end)),
            ) {
                (Stage::Request, SocksStepView::Reply(seq![1u8, 0], end as nat))
            } else {
                (Stage::Over, SocksStepView::Refuse(seq![1u8, 1], SocksError::Login))
            }
        }
    }
}

/// What follows from a request: `VER | CMD | RSV | ATYP | ADDR | PORT`.
pub open spec fn on_request(buf: Seq<u8>) -> (Stage, SocksStepView) {
    if buf.len() < 1 {
        (Stage::Request, SocksStepView::More(1))
    } else if buf[0] != VER {
        (Stage::Over, SocksStepView::Refuse(Seq::empty(), SocksError::Version(buf[0])))
    } else if buf.len() < 4 {
        (Stage::Request, SocksStepView::More(4))
    } else {
        match address_of(buf.subrange(3, buf.len() as int)) {
            DecodedView::More(n) => (Stage::Request, SocksStepView::More(n + 3)),
            DecodedView::Bad(AddressError::UnknownType(t)) => (
                Stage::Over,
                SocksStepView::Refuse(
                    reply_bytes(REP_ATYP_NOT_SUPPORTED),
                    SocksError::Address(AddressError::UnknownType(t)),
                ),
            ),
            DecodedView::Bad(e) => (
                Stage::Over,
                SocksStepView::Refuse(Seq::empty(), SocksError::Address(e)),
            ),
            DecodedView::Done(target, n) => if buf[1] != CMD_CONNECT {
                (
                    Stage::Over,
                    SocksStepView::Refuse(
                        reply_bytes(REP_CMD_NOT_SUPPORTED),
                        SocksError::Command(buf[1]),
                    ),
                )
            } else {
                (Stage::Over, SocksStepView::Connect(target, n + 3))
            },
        }
    }
}

/// What follows from the bytes that a client has sent since the stage began: the next
/// stage, and what to do.
pub open spec fn step_of(stage: Stage, users: Seq<SocksUser>, buf: Seq<u8>) -> (
    Stage,
    SocksStepView,
) {
    match stage {
        Stage::Greeting => on_greeting(users, buf),
        Stage::Credentials => on_credentials(users, buf),
        Stage::Request => on_request(buf),
        Stage::Over => (Stage::Over, SocksStepView::Refuse(Seq::empty(), SocksError::Over)),
    }
}

/// Whether `b` is among the bytes of `buf[from..to]`.
fn among(buf: &[u8], from: usize, to: usize, b: u8) -> (r: bool)
    requires
        from <= to <= buf@.len(),
    ensures
        r == buf@.subrange(from as int, to as int).contains(b),
{
    let ghost part = buf@.subrange(from as int, to as int);
    let mut i: usize = from;
    while i < to
        invariant
            from <= i <= to <= buf@.len(),
            part == buf@.subrange(from as int, to as int),
            forall|k: int| from <= k < i ==> buf@[k] != b,
        decreases to - i,
    {
        if buf[i] == b {
            assert(part[i - from] == b);
            return true;
        }
        i = i + 1;
    }
    assert forall|k: int| 0 <= k < part.len() implies part[k] != b by {
        assert(part[k] == buf@[from + k]);
    }
    false
}

/// Two bytes.
fn pair(a: u8, b: u8) -> (r: Vec<u8>)
    ensures
        r@ == seq![a, b],
{
    let r: Vec<u8> = vec![a, b];
    assert(r@ =~= seq![a, b]);
    r
}

/// A client that has not got as far as a connection.
pub struct Handshake {
    pub stage: Stage,
}

impl Handshake {
    /// A client that has just connected.
    pub fn new() -> (r: Handshake)
        ensures
            r.stage == Stage::Greeting,
    {
        Handshake { stage: Stage::Greeting }
    }

    fn greeting(&mut self, users: &Vec<SocksUser>, buf: &[u8]) -> (r: SocksStep)
        requires
            old(self).stage == Stage::Greeting,
        ensures
            (final(self).stage, r@) == on_greeting(users@, buf@),
    {
        let n: usize = buf.len();
        if n < 1 {
            return SocksStep::More(1);
        }
        if buf[0] != VER {
            self.stage = Stage::Over;
            return SocksStep::Refuse(Vec::new(), SocksError::Version(buf[0]));
        }
        if n < 2 {
            return SocksStep::More(2);
        }
        let end: usize = 2 + buf[1] as usize;
        if n < end {
            return SocksStep::More(end);
        }
        if users.len() > 0 && among(buf, 2, end, METHOD_PASSWORD) {
            self.stage = Stage::Credentials;
            SocksStep::Reply(pair(VER, METHOD_PASSWORD), end)
        } else if users.len() == 0 && among(buf, 2, end, METHOD_NO_AUTH) {
            self.stage = Stage::Request;
            SocksStep::Reply(pair(VER, METHOD_NO_AUTH), end)
        } else {
            self.stage = Stage::Over;
            SocksStep::Refuse(pair(VER, METHOD_NO_ACCEPTABLE), SocksError::NoMethod)
        }
    }

    fn credentials(&mut self, users: &Vec<SocksUser>, buf: &[u8]) -> (r: SocksStep)
        requires
            old(self).stage == Stage::Credentials,
        ensures
            (final(self).stage, r@) == on_credentials(users@, buf@),
    {
        let n: usize = buf.len();
        if n < 1 {
            return SocksStep::More(1);
        }
        if buf[0] != 1 {
            self.stage = Stage::Over;
            return SocksStep::Refuse(Vec::new(), SocksError::CredentialsVersion(buf[0]));
        }
        if n < 2 {
            return SocksStep::More(2);
        }
        let name_end: usize = 2 + buf[1] as usize;
        if n < name_end + 1 {
            return SocksStep::More(name_end + 1);
        }
        let end: usize = name_end + 1 + buf[name_end] as usize;
        if n < end {
            return SocksStep::More(end);
        }
        let name = copy_range(buf, 2, name_end);
        let password = copy_range(buf, name_end + 1, end);
        if check_login(users, name.as_slice(), password.as_slice()) {
            self.stage = Stage::Request;
            SocksStep::Reply(pair(1, 0), end)
        } else {
            self.stage = Stage::Over;
            SocksStep::Refuse(pair(1, 1), SocksError::Login)
        }
    }

    fn request(&mut self, buf: &[u8]) -> (r: SocksStep)
        requires
            old(self).stage == Stage::Request,
        ensures
            (final(self).stage, r@) == on_request(buf@),
    {
        let n: usize = buf.len();
        if n < 1 {
            return SocksStep::More(1);
        }
        if buf[0] != VER {
            self.stage = Stage::Over;
            return SocksStep::Refuse(Vec::new(), SocksError::Version(buf[0]));
        }
        if n < 4 {
            return SocksStep::More(4);
        }
        proof {
            crate::address::lemma_address_prefix(buf@.subrange(3, n as int), Seq::empty());
        }
        let decoded = read_address(&buf[3..n]);
        match decoded {
            Decoded::More(k) => {
                assert(k <= 2 + 255 + 2);
                SocksStep::More(k + 3)
            },
            Decoded::Bad(AddressError::UnknownType(t)) => {
                self.stage = Stage::Over;
                SocksStep::Refuse(
                    reply(REP_ATYP_NOT_SUPPORTED),
                    SocksError::Address(AddressError::UnknownType(t)),
                )
            },
            Decoded::Bad(e) => {
                self.stage = Stage::Over;
                SocksStep::Refuse(Vec::new(), SocksError::Address(e))
            },
            Decoded::Done(target, k) => {
                self.stage = Stage::Over;
                if buf[1] != CMD_CONNECT {
                    SocksStep::Refuse(reply(REP_CMD_NOT_SUPPORTED), SocksError::Command(buf[1]))
                } else {
                    SocksStep::Connect(target, k + 3)
                }
            },
        }
    }

    /// Takes the bytes that the client has sent since the last reply.
    pub fn step(&mut self, users: &Vec<SocksUser>, buf: &[u8]) -> (r: SocksStep)
        ensures
            (final(self).stage, r@) == step_of(old(self).stage, users@, buf@),
    {
        match self.stage {
            Stage::Greeting => self.greeting(users, buf),
            Stage::Credentials => self.credentials(users, buf),
            Stage::Request => self.request(buf),
            Stage::Over => SocksStep::Refuse(Vec::new(), SocksError::Over),
        }
    }
}

/// Whether the bytes are a name and a password, complete, that one of the users has.
pub open spec fn logs_in(users: Seq<SocksUser>, buf: Seq<u8>) -> bool {
    &&& buf.len() >= 2 && buf[0] == 1
    &&& buf.len() >= 3 + buf[1]
    &&& buf.len() >= 3 + buf[1] + buf[2 + buf[1]]
    &&& known_user(
        users,
        utf8_lossy_of(buf.subrange(2, 2 + buf[1])),
        utf8_lossy_of(buf.subrange(3 + buf[1], 3 + buf[1] + buf[2 + buf[1]])),
    )
}

/// Where there are users, nobody connects who has not logged in as one of them: the
/// stage in which requests are taken is entered with a known name and password only.
pub proof fn lemma_connect_needs_login(stage: Stage, users: Seq<SocksUser>, buf: Seq<u8>)
    requires
        users.len() > 0,
    ensures
        step_of(stage, users, buf).1 is Connect ==> stage == Stage::Request,
        step_of(stage, users, buf).0 == Stage::Request ==> stage == Stage::Request || (stage
            == Stage::Credentials && logs_in(users, buf)),
{
}

/// Whoever is turned away stays turned away.
pub proof fn lemma_over_stays_over(users: Seq<SocksUser>, stage: Stage, buf: Seq<u8>, later: Seq<u8>)
    requires
        step_of(stage, users, buf).1 is Refuse,
    ensures
        step_of(stage, users, buf).0 == Stage::Over,
        step_of(Stage::Over, users, later).0 == Stage::Over,
        step_of(Stage::Over, users, later).1 is Refuse,
{
}

/// A request to connect that is written as `VER | CONNECT | 0 | address` is taken as it
/// was meant, and what follows it is the client's data.
pub proof fn lemma_request_round_trip(target: TargetView, data: Seq<u8>)
    requires
        crate::address::writable(target.host),
        target.port < 0x1_0000,
    ensures
        ({
            let head = seq![VER, CMD_CONNECT, 0u8] + crate::address::address_bytes(target);
            on_request(head + data) == (
                Stage::Over,
                SocksStepView::Connect(target, head.len()),
            )
        }),
{
    let address = crate::address::address_bytes(target);
    let head = seq![VER, CMD_CONNECT, 0u8] + address;
    let all = head + data;
    crate::wire::lemma_be_bytes_len(target.port, 2);
    assert(all.subrange(3, all.len() as int) =~= address + data);
    crate::address::lemma_address_round_trip(target, data);
}

/// A greeting, byte by byte: version 5, how many ways to log in, and those ways. Without
/// users the way 0 is chosen, with users the way 2; a client that offers neither is told
/// 255. What follows the greeting does not matter.
pub proof fn lemma_greeting_layout(users: Seq<SocksUser>, methods: Seq<u8>, rest: Seq<u8>)
    requires
        methods.len() <= 255,
    ensures
        ({
            let n = methods.len() + 2;
            let wanted: u8 = if users.len() == 0 {
                0
            } else {
                2
            };
            on_greeting(users, seq![5u8, methods.len() as u8] + methods + rest)
                == if methods.contains(wanted) {
                (
                    if users.len() == 0 {
                        Stage::Request
                    } else {
                        Stage::Credentials
                    },
                    SocksStepView::Reply(seq![5u8, wanted], n),
                )
            } else {
                (Stage::Over, SocksStepView::Refuse(seq![5u8, 0xffu8], SocksError::NoMethod))
            }
        }),
{
    let buf = seq![5u8, methods.len() as u8] + methods + rest;
    assert(buf.subrange(2, 2 + methods.len() as int) =~= methods);
}

/// A name and a password, byte by byte: version 1, and each behind its length. A user is
/// answered 0, anybody else 1.
pub proof fn lemma_credentials_layout(
    users: Seq<SocksUser>,
    name: Seq<u8>,
    password: Seq<u8>,
    rest: Seq<u8>,
)
    requires
        name.len() <= 255,
        password.len() <= 255,
    ensures
        on_credentials(
            users,
            seq![1u8, name.len() as u8] + name + seq![password.len() as u8] + password + rest,
        ) == if known_user(users, utf8_lossy_of(name), utf8_lossy_of(password)) {
            (Stage::Request, SocksStepView::Reply(seq![1u8, 0u8], name.len() + password.len() + 3))
        } else {
            (Stage::Over, SocksStepView::Refuse(seq![1u8, 1u8], SocksError::Login))
        },
{
    let buf = seq![1u8, name.len() as u8] + name + seq![password.len() as u8] + password + rest;
    let at = 2 + name.len() as int;
    assert(buf.subrange(2, at) =~= name);
    assert(buf[at] == password.len());
    assert(buf.subrange(at + 1, at + 1 + password.len()) =~= password);
}

/// A request, byte by byte: version 5, the command, a byte that is not looked at, and the
/// address. The command 1 connects to the address; another is answered 7, an address of no
/// known form 8, each with an address of zeros.
pub proof fn lemma_request_layout(
    target: TargetView,
    command: u8,
    unused: u8,
    form: u8,
    data: Seq<u8>,
)
    requires
        crate::address::writable(target.host),
        target.port < 0x1_0000,
    ensures
        on_request(
            seq![5u8, command, unused] + crate::address::address_bytes(target) + data,
        ) == if command == 1 {
            (
                Stage::Over,
                SocksStepView::Connect(target, 3 + crate::address::address_bytes(target).len()),
            )
        } else {
            (
                Stage::Over,
                SocksStepView::Refuse(
                    seq![5u8, 7, 0, 1, 0, 0, 0, 0, 0, 0],
                    SocksError::Command(command),
                ),
            )
        },
        form != 1 && form != 3 && form != 4 ==> on_request(
            seq![5u8, command, unused, form] + data,
        ) == (
            Stage::Over,
            SocksStepView::Refuse(
                seq![5u8, 8, 0, 1, 0, 0, 0, 0, 0, 0],
                SocksError::Address(AddressError::UnknownType(form)),
            ),
        ),
        reply_bytes(REP_SUCCESS) == seq![5u8, 0, 0, 1, 0, 0, 0, 0, 0, 0],
        reply_bytes(REP_GENERAL_FAILURE) == seq![5u8, 1, 0, 1, 0, 0, 0, 0, 0, 0],
{
    let address = crate::address::address_bytes(target);
    let all = seq![5u8, command, unused] + address + data;
    crate::wire::lemma_be_bytes_len(target.port, 2);
    assert(all.subrange(3, all.len() as int) =~= address + data);
    crate::address::lemma_address_round_trip(target, data);
    let other = seq![5u8, command, unused, form] + data;
    assert(other.subrange(3, other.len() as int)[0] == form);
}

/// Bytes of another version are refused at once, at every stage.
pub proof fn lemma_other_versions(users: Seq<SocksUser>, buf: Seq<u8>)
    requires
        buf.len() > 0,
    ensures
        buf[0] != 5 ==> on_greeting(users, buf) == (
            Stage::Over,
            SocksStepView::Refuse(Seq::empty(), SocksError::Version(buf[0])),
        ),
        buf[0] != 5 ==> on_request(buf) == (
            Stage::Over,
            SocksStepView::Refuse(Seq::empty(), SocksError::Version(buf[0])),
        ),
        buf[0] != 1 ==> on_credentials(users, buf) == (
            Stage::Over,
            SocksStepView::Refuse(Seq::empty(), SocksError::CredentialsVersion(buf[0])),
        ),
{
}

} // verus!
