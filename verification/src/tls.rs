//! What a server proves its name with: a certificate chain and a key, out of two files or
//! made for the occasion.
use crate::text;
use rustls::pki_types::pem::PemObject;
use rustls::pki_types::{CertificateDer, PrivateKeyDer};
use vstd::prelude::*;
use vstd::utf8::is_ascii_chars;

verus! {

/// Where a certificate and its key come from.
#[derive(Debug, Clone)]
pub enum CertSource {
    /// The path of the certificate chain, and that of the key.
    Files(String, String),
    /// The server signs a certificate for this name itself.
    SelfSigned(String),
}

/// The mathematical counterpart of [`CertSource`].
pub enum CertSourceView {
    Files(Seq<char>, Seq<char>),
    SelfSigned(Seq<char>),
}

impl View for CertSource {
    type V = CertSourceView;

    open spec fn view(&self) -> CertSourceView {
        match *self {
            CertSource::Files(cert, key) => CertSourceView::Files(cert@, key@),
            CertSource::SelfSigned(domain) => CertSourceView::SelfSigned(domain@),
        }
    }
}

/// Files where both of them are set; else a certificate that the server signs itself.
pub open spec fn source_of(
    cert_path: Option<Seq<char>>,
    key_path: Option<Seq<char>>,
    domain: Option<Seq<char>>,
    default_domain: Seq<char>,
) -> CertSourceView {
    match (cert_path, key_path) {
        (Some(cert), Some(key)) => CertSourceView::Files(cert, key),
        _ => CertSourceView::SelfSigned(
            match domain {
                Some(d) => d,
                None => default_domain,
            },
        ),
    }
}

/// Decides where a certificate comes from.
pub fn cert_source(
    cert_path: &Option<String>,
    key_path: &Option<String>,
    domain: &Option<String>,
    default_domain: &str,
) -> (r: CertSource)
    ensures
        r@ == source_of(
            text::opt_text(*cert_path),
            text::opt_text(*key_path),
            text::opt_text(*domain),
            default_domain@,
        ),
{
    if let Some(cert) = cert_path {
        if let Some(key) = key_path {
            return CertSource::Files(cert.clone(), key.clone());
        }
    }
    match domain {
        Some(d) => CertSource::SelfSigned(d.clone()),
        None => CertSource::SelfSigned(default_domain.to_owned()),
    }
}

/// Why there is no certificate chain, or no key.
#[derive(Debug, Clone, Copy, PartialEq, Eq, Structural)]
pub enum PemError {
    /// The file is not in order.
    Unreadable,
    /// The file is in order, but holds none.
    Nothing,
}

/// The format of a key.
#[derive(Debug, Clone, Copy, PartialEq, Eq, Structural)]
pub enum KeyKind {
    Pkcs1,
    Sec1,
    Pkcs8,
}

/// The contents of a list of byte strings.
pub open spec fn contents(v: Seq<Vec<u8>>) -> Seq<Seq<u8>> {
    v.map_values(|b: Vec<u8>| b@)
}

/// The certificates in a PEM file, in order, where all of it up to the last one is in order.
pub uninterp spec fn pem_certs(pem: Seq<u8>) -> Option<Seq<Seq<u8>>>;

/// The first private key in a PEM file; an error where something in front of it, or the key
/// itself, is not in order.
pub uninterp spec fn pem_key(pem: Seq<u8>) -> Result<Option<(KeyKind, Seq<u8>)>, ()>;

/// The view of certificates that were read.
pub open spec fn certs_view(r: Option<Vec<Vec<u8>>>) -> Option<Seq<Seq<u8>>> {
    match r {
        Some(v) => Some(contents(v@)),
        None => None,
    }
}

/// The view of a key that was read.
pub open spec fn key_view(r: Result<Option<(KeyKind, Vec<u8>)>, ()>) -> Result<
    Option<(KeyKind, Seq<u8>)>,
    (),
> {
    match r {
        Ok(Some((kind, der))) => Ok(Some((kind, der@))),
        Ok(None) => Ok(None),
        Err(e) => Err(e),
    }
}

/// `pem_slice_iter` of the `rustls` crate's `CertificateDer`: the certificates of a PEM file,
/// or nothing where one of its items cannot be read.
#[verifier::external_body]
fn read_certs(pem: &[u8]) -> (r: Option<Vec<Vec<u8>>>)
    ensures
        certs_view(r) == pem_certs(pem@),
{
    let items = CertificateDer::pem_slice_iter(pem);
    items.map(|c| c.map(|c| c.as_ref().to_vec())).collect::<Result<Vec<Vec<u8>>, _>>().ok()
}

/// `pem_slice_iter` of the `rustls` crate's `PrivateKeyDer`, as far as its first item.
#[verifier::external_body]
fn read_key(pem: &[u8]) -> (r: Result<Option<(KeyKind, Vec<u8>)>, ()>)
    ensures
        key_view(r) == pem_key(pem@),
{
    match PrivateKeyDer::pem_slice_iter(pem).next() {
        None => Ok(None),
        Some(Ok(PrivateKeyDer::Pkcs1(k))) => {
            Ok(Some((KeyKind::Pkcs1, k.secret_pkcs1_der().to_vec())))
        },
        Some(Ok(PrivateKeyDer::Sec1(k))) => Ok(Some((KeyKind::Sec1, k.secret_sec1_der().to_vec()))),
        Some(Ok(PrivateKeyDer::Pkcs8(k))) => {
            Ok(Some((KeyKind::Pkcs8, k.secret_pkcs8_der().to_vec())))
        },
        Some(_) => Err(()),
    }
}

/// The chain in certificates that were read: there has to be one at least.
pub open spec fn chain_of(read: Option<Seq<Seq<u8>>>) -> Result<Seq<Seq<u8>>, PemError> {
    match read {
        None => Err(PemError::Unreadable),
        Some(chain) => if chain.len() == 0 {
            Err(PemError::Nothing)
        } else {
            Ok(chain)
        },
    }
}

/// The key in what was read.
pub open spec fn key_of(read: Result<Option<(KeyKind, Seq<u8>)>, ()>) -> Result<
    (KeyKind, Seq<u8>),
    PemError,
> {
    match read {
        Err(_) => Err(PemError::Unreadable),
        Ok(None) => Err(PemError::Nothing),
        Ok(Some(key)) => Ok(key),
    }
}

/// The view of a chain.
pub open spec fn chain_view(r: Result<Vec<Vec<u8>>, PemError>) -> Result<Seq<Seq<u8>>, PemError> {
    match r {
        Ok(v) => Ok(contents(v@)),
        Err(e) => Err(e),
    }
}

/// The view of a key.
pub open spec fn found_key_view(r: Result<(KeyKind, Vec<u8>), PemError>) -> Result<
    (KeyKind, Seq<u8>),
    PemError,
> {
    match r {
        Ok((kind, der)) => Ok((kind, der@)),
        Err(e) => Err(e),
    }
}

/// Takes certificates that were read as a chain.
pub fn accept_chain(read: Option<Vec<Vec<u8>>>) -> (r: Result<Vec<Vec<u8>>, PemError>)
    ensures
        chain_view(r) == chain_of(certs_view(read)),
{
    match read {
        None => Err(PemError::Unreadable),
        Some(chain) => if chain.len() == 0 {
            Err(PemError::Nothing)
        } else {
            Ok(chain)
        },
    }
}

/// Takes what was read as a key.
pub fn accept_private_key(read: Result<Option<(KeyKind, Vec<u8>)>, ()>) -> (r: Result<
    (KeyKind, Vec<u8>),
    PemError,
>)
    ensures
        found_key_view(r) == key_of(key_view(read)),
{
    match read {
        Err(_) => Err(PemError::Unreadable),
        Ok(None) => Err(PemError::Nothing),
        Ok(Some(key)) => Ok(key),
    }
}

/// The certificate chain in a PEM file.
pub fn cert_chain(pem: &[u8]) -> (r: Result<Vec<Vec<u8>>, PemError>)
    ensures
        chain_view(r) == chain_of(pem_certs(pem@)),
{
    accept_chain(read_certs(pem))
}

/// The private key in a PEM file: the first one.
pub fn private_key(pem: &[u8]) -> (r: Result<(KeyKind, Vec<u8>), PemError>)
    ensures
        found_key_view(r) == key_of(pem_key(pem@)),
{
    accept_private_key(read_key(pem))
}

/// A certificate chain and its key.
#[derive(Debug, Clone)]
pub struct Identity {
    pub chain: Vec<Vec<u8>>,
    pub kind: KeyKind,
    pub key: Vec<u8>,
}

/// The mathematical counterpart of [`Identity`].
#[verifier::ext_equal]
pub struct IdentityView {
    pub chain: Seq<Seq<u8>>,
    pub kind: KeyKind,
    pub key: Seq<u8>,
}

impl View for Identity {
    type V = IdentityView;

    open spec fn view(&self) -> IdentityView {
        IdentityView { chain: contents(self.chain@), kind: self.kind, key: self.key@ }
    }
}

/// Which of two files does not give what it should.
#[derive(Debug, Clone, Copy, PartialEq, Eq, Structural)]
pub enum IdentityError {
    Chain(PemError),
    Key(PemError),
}

/// A chain and a key together; the chain is looked at first.
pub open spec fn identity_of(
    chain: Result<Seq<Seq<u8>>, PemError>,
    key: Result<(KeyKind, Seq<u8>), PemError>,
) -> Result<IdentityView, IdentityError> {
    match chain {
        Err(e) => Err(IdentityError::Chain(e)),
        Ok(chain) => match key {
            Err(e) => Err(IdentityError::Key(e)),
            Ok((kind, key)) => Ok(IdentityView { chain, kind, key }),
        },
    }
}

/// The view of an identity.
pub open spec fn identity_view(r: Result<Identity, IdentityError>) -> Result<
    IdentityView,
    IdentityError,
> {
    match r {
        Ok(i) => Ok(i@),
        Err(e) => Err(e),
    }
}

/// The identity in two PEM files.
pub fn files_identity(cert_pem: &[u8], key_pem: &[u8]) -> (r: Result<Identity, IdentityError>)
    ensures
        identity_view(r) == identity_of(
            chain_of(pem_certs(cert_pem@)),
            key_of(pem_key(key_pem@)),
        ),
{
    let chain = match cert_chain(cert_pem) {
        Ok(c) => c,
        Err(e) => {
            return Err(IdentityError::Chain(e));
        },
    };
    match private_key(key_pem) {
        Ok((kind, key)) => Ok(Identity { chain, kind, key }),
        Err(e) => Err(IdentityError::Key(e)),
    }
}

/// Whether a certificate has, as its one alternative name, what the `rcgen` crate makes of
/// `domain`: an IP address where it is one, else a DNS name.
pub uninterp spec fn certifies(cert: Seq<u8>, domain: Seq<char>) -> bool;

/// `generate_simple_self_signed` of the `rcgen` crate, for one name: a fresh certificate for
/// that name, and its key in PKCS#8. A name that is not ASCII is refused. The key is drawn at
/// random, and the certificate holds it, so no more is said of their bytes; nor is it said
/// that there are any, since drawing and signing can fail.
#[verifier::external_body]
fn make_certificate(domain: String) -> (r: Option<(Vec<u8>, Vec<u8>)>)
    ensures
        r matches Some((cert, _)) ==> certifies(cert@, domain@),
        !is_ascii_chars(domain@) ==> r is None,
{
    let made = rcgen::generate_simple_self_signed(vec![domain]).ok()?;
    Some((made.cert.der().to_vec(), made.key_pair.serialize_der()))
}

/// The identity that a fresh certificate and its key make: a chain of that one certificate.
pub fn single_identity(made: Option<(Vec<u8>, Vec<u8>)>) -> (r: Option<Identity>)
    ensures
        r is Some <==> made is Some,
        made matches Some((cert, key)) ==> r->Some_0@ == (IdentityView {
            chain: seq![cert@],
            kind: KeyKind::Pkcs8,
            key: key@,
        }),
{
    match made {
        Some((cert, key)) => {
            let ghost (c, k) = (cert@, key@);
            let chain: Vec<Vec<u8>> = vec![cert];
            assert(contents(chain@) =~= seq![c]);
            Some(Identity { chain, kind: KeyKind::Pkcs8, key })
        },
        None => None,
    }
}

/// An identity for `domain` that the server signs itself, unless the name cannot stand in a
/// certificate. What is made of the name decides, and [`single_identity`] says how.
pub fn self_signed_identity(domain: &str) -> (r: Option<Identity>)
    ensures
        r matches Some(i) ==> i@.chain.len() == 1 && i@.kind == KeyKind::Pkcs8 && certifies(
            i@.chain[0],
            domain@,
        ),
        !is_ascii_chars(domain@) ==> r is None,
{
    single_identity(make_certificate(domain.to_owned()))
}

/// A certificate comes from files only if both of them are set; else it is for the domain
/// that is set, and for the default one where none is.
pub proof fn lemma_certificate_source(
    cert: Seq<char>,
    key: Seq<char>,
    domain: Option<Seq<char>>,
    default_domain: Seq<char>,
)
    ensures
        source_of(Some(cert), Some(key), domain, default_domain) == CertSourceView::Files(
            cert,
            key,
        ),
        source_of(None, Some(key), Some(cert), default_domain) == CertSourceView::SelfSigned(cert),
        source_of(Some(cert), None, None, default_domain) == CertSourceView::SelfSigned(
            default_domain,
        ),
        source_of(None, None, None, default_domain) == CertSourceView::SelfSigned(default_domain),
        source_of(Some(cert), None, Some(key), default_domain) == CertSourceView::SelfSigned(key),
{
}

/// A chain is as it was read and has at least one certificate; a key is as it was read. A
/// file that cannot be read and one that holds nothing are told apart, and of two faults
/// that of the chain is named.
pub proof fn lemma_identity_parts(
    chain: Seq<Seq<u8>>,
    kind: KeyKind,
    key: Seq<u8>,
    bad: PemError,
    worse: PemError,
)
    ensures
        chain.len() > 0 ==> identity_of(chain_of(Some(chain)), key_of(Ok(Some((kind, key)))))
            == Ok::<IdentityView, IdentityError>(IdentityView { chain, kind, key }),
        chain.len() == 0 ==> chain_of(Some(chain)) == Err::<Seq<Seq<u8>>, PemError>(
            PemError::Nothing,
        ),
        chain_of(None) == Err::<Seq<Seq<u8>>, PemError>(PemError::Unreadable),
        key_of(Ok(None)) == Err::<(KeyKind, Seq<u8>), PemError>(PemError::Nothing),
        key_of(Err(())) == Err::<(KeyKind, Seq<u8>), PemError>(PemError::Unreadable),
        identity_of(Err(bad), Err(worse)) == Err::<IdentityView, IdentityError>(
            IdentityError::Chain(bad),
        ),
        identity_of(Ok(chain), Err(bad)) == Err::<IdentityView, IdentityError>(
            IdentityError::Key(bad),
        ),
{
}

} // verus!
