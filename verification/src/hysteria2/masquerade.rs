//! What callers that do not sign on get to see: a plain web server, or a site that is
//! fetched for them.
use crate::config::MasqueradeConfig;
use crate::text;
use crate::wire::copy_range;
use vstd::prelude::*;
use vstd::utf8::encode_utf8;

verus! {

/// A header: a name in lower case, and a value.
pub type Header = (String, Vec<u8>);

/// The contents of a list of headers.
pub open spec fn header_views(v: Seq<Header>) -> Seq<(Seq<char>, Seq<u8>)> {
    v.map_values(|h: Header| (h.0@, h.1@))
}

/// An answer.
pub struct MasqResponse {
    pub status: u16,
    pub headers: Vec<Header>,
    pub body: Vec<u8>,
}

/// The mathematical counterpart of [`MasqResponse`].
pub struct MasqView {
    pub status: u16,
    pub headers: Seq<(Seq<char>, Seq<u8>)>,
    pub body: Seq<u8>,
}

impl View for MasqResponse {
    type V = MasqView;

    open spec fn view(&self) -> MasqView {
        MasqView { status: self.status, headers: header_views(self.headers@), body: self.body@ }
    }
}

/// A copy of a header.
fn copy_header(h: &Header) -> (r: Header)
    ensures
        r.0@ == h.0@,
        r.1@ == h.1@,
{
    let value = copy_range(h.1.as_slice(), 0, h.1.len());
    assert(value@ =~= h.1@);
    (h.0.clone(), value)
}

/// The bytes of a text.
fn bytes_of(s: &str) -> (r: Vec<u8>)
    ensures
        r@ == encode_utf8(s@),
{
    let b = s.as_bytes();
    let r = copy_range(b, 0, b.len());
    assert(r@ =~= b@);
    r
}

/// A page that the server makes up itself.
pub open spec fn own_page(status: u16, body: Seq<char>) -> MasqView {
    MasqView {
        status,
        headers: seq![
            ("server"@, encode_utf8("nginx/1.24.0"@)),
            ("content-type"@, encode_utf8("text/html; charset=utf-8"@)),
            ("content-length"@, encode_utf8(text::decimal_of(encode_utf8(body).len()))),
        ],
        body: encode_utf8(body),
    }
}

fn build_page(status: u16, page: &str) -> (r: MasqResponse)
    ensures
        r@ == own_page(status, page@),
{
    let body = bytes_of(page);
    let length = text::decimal_text(body.len() as u64);
    let mut headers: Vec<Header> = Vec::new();
    headers.push(("server".to_owned(), bytes_of("nginx/1.24.0")));
    headers.push(("content-type".to_owned(), bytes_of("text/html; charset=utf-8")));
    headers.push(("content-length".to_owned(), bytes_of(length.as_str())));
    assert(header_views(headers@) =~= own_page(status, page@).headers);
    MasqResponse { status, headers, body }
}

/// The page for what is not there.
pub open spec fn not_found_page() -> MasqView {
    own_page(404, "<html><body><h1>404 Not Found</h1></body></html>"@)
}

/// The page for a site that cannot be fetched.
pub open spec fn bad_gateway_page() -> MasqView {
    own_page(502, "<html><body><h1>502 Bad Gateway</h1></body></html>"@)
}

pub fn masquerade_404() -> (r: MasqResponse)
    ensures
        r@ == not_found_page(),
{
    build_page(404, "<html><body><h1>404 Not Found</h1></body></html>")
}

pub fn masquerade_502() -> (r: MasqResponse)
    ensures
        r@ == bad_gateway_page(),
{
    build_page(502, "<html><body><h1>502 Bad Gateway</h1></body></html>")
}

/// How a request is answered.
pub enum Disguise {
    NotFound,
    /// From this site, under its own name or under the caller's.
    Proxy(String, bool),
}

/// The mathematical counterpart of [`Disguise`].
pub enum DisguiseView {
    NotFound,
    Proxy(Seq<char>, bool),
}

impl View for Disguise {
    type V = DisguiseView;

    open spec fn view(&self) -> DisguiseView {
        match *self {
            Disguise::NotFound => DisguiseView::NotFound,
            Disguise::Proxy(u, h) => DisguiseView::Proxy(u@, h),
        }
    }
}

/// Only the kind `proxy`, with a site to fetch from, is anything but "not found".
pub open spec fn disguise_of(cfg: MasqueradeConfig) -> DisguiseView {
    if cfg.kind@ == "proxy"@ {
        match cfg.proxy {
            Some(p) => DisguiseView::Proxy(p.url@, p.rewrite_host),
            None => DisguiseView::NotFound,
        }
    } else {
        DisguiseView::NotFound
    }
}

/// Decides how requests are answered.
pub fn masquerade(cfg: &MasqueradeConfig) -> (r: Disguise)
    ensures
        r@ == disguise_of(*cfg),
{
    if text::same_text(cfg.kind.as_str(), "proxy") {
        match &cfg.proxy {
            Some(p) => Disguise::Proxy(p.url.clone(), p.rewrite_host),
            None => Disguise::NotFound,
        }
    } else {
        Disguise::NotFound
    }
}

/// Where a request is fetched from: the site, without `/` at its end, and the path.
pub fn target_url(base: &str, path_and_query: &str) -> (r: String)
    ensures
        r@ == text::strip_end_of(base@, '/') + path_and_query@,
{
    text::joined(text::strip_end(base, '/'), path_and_query)
}

/// The headers in a list whose names are not `name`.
pub open spec fn without_name(headers: Seq<(Seq<char>, Seq<u8>)>, name: Seq<char>) -> Seq<
    (Seq<char>, Seq<u8>),
>
    decreases headers.len(),
{
    if headers.len() == 0 {
        Seq::empty()
    } else {
        let before = without_name(headers.drop_last(), name);
        if headers.last().0 == name {
            before
        } else {
            before.push(headers.last())
        }
    }
}

fn drop_name(headers: &Vec<Header>, name: &str) -> (r: Vec<Header>)
    ensures
        header_views(r@) == without_name(header_views(headers@), name@),
{
    let ghost all = header_views(headers@);
    let mut out: Vec<Header> = Vec::new();
    let mut i: usize = 0;
    assert(all.take(0) =~= Seq::<(Seq<char>, Seq<u8>)>::empty());
    assert(header_views(out@) =~= without_name(all.take(0), name@));
    while i < headers.len()
        invariant
            all == header_views(headers@),
            i <= headers@.len(),
            header_views(out@) == without_name(all.take(i as int), name@),
        decreases headers@.len() - i,
    {
        let ghost before = header_views(out@);
        assert(all.take(i + 1).drop_last() =~= all.take(i as int));
        assert(all.take(i + 1).last() == all[i as int]);
        if !text::same_text(headers[i].0.as_str(), name) {
            let h = copy_header(&headers[i]);
            let ghost hv = (h.0@, h.1@);
            out.push(h);
            assert(header_views(out@) =~= before.push(hv));
        }
        i = i + 1;
    }
    assert(all.take(all.len() as int) =~= all);
    out
}

/// The name under which the site is asked: its own, with a port where one is given.
pub open spec fn host_value(host: Seq<char>, port: Option<u16>) -> Seq<char> {
    match port {
        Some(p) => host + seq![':'] + text::decimal_of(p as nat),
        None => host,
    }
}

/// The headers of the request to the site: the caller's, with the name of the host
/// replaced where that is asked for.
pub open spec fn forwarded_headers(
    headers: Seq<(Seq<char>, Seq<u8>)>,
    rewrite_host: bool,
    host: Option<Seq<char>>,
    port: Option<u16>,
) -> Seq<(Seq<char>, Seq<u8>)> {
    if !rewrite_host {
        headers
    } else {
        match host {
            Some(h) => without_name(headers, "host"@).push(
                ("host"@, encode_utf8(host_value(h, port))),
            ),
            None => without_name(headers, "host"@),
        }
    }
}

/// Makes the headers of the request to the site.
pub fn forward_headers(
    headers: &Vec<Header>,
    rewrite_host: bool,
    host: &Option<String>,
    port: Option<u16>,
) -> (r: Vec<Header>)
    ensures
        header_views(r@) == forwarded_headers(
            header_views(headers@),
            rewrite_host,
            text::opt_text(*host),
            port,
        ),
{
    if !rewrite_host {
        return copy_headers(headers);
    }
    let mut out = drop_name(headers, "host");
    let ghost before = header_views(out@);
    if let Some(h) = host {
        proof {
            reveal_strlit(":");
            assert(":"@ =~= seq![':']);
        }
        let value = match port {
            Some(p) => {
                let tail = text::joined(":", text::decimal_text(p as u64).as_str());
                let v = text::joined(h.as_str(), tail.as_str());
                assert(v@ =~= host_value(h@, port));
                v
            },
            None => h.clone(),
        };
        out.push(("host".to_owned(), bytes_of(value.as_str())));
        assert(header_views(out@) =~= before.push(
            ("host"@, encode_utf8(host_value(h@, port))),
        ));
    }
    out
}

/// The host and the port in a text that is a URI.
pub uninterp spec fn uri_host_port(url: Seq<char>) -> Option<(Option<Seq<char>>, Option<u16>)>;

/// The view of a URI that was read.
pub open spec fn uri_view(r: Option<(Option<String>, Option<u16>)>) -> Option<
    (Option<Seq<char>>, Option<u16>),
> {
    match r {
        Some((host, port)) => Some((text::opt_text(host), port)),
        None => None,
    }
}

/// `parse` of the `hyper` crate's `Uri`, with its `host` and `port_u16`; nothing for a text
/// that is no URI.
#[verifier::external_body]
fn read_uri(url: &str) -> (r: Option<(Option<String>, Option<u16>)>)
    ensures
        uri_view(r) == uri_host_port(url@),
{
    let uri = url.parse::<hyper::Uri>().ok()?;
    Some((uri.host().map(|h| h.to_string()), uri.port_u16()))
}

/// What is asked of the site: its address and the headers, where the address is a URI.
pub open spec fn request_of(
    url: Seq<char>,
    uri: Option<(Option<Seq<char>>, Option<u16>)>,
    headers: Seq<(Seq<char>, Seq<u8>)>,
    rewrite_host: bool,
) -> Option<(Seq<char>, Seq<(Seq<char>, Seq<u8>)>)> {
    match uri {
        None => None,
        Some((host, port)) => Some((url, forwarded_headers(headers, rewrite_host, host, port))),
    }
}

/// The view of what is asked of the site.
pub open spec fn request_view(r: Option<(String, Vec<Header>)>) -> Option<
    (Seq<char>, Seq<(Seq<char>, Seq<u8>)>),
> {
    match r {
        Some((url, headers)) => Some((url@, header_views(headers@))),
        None => None,
    }
}

/// What is asked of the site at `url`, which was read as `uri`.
pub fn request_for(
    url: String,
    uri: Option<(Option<String>, Option<u16>)>,
    headers: &Vec<Header>,
    rewrite_host: bool,
) -> (r: Option<(String, Vec<Header>)>)
    ensures
        request_view(r) == request_of(
            url@,
            uri_view(uri),
            header_views(headers@),
            rewrite_host,
        ),
{
    match uri {
        None => None,
        Some((host, port)) => {
            let out = forward_headers(headers, rewrite_host, &host, port);
            Some((url, out))
        },
    }
}

/// What is asked of the site for a caller; nothing where that has no address, and the caller
/// is told that the page does not exist.
pub fn proxy_request(
    base: &str,
    path_and_query: &str,
    headers: &Vec<Header>,
    rewrite_host: bool,
) -> (r: Option<(String, Vec<Header>)>)
    ensures
        ({
            let url = text::strip_end_of(base@, '/') + path_and_query@;
            request_view(r) == request_of(
                url,
                uri_host_port(url),
                header_views(headers@),
                rewrite_host,
            )
        }),
{
    let url = target_url(base, path_and_query);
    let uri = read_uri(url.as_str());
    request_for(url, uri, headers, rewrite_host)
}

fn copy_headers(headers: &Vec<Header>) -> (r: Vec<Header>)
    ensures
        header_views(r@) == header_views(headers@),
{
    let ghost all = header_views(headers@);
    let mut out: Vec<Header> = Vec::new();
    let mut i: usize = 0;
    while i < headers.len()
        invariant
            all == header_views(headers@),
            i <= headers@.len(),
            header_views(out@) =~= all.take(i as int),
        decreases headers@.len() - i,
    {
        let ghost before = header_views(out@);
        let h = copy_header(&headers[i]);
        let ghost hv = (h.0@, h.1@);
        out.push(h);
        assert(header_views(out@) =~= before.push(hv));
        i = i + 1;
    }
    assert(all.take(all.len() as int) =~= all);
    out
}

/// The first value under a name.
pub open spec fn first_value(headers: Seq<(Seq<char>, Seq<u8>)>, name: Seq<char>) -> Option<
    Seq<u8>,
>
    decreases headers.len(),
{
    if headers.len() == 0 {
        None
    } else if headers[0].0 == name {
        Some(headers[0].1)
    } else {
        first_value(headers.skip(1), name)
    }
}

fn find_value(headers: &Vec<Header>, name: &str) -> (r: Option<Vec<u8>>)
    ensures
        match r {
            Some(v) => first_value(header_views(headers@), name@) == Some(v@),
            None => first_value(header_views(headers@), name@) is None,
        },
{
    let ghost all = header_views(headers@);
    let mut i: usize = 0;
    assert(all.skip(0) =~= all);
    while i < headers.len()
        invariant
            all == header_views(headers@),
            i <= headers@.len(),
            first_value(all.skip(i as int), name@) == first_value(all, name@),
        decreases headers@.len() - i,
    {
        assert(all.skip(i as int)[0] == all[i as int]);
        assert(all.skip(i as int).skip(1) =~= all.skip(i + 1));
        if text::same_text(headers[i].0.as_str(), name) {
            let v = copy_range(headers[i].1.as_slice(), 0, headers[i].1.len());
            assert(v@ =~= headers@[i as int].1@);
            return Some(v);
        }
        i = i + 1;
    }
    None
}

/// Whether a status sends the caller elsewhere.
pub fn is_redirection(status: u16) -> (r: bool)
    ensures
        r == (300 <= status < 400),
{
    300 <= status && status < 400
}

/// An answer that sends the caller elsewhere: only its `location` is passed on.
pub open spec fn redirect_of(status: u16, headers: Seq<(Seq<char>, Seq<u8>)>) -> MasqView {
    MasqView {
        status,
        headers: match first_value(headers, "location"@) {
            Some(v) => seq![("location"@, v)],
            None => Seq::empty(),
        },
        body: Seq::empty(),
    }
}

/// Passes on an answer that sends the caller elsewhere.
pub fn redirect_response(status: u16, headers: &Vec<Header>) -> (r: MasqResponse)
    ensures
        r@ == redirect_of(status, header_views(headers@)),
{
    let mut out: Vec<Header> = Vec::new();
    if let Some(v) = find_value(headers, "location") {
        out.push(("location".to_owned(), v));
    }
    let body: Vec<u8> = Vec::new();
    assert(body@ =~= Seq::<u8>::empty());
    assert(header_views(out@) =~= redirect_of(status, header_views(headers@)).headers);
    MasqResponse { status, headers: out, body }
}

/// An answer of the site: its headers, a content type where it gives none, and the length
/// that the body really has.
pub open spec fn proxied_of(
    status: u16,
    headers: Seq<(Seq<char>, Seq<u8>)>,
    body: Seq<u8>,
) -> MasqView {
    let kept = without_name(without_name(headers, "transfer-encoding"@), "content-length"@);
    let typed = if first_value(headers, "content-type"@) is None {
        kept.push(("content-type"@, encode_utf8("application/octet-stream"@)))
    } else {
        kept
    };
    MasqView {
        status,
        headers: typed.push(("content-length"@, encode_utf8(text::decimal_of(body.len())))),
        body,
    }
}

/// Passes on an answer of the site.
pub fn proxied_response(status: u16, headers: &Vec<Header>, body: Vec<u8>) -> (r: MasqResponse)
    ensures
        r@ == proxied_of(status, header_views(headers@), body@),
{
    let once = drop_name(headers, "transfer-encoding");
    let mut out = drop_name(&once, "content-length");
    let ghost kept = header_views(out@);
    if find_value(headers, "content-type").is_none() {
        out.push(("content-type".to_owned(), bytes_of("application/octet-stream")));
        assert(header_views(out@) =~= kept.push(
            ("content-type"@, encode_utf8("application/octet-stream"@)),
        ));
    }
    let ghost typed = header_views(out@);
    let length = text::decimal_text(body.len() as u64);
    out.push(("content-length".to_owned(), bytes_of(length.as_str())));
    assert(header_views(out@) =~= typed.push(
        ("content-length"@, encode_utf8(text::decimal_of(body@.len()))),
    ));
    MasqResponse { status, headers: out, body }
}

/// Leaving out the headers of a name leaves the others, in their order, and none of that
/// name.
pub proof fn lemma_without_name(
    headers: Seq<(Seq<char>, Seq<u8>)>,
    name: Seq<char>,
    h: (Seq<char>, Seq<u8>),
)
    ensures
        without_name(headers, name).contains(h) <==> headers.contains(h) && h.0 != name,
        (forall|i: int| 0 <= i < headers.len() ==> (#[trigger] headers[i]).0 != name)
            ==> without_name(headers, name) == headers,
        without_name(headers.push(h), name) == if h.0 == name {
            without_name(headers, name)
        } else {
            without_name(headers, name).push(h)
        },
    decreases headers.len(),
{
    assert(headers.push(h).drop_last() =~= headers);
    if headers.len() > 0 {
        let init = headers.drop_last();
        let last = headers.last();
        lemma_without_name(init, name, h);
        assert(init.push(last) =~= headers);
        let before = without_name(init, name);
        let kept = without_name(headers, name);
        if kept.contains(h) {
            let i = choose|i: int| 0 <= i < kept.len() && kept[i] == h;
            if i < before.len() {
                assert(before[i] == h);
                let j = choose|j: int| 0 <= j < init.len() && init[j] == h;
                assert(headers[j] == h);
            } else {
                assert(headers[headers.len() - 1] == h);
            }
        }
        if headers.contains(h) && h.0 != name {
            let i = choose|i: int| 0 <= i < headers.len() && headers[i] == h;
            if i < init.len() {
                assert(init[i] == h);
                let j = choose|j: int| 0 <= j < before.len() && before[j] == h;
                assert(kept[j] == h);
            } else {
                assert(kept[kept.len() - 1] == h);
            }
        }
        if forall|i: int| 0 <= i < headers.len() ==> (#[trigger] headers[i]).0 != name {
            assert forall|i: int| 0 <= i < init.len() implies (#[trigger] init[i]).0 != name by {
                assert(init[i] == headers[i]);
            }
            assert(headers[headers.len() - 1].0 != name);
        }
    } else {
        assert(without_name(headers, name) =~= headers);
    }
}

/// The first value under a name is that of the first header with the name, whatever comes
/// behind it; without such a header there is none.
pub proof fn lemma_first_value(
    before: Seq<(Seq<char>, Seq<u8>)>,
    name: Seq<char>,
    value: Seq<u8>,
    after: Seq<(Seq<char>, Seq<u8>)>,
)
    requires
        forall|i: int| 0 <= i < before.len() ==> (#[trigger] before[i]).0 != name,
    ensures
        first_value(before + seq![(name, value)] + after, name) == Some(value),
        first_value(before, name) is None,
    decreases before.len(),
{
    let all = before + seq![(name, value)] + after;
    if before.len() > 0 {
        assert(all[0] == before[0]);
        assert(all.skip(1) =~= before.skip(1) + seq![(name, value)] + after);
        assert forall|i: int| 0 <= i < before.skip(1).len() implies (
        #[trigger] before.skip(1)[i]).0 != name by {
            assert(before.skip(1)[i] == before[i + 1]);
        }
        lemma_first_value(before.skip(1), name, value, after);
    } else {
        assert(all[0] == (name, value));
    }
}

/// A request to the site has the caller's headers as they were, or, where the host is
/// replaced, all of them but those named `host` and behind them one `host` with the site's
/// own name, followed by `:` and the port where there is one.
pub proof fn lemma_forwarded_headers(
    headers: Seq<(Seq<char>, Seq<u8>)>,
    host: Seq<char>,
    port: u16,
    h: (Seq<char>, Seq<u8>),
)
    ensures
        forwarded_headers(headers, false, Some(host), Some(port)) == headers,
        ({
            let named = forwarded_headers(headers, true, Some(host), None);
            let with_port = forwarded_headers(headers, true, Some(host), Some(port));
            &&& named.last() == ("host"@, encode_utf8(host))
            &&& with_port.last() == (
                "host"@,
                encode_utf8(host + seq![':'] + text::decimal_of(port as nat)),
            )
            &&& named.drop_last().contains(h) <==> headers.contains(h) && h.0 != "host"@
            &&& with_port.drop_last() == named.drop_last()
            &&& forwarded_headers(headers, true, None, Some(port)) == named.drop_last()
        }),
{
    lemma_without_name(headers, "host"@, h);
    let kept = without_name(headers, "host"@);
    let named = forwarded_headers(headers, true, Some(host), None);
    let with_port = forwarded_headers(headers, true, Some(host), Some(port));
    assert(named.drop_last() =~= kept);
    assert(with_port.drop_last() =~= kept);
}

/// An answer that sends the caller elsewhere keeps its status and its first `location`, and
/// nothing else.
pub proof fn lemma_redirect_keeps_location(
    status: u16,
    before: Seq<(Seq<char>, Seq<u8>)>,
    value: Seq<u8>,
    after: Seq<(Seq<char>, Seq<u8>)>,
)
    requires
        forall|i: int| 0 <= i < before.len() ==> (#[trigger] before[i]).0 != "location"@,
    ensures
        ({
            let r = redirect_of(status, before + seq![("location"@, value)] + after);
            r.status == status && r.headers == seq![("location"@, value)] && r.body.len() == 0
        }),
        redirect_of(status, before).headers.len() == 0,
{
    lemma_first_value(before, "location"@, value, after);
}

/// An answer of the site keeps its status, its body and its headers but for two: how it was
/// transferred is left out, and the length is that of the body. A content type is added
/// exactly if there was none.
pub proof fn lemma_proxied_headers(
    status: u16,
    headers: Seq<(Seq<char>, Seq<u8>)>,
    body: Seq<u8>,
    h: (Seq<char>, Seq<u8>),
)
    requires
        h.0 != "content-type"@,
    ensures
        ({
            let r = proxied_of(status, headers, body);
            &&& r.status == status
            &&& r.body == body
            &&& r.headers.last() == ("content-length"@, encode_utf8(text::decimal_of(body.len())))
            &&& r.headers.drop_last().contains(h) <==> headers.contains(h) && h.0
                != "transfer-encoding"@ && h.0 != "content-length"@
            &&& first_value(headers, "content-type"@) is None ==> r.headers[r.headers.len() - 2]
                == ("content-type"@, encode_utf8("application/octet-stream"@))
        }),
{
    let once = without_name(headers, "transfer-encoding"@);
    let kept = without_name(once, "content-length"@);
    lemma_without_name(headers, "transfer-encoding"@, h);
    lemma_without_name(once, "content-length"@, h);
    let r = proxied_of(status, headers, body);
    let typed = r.headers.drop_last();
    let added = ("content-type"@, encode_utf8("application/octet-stream"@));
    if first_value(headers, "content-type"@) is None {
        assert(typed =~= kept.push(added));
        if typed.contains(h) {
            let i = choose|i: int| 0 <= i < typed.len() && typed[i] == h;
            assert(kept[i] == h);
        }
        if kept.contains(h) {
            let i = choose|i: int| 0 <= i < kept.len() && kept[i] == h;
            assert(typed[i] == h);
        }
    } else {
        assert(typed =~= kept);
    }
}

/// A page of the server's own gives the length of its body in decimal, and the two that
/// there are say what their status says.
pub proof fn lemma_own_pages(status: u16, body: Seq<char>)
    ensures
        ({
            let p = own_page(status, body);
            &&& p.status == status
            &&& p.body == encode_utf8(body)
            &&& p.headers.len() == 3
            &&& p.headers[2] == (
                "content-length"@,
                encode_utf8(text::decimal_of(p.body.len())),
            )
        }),
        not_found_page().status == 404,
        bad_gateway_page().status == 502,
{
}

} // verus!
