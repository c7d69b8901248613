//! The RDAP client, without the connection.
//!
//! The client picks the server from the IANA bootstrap registries and fetches the
//! record. The functions here decide what to ask for, whether to ask, and what an
//! answer means. The caller sends the request and brings back what came.

use vstd::prelude::*;
use vstd::string::*;

use crate::addr;
use crate::addr::IpAddr;
use crate::bootstrap;
use crate::bootstrap::Bootstrap;
use crate::contact;
use crate::contact::{Contact, Scope};
use crate::destination;
use crate::destination::{Destinations, Refusal};
use crate::error;
use crate::error::{Error, ErrorView};
use crate::number;
use crate::query;
use crate::query::DomainName;
use crate::rdap;
use crate::rdap::Response;
use crate::text;
use crate::url;
use crate::url::Url;

verus! {

/// How long to wait for one request, in seconds.
pub const TIMEOUT_SECONDS: u64 = 30;

/// What the crate calls itself to a registry.
///
/// Registries ask for an agent that names the caller, and some refuse a request
/// without one.
pub const USER_AGENT: &'static str = "abuse-contact/0.1.0";

/// The media type an RDAP server answers with.
pub const RDAP_MEDIA_TYPE: &'static str = "application/rdap+json";

/// The most the client reads of a record, in bytes.
///
/// The largest record seen is 95 KiB: a LACNIC network that lists the name servers of
/// 63 reverse DNS zones. The limit leaves room for a larger network and stops a server
/// that sends without end.
pub const MAX_RECORD_BYTES: usize = 1024 * 1024;

/// The most the client reads of a bootstrap registry, in bytes.
///
/// The largest registry, for domain names, is 71 KiB.
pub const MAX_BOOTSTRAP_BYTES: usize = 4 * 1024 * 1024;

// --- What to ask for ---------------------------------------------------------

/// The URL of a record: the base URL of a server, the kind of record, and the target.
pub open spec fn record_url_text(server: Seq<char>, kind: Seq<char>, target: Seq<char>) -> Seq<char> {
    text::drop_tail(server, '/') + "/"@ + kind + "/"@ + target
}

/// Joins a server base URL, the kind of record, and the target.
///
/// A base URL in the registry ends with a slash, but not every entry does, so the
/// join does not trust it.
pub fn record_url(server: &str, kind: &str, target: &str) -> (url: String)
    ensures
        url@ == record_url_text(server@, kind@, target@),
{
    let chars = text::chars_of(server);
    let mut url = text::text_of(text::drop_tail_chars(chars.as_slice(), '/'));
    url.append("/");
    url.append(kind);
    url.append("/");
    url.append(target);
    url
}

/// A record to fetch.
#[derive(Debug, PartialEq, Eq)]
pub struct Request {
    /// Where the record is.
    pub url: String,
    /// What it is about.
    pub target: String,
}

/// Whether this is the request for a target that the server of the registry answers
/// for, or the error when no server does.
pub open spec fn asks_server(
    request: Result<Request, Error>,
    list: Seq<bootstrap::Entry>,
    fit: spec_fn(bootstrap::Entry) -> Option<nat>,
    kind: Seq<char>,
    target: Seq<char>,
) -> bool {
    match request {
        Ok(request) => request.target@ == target && exists|server: Seq<char>|
            #[trigger] bootstrap::is_server(list, fit, Some(server)) && request.url@ == record_url_text(
                server,
                kind,
                target,
            ),
        Err(error) => bootstrap::is_server(list, fit, None) && error@ == (ErrorView::NoServer { target }),
    }
}

/// Returns the request for the record of an address.
///
/// The IPv6 registry holds no record for `::ffff:8.8.8.8`, so the request is about the
/// IPv4 address it carries.
///
/// # Errors
///
/// Returns [`Error::NotPublic`] for a private or reserved address, and
/// [`Error::NoServer`] when no registry answers for it.
pub fn ip_request(bootstrap: &Bootstrap, ip: IpAddr) -> (request: Result<Request, Error>)
    ensures
        ({
            let inner = query::unmapped(ip);
            let target = addr::ip_text(inner);
            if query::public_address(ip) {
                asks_server(
                    request,
                    bootstrap.ip_entries(inner),
                    |entry: bootstrap::Entry| bootstrap::ip_fit(entry, inner),
                    "ip"@,
                    target,
                )
            } else {
                request matches Err(error) && error@ == (ErrorView::NotPublic { target })
            }
        }),
{
    // The check and the lookup must use the same form.
    let inner = query::unmap(ip);
    let target = inner.to_text();
    // A private address sits in a block a registry describes, so the bootstrap finds a
    // server and the answer names IANA. Stop before that happens.
    if !query::is_public(inner) {
        return Err(Error::NotPublic { target });
    }
    match bootstrap.server_for_ip(inner) {
        Some(server) => {
            let url = record_url(server, "ip", target.as_str());
            Ok(Request { url, target })
        },
        None => Err(Error::NoServer { target }),
    }
}

/// Returns the request for the record of a name.
///
/// The record names the registrar and carries its abuse address.
///
/// # Errors
///
/// Returns [`Error::NoServer`] when no registry answers for the name.
pub fn domain_request(bootstrap: &Bootstrap, domain: &DomainName) -> (request: Result<Request, Error>)
    ensures
        asks_server(
            request,
            bootstrap::entries(bootstrap.dns@),
            |entry: bootstrap::Entry| bootstrap::domain_fit(entry, domain@),
            "domain"@,
            domain@,
        ),
{
    let target = domain.as_str().to_owned();
    match bootstrap.server_for_domain(domain) {
        Some(server) => {
            let url = record_url(server, "domain", target.as_str());
            Ok(Request { url, target })
        },
        None => Err(Error::NoServer { target }),
    }
}

// --- Whether to ask ----------------------------------------------------------

/// Whether a URL may be asked, given what the URL parser made of it.
pub open spec fn is_checked(
    checked: Result<Url, Error>,
    given: Seq<char>,
    read: Result<url::UrlView, Seq<char>>,
    destinations: Destinations,
) -> bool {
    let reason = match read {
        Ok(parsed) => destination::url_refusal(parsed, destinations),
        Err(problem) => Some("it is not a URL: "@ + problem),
    };
    match (checked, reason) {
        (Ok(url), None) => read == Ok::<url::UrlView, Seq<char>>(url@),
        (Err(error), Some(reason)) => error@ == (ErrorView::Refused { server: given, reason }),
        _ => false,
    }
}

/// Returns the URL to ask, given what the URL parser made of the text.
///
/// # Errors
///
/// Returns [`Error::Refused`] when the text is not a URL, or the URL goes where the
/// client does not connect.
pub fn check_fetch(given: &str, read: Result<Url, String>, destinations: Destinations) -> (checked: Result<
    Url,
    Error,
>)
    ensures
        is_checked(checked, given@, url::read_view(read), destinations),
{
    match read {
        Ok(parsed) => match destination::check_url(&parsed, destinations) {
            Ok(_) => Ok(parsed),
            Err(refusal) => Err(Error::Refused { server: given.to_owned(), reason: refusal.reason }),
        },
        Err(problem) => {
            let mut reason = "it is not a URL: ".to_owned();
            reason.append(problem.as_str());
            Err(Error::Refused { server: given.to_owned(), reason })
        },
    }
}

/// Returns the URL to ask for a record.
///
/// The URL is used as it is given, so it must come from a record and not from outside
/// input.
///
/// # Errors
///
/// Returns [`Error::Refused`] when the text is not a URL, or the URL goes where the
/// client does not connect.
pub fn prepare_fetch(given: &str, destinations: Destinations) -> (checked: Result<Url, Error>)
    ensures
        is_checked(checked, given@, url::url_of_text(given@), destinations),
{
    check_fetch(given, Url::parse(given), destinations)
}

/// Returns the error for a request that did not complete.
///
/// The resolver and the redirect policy report a refusal through the HTTP client. It
/// comes back as a transport error, and is turned back into [`Error::Refused`].
pub fn request_error(given: &str, refusal: Option<&Refusal>, source: String) -> (error: Error)
    ensures
        error@ == (match refusal {
            Some(refusal) => ErrorView::Refused { server: given@, reason: refusal.reason@ },
            None => ErrorView::Transport { server: given@, source: source@ },
        }),
{
    match refusal {
        Some(refusal) => Error::Refused { server: given.to_owned(), reason: refusal.reason.clone() },
        None => Error::Transport { server: given.to_owned(), source },
    }
}

// --- What the answer means ---------------------------------------------------

/// Returns whether a record follows in the answer, from its HTTP status.
///
/// A registry answers 404 when it holds no record. That is an answer, not a failure,
/// and a caller asking several sources must not stop on it.
///
/// # Errors
///
/// Returns [`Error::Status`] when the server refuses.
pub fn record_follows(given: &str, status: u16, target: &str) -> (follows: Result<bool, Error>)
    ensures
        match follows {
            Ok(true) => 200 <= status < 300,
            Ok(false) => status == 404,
            Err(error) => !(200 <= status < 300) && status != 404 && error@ == (ErrorView::Status {
                server: given@,
                status,
                target: target@,
            }),
        },
{
    if status == 404 {
        Ok(false)
    } else if 200 <= status && status < 300 {
        Ok(true)
    } else {
        Err(Error::Status { server: given.to_owned(), status, target: target.to_owned() })
    }
}

/// The body with one more chunk, or `None` when it is past the limit with it.
pub open spec fn with_chunk(held: Seq<u8>, chunk: Seq<u8>, limit: nat) -> Option<Seq<u8>> {
    if held.len() + chunk.len() <= limit {
        Some(held + chunk)
    } else {
        None
    }
}

/// A body that is read in chunks and counted as it arrives.
///
/// `Content-Length` alone does not bound it: a chunked answer does not send one, and a
/// server can send more than it announced.
#[derive(Debug)]
pub struct Body {
    server: String,
    limit: usize,
    bytes: Vec<u8>,
}

impl Body {
    #[verifier::type_invariant]
    spec fn is_within_the_limit(self) -> bool {
        self.bytes@.len() <= self.limit
    }

    /// The server the body comes from.
    pub closed spec fn from(self) -> Seq<char> {
        self.server@
    }

    /// The most that is read.
    pub closed spec fn most(self) -> usize {
        self.limit
    }

    /// What was read so far.
    pub closed spec fn held(self) -> Seq<u8> {
        self.bytes@
    }

    /// Starts to read a body of at most `limit` bytes.
    ///
    /// A server that announces too much is refused before any of the body is read.
    ///
    /// # Errors
    ///
    /// Returns [`Error::TooLarge`] when the server announces more than the limit.
    pub fn start(server: &str, limit: usize, announced: Option<u64>) -> (body: Result<Body, Error>)
        ensures
            match body {
                Ok(body) => (announced matches Some(length) ==> length <= limit) && body.from() == server@
                    && body.most() == limit && body.held() == Seq::<u8>::empty(),
                Err(error) => announced matches Some(length) && length > limit && error@
                    == (ErrorView::TooLarge { server: server@, limit }),
            },
    {
        if let Some(length) = announced {
            if length > limit as u64 {
                return Err(Error::TooLarge { server: server.to_owned(), limit });
            }
        }
        Ok(Body { server: server.to_owned(), limit, bytes: Vec::new() })
    }

    /// Takes in one more chunk.
    ///
    /// # Errors
    ///
    /// Returns [`Error::TooLarge`] when the body is past the limit with this chunk, and
    /// takes none of it in.
    pub fn push(&mut self, chunk: &[u8]) -> (taken: Result<(), Error>)
        ensures
            final(self).from() == old(self).from(),
            final(self).most() == old(self).most(),
            old(self).held().len() <= old(self).most(),
            match (taken, with_chunk(old(self).held(), chunk@, old(self).most() as nat)) {
                (Ok(_), Some(body)) => final(self).held() == body,
                (Err(error), None) => final(self).held() == old(self).held() && error@
                    == (ErrorView::TooLarge { server: old(self).from(), limit: old(self).most() }),
                _ => false,
            },
    {
        proof {
            use_type_invariant(&*self);
        }
        if chunk.len() > self.limit - self.bytes.len() {
            return Err(Error::TooLarge { server: self.server.clone(), limit: self.limit });
        }
        let mut bytes: Vec<u8> = Vec::new();
        std::mem::swap(&mut bytes, &mut self.bytes);
        bytes.extend_from_slice(chunk);
        self.bytes = bytes;
        Ok(())
    }

    /// Returns what was read.
    pub fn into_bytes(self) -> (bytes: Vec<u8>)
        ensures
            bytes@ == self.held(),
            bytes@.len() <= self.most(),
    {
        proof {
            use_type_invariant(&self);
        }
        self.bytes
    }
}

/// Returns the error for a body that is not RDAP.
pub fn decode_error(given: &str, source: String) -> (error: Error)
    ensures
        error@ == (ErrorView::Decode { server: given@, source: source@ }),
{
    Error::Decode { server: given.to_owned(), source }
}

/// The server part of a URL: the host, with the port when the URL names one.
pub open spec fn server_text(url: url::UrlView) -> Seq<char> {
    let host = match url.host {
        Some(host) => host,
        None => Seq::<char>::empty(),
    };
    match url.port {
        Some(port) => host + ":"@ + number::number_text(port as nat, 10),
        None => host,
    }
}

/// Returns the server part of a URL: the host, with the port when the URL names one.
///
/// A URL for the default port of its scheme names no port.
pub fn server_of(url: &Url) -> (server: String)
    ensures
        server@ == server_text(url@),
{
    let mut server = match &url.host {
        Some(host) => host.clone(),
        None => String::new(),
    };
    if let Some(port) = url.port {
        server.append(":");
        server.append(error::decimal(port as u64).as_str());
    }
    server
}

/// A record the client fetched, with the server that answered.
#[derive(Debug)]
pub struct Record {
    /// The record.
    pub response: Response,
    /// The server that answered: the host, with the port when the URL names one.
    ///
    /// After a redirect this is the last server, which is the one that sent the record.
    pub server: String,
    /// The URL that answered, after every redirect.
    pub url: String,
}

impl Clone for Record {
    fn clone(&self) -> (copy: Self)
        ensures
            copy.response@ == self.response@,
            copy.server@ == self.server@,
            copy.url@ == self.url@,
    {
        Record { response: self.response.clone(), server: self.server.clone(), url: self.url.clone() }
    }
}

impl Record {
    /// Returns a record, with the server that answered.
    ///
    /// `answered` is the URL the answer came from. After a redirect this is the last
    /// URL, not the first.
    pub fn new(response: Response, answered: Url) -> (record: Self)
        ensures
            record.response == response,
            record.server@ == server_text(answered@),
            record.url@ == answered@.text,
    {
        let server = server_of(&answered);
        Record { response, server, url: answered.text }
    }

    /// Returns every abuse contact in the record, each one time.
    ///
    /// The source of each contact names the server that answered.
    pub fn abuse_contacts(&self, scope: Scope) -> (contacts: Vec<Contact>)
        ensures
            contact::contact_views(contacts@) == rdap::contacts_in(
                self.response@.entities,
                scope,
                self.server@,
            ),
    {
        self.response.abuse_contacts(scope, self.server.as_str())
    }
}

// --- One fetch ---------------------------------------------------------------

/// What came of sending a request.
#[derive(Debug)]
pub enum Sent {
    /// The request did not complete.
    Failed {
        /// The refusal of the resolver or the redirect policy, when one stopped it.
        refusal: Option<Refusal>,
        /// What the HTTP layer reported.
        source: String,
    },
    /// A server answered, and the body can be read.
    Answered {
        /// The HTTP status it sent.
        status: u16,
        /// The URL that answered, after every redirect.
        from: Url,
        /// How long the server says the body is.
        announced: Option<u64>,
    },
}

/// The error for a request that did not complete.
pub open spec fn failed_request(given: Seq<char>, refusal: Option<Refusal>, source: Seq<char>) -> ErrorView {
    match refusal {
        Some(refusal) => ErrorView::Refused { server: given, reason: refusal.reason@ },
        None => ErrorView::Transport { server: given, source },
    }
}

/// Why an answer gives no record to read, or `None` when a record follows.
pub open spec fn answer_error(given: Seq<char>, target: Seq<char>, sent: Sent) -> Option<ErrorView> {
    match sent {
        Sent::Failed { refusal, source } => Some(failed_request(given, refusal, source@)),
        Sent::Answered { status, from, announced } => if status == 404 {
            None
        } else if !(200 <= status < 300) {
            Some(ErrorView::Status { server: given, status, target })
        } else if announced matches Some(length) && length > MAX_RECORD_BYTES {
            Some(ErrorView::TooLarge { server: given, limit: MAX_RECORD_BYTES })
        } else {
            None
        },
    }
}

/// A record that is being fetched.
#[derive(Debug)]
pub struct Fetch {
    /// The URL as it was given.
    pub given: String,
    /// What the record is about.
    pub target: String,
}

/// A record whose body is being read.
#[derive(Debug)]
pub struct Reading {
    /// The URL as it was given.
    pub given: String,
    /// The URL that answered, after every redirect.
    pub from: Url,
    /// The body so far.
    pub body: Body,
}

impl Fetch {
    /// Starts to fetch a record, and returns the URL to send a request to.
    ///
    /// # Errors
    ///
    /// Returns [`Error::Refused`] when the text is not a URL, or the URL goes where the
    /// client does not connect.
    pub fn start(given: &str, target: &str, destinations: Destinations) -> (started: Result<
        (Fetch, Url),
        Error,
    >)
        ensures
            started matches Ok((fetch, to)) ==> fetch.given@ == given@ && fetch.target@ == target@,
            is_checked(
                (match started {
                    Ok((_, to)) => Ok(to),
                    Err(error) => Err(error),
                }),
                given@,
                url::url_of_text(given@),
                destinations,
            ),
    {
        match prepare_fetch(given, destinations) {
            Ok(to) => Ok((Fetch { given: given.to_owned(), target: target.to_owned() }, to)),
            Err(error) => Err(error),
        }
    }

    /// Reads what came of the request. Returns `None` when the registry holds no record.
    ///
    /// # Errors
    ///
    /// Returns [`Error::Refused`] when a redirect or a name goes where the client does
    /// not connect, [`Error::Transport`] when the request did not complete,
    /// [`Error::Status`] when the server refuses, and [`Error::TooLarge`] when the body
    /// is announced to be past [`MAX_RECORD_BYTES`].
    pub fn answered(self, sent: Sent) -> (reading: Result<Option<Reading>, Error>)
        ensures
            match reading {
                Err(error) => answer_error(self.given@, self.target@, sent) == Some(error@),
                Ok(None) => sent matches Sent::Answered { status, .. } && status == 404,
                Ok(Some(reading)) => sent matches Sent::Answered { status, from, announced } && 200
                    <= status < 300 && reading.from@ == from@ && reading.given@ == self.given@
                    && reading.body.from() == self.given@ && reading.body.most() == MAX_RECORD_BYTES
                    && reading.body.held() == Seq::<u8>::empty(),
            },
            answer_error(self.given@, self.target@, sent) is Some ==> reading is Err,
    {
        match sent {
            Sent::Failed { refusal, source } => Err(
                request_error(self.given.as_str(), refusal.as_ref(), source),
            ),
            Sent::Answered { status, from, announced } => match record_follows(
                self.given.as_str(),
                status,
                self.target.as_str(),
            ) {
                Ok(true) => match Body::start(self.given.as_str(), MAX_RECORD_BYTES, announced) {
                    Ok(body) => Ok(Some(Reading { given: self.given, from, body })),
                    Err(error) => Err(error),
                },
                Ok(false) => Ok(None),
                Err(error) => Err(error),
            },
        }
    }
}

/// A record whose body was read.
#[derive(Debug)]
pub struct Whole {
    /// The URL as it was given.
    pub given: String,
    /// The URL that answered, after every redirect.
    pub from: Url,
}

impl Reading {
    /// Returns the body for the reader of the record.
    pub fn into_body(self) -> (read: (Whole, Vec<u8>))
        ensures
            read.0.given@ == self.given@,
            read.0.from@ == self.from@,
            read.1@ == self.body.held(),
            read.1@.len() <= self.body.most(),
    {
        (Whole { given: self.given, from: self.from }, self.body.into_bytes())
    }
}

impl Whole {
    /// Returns the record, given what the reader made of the body.
    ///
    /// # Errors
    ///
    /// Returns [`Error::Decode`] when the body is not RDAP.
    pub fn finish(self, decoded: Result<Response, String>) -> (record: Result<Record, Error>)
        ensures
            match (record, decoded) {
                (Ok(record), Ok(response)) => record.response == response && record.server@ == server_text(
                    self.from@,
                ) && record.url@ == self.from@.text,
                (Err(error), Err(source)) => error@ == (ErrorView::Decode {
                    server: self.given@,
                    source: source@,
                }),
                _ => false,
            },
    {
        match decoded {
            Ok(response) => Ok(Record::new(response, self.from)),
            Err(source) => Err(decode_error(self.given.as_str(), source)),
        }
    }
}

// --- What the reading of a body promises -------------------------------------

/// The body after these chunks, or `None` when one of them is past the limit.
pub open spec fn read_chunks(held: Seq<u8>, chunks: Seq<Seq<u8>>, limit: nat) -> Option<Seq<u8>>
    decreases chunks.len(),
{
    if chunks.len() == 0 {
        Some(held)
    } else {
        match with_chunk(held, chunks[0], limit) {
            Some(body) => read_chunks(body, chunks.drop_first(), limit),
            None => None,
        }
    }
}

/// A body that is not past the limit is read whole, as it was sent, and a body that is
/// past the limit is not read, however the server divides it into chunks.
pub proof fn law_body_is_bounded(held: Seq<u8>, chunks: Seq<Seq<u8>>, limit: nat)
    requires
        held.len() <= limit,
    ensures
        read_chunks(held, chunks, limit) == (if held.len() + chunks.flatten().len() <= limit {
            Some(held + chunks.flatten())
        } else {
            None
        }),
    decreases chunks.len(),
{
    if chunks.len() == 0 {
        assert(held + chunks.flatten() =~= held);
    } else {
        let rest = chunks.drop_first();
        assert(chunks.flatten() =~= chunks[0] + rest.flatten());
        if held.len() + chunks[0].len() <= limit {
            law_body_is_bounded(held + chunks[0], rest, limit);
            assert(held + chunks[0] + rest.flatten() =~= held + chunks.flatten());
        }
    }
}

/// A URL that the client asks goes by HTTP or HTTPS, and for a client of public
/// addresses an address written in it is public.
pub proof fn law_asked_url_is_allowed(
    url: Url,
    given: Seq<char>,
    read: Result<url::UrlView, Seq<char>>,
    destinations: Destinations,
)
    requires
        is_checked(Ok::<Url, Error>(url), given, read, destinations),
    ensures
        url@.scheme == "http"@ || url@.scheme == "https"@,
        destinations == Destinations::Public ==> url@.host is Some && (addr::ip_of_text(
            destination::unbracketed(url@.host->0),
        ) matches Some(ip) ==> query::public_address(ip)),
{
}

// --- What is asked, and what the answers mean --------------------------------

/// However many slashes the base URL of a server ends with, the URL of a record is the
/// base, the kind of the record and the target, with one slash between each two.
pub proof fn law_record_url(base: Seq<char>, slashes: Seq<char>, kind: Seq<char>, target: Seq<char>)
    requires
        base.len() > 0 ==> base[base.len() - 1] != '/',
        forall|i: int| 0 <= i < slashes.len() ==> #[trigger] slashes[i] == '/',
    ensures
        record_url_text(base + slashes, kind, target) == base + seq!['/'] + kind + seq!['/'] + target,
{
    reveal_strlit("/");
    text::law_run_after_is_dropped(base, slashes, '/');
    assert(record_url_text(base + slashes, kind, target) =~= base + seq!['/'] + kind + seq!['/'] + target);
}

/// The server of a URL is its host, and a port that it names follows after a colon.
pub proof fn law_server_of_a_url(url: url::UrlView)
    ensures
        url.host is Some && url.port is None ==> server_text(url) == url.host->0,
        url.host is Some && url.port is Some ==> server_text(url) == url.host->0 + seq![':']
            + number::number_text(url.port->0 as nat, 10),
        url.host is None && url.port is None ==> server_text(url).len() == 0,
{
    reveal_strlit(":");
    if url.host is Some && url.port is Some {
        assert(server_text(url) =~= url.host->0 + seq![':'] + number::number_text(url.port->0 as nat, 10));
    }
}

/// The limits of a request: half a minute, one megabyte for a record, four for a registry.
pub proof fn law_limits()
    ensures
        TIMEOUT_SECONDS == 30,
        MAX_RECORD_BYTES == 1048576,
        MAX_BOOTSTRAP_BYTES == 4194304,
        RDAP_MEDIA_TYPE@ == "application/rdap+json"@,
        USER_AGENT@ == "abuse-contact/0.1.0"@,
{
}

/// A chunk is taken in whole after what was read, up to the limit, and one that would go
/// past it is not taken.
pub proof fn law_chunks_are_taken_whole(held: Seq<u8>, chunk: Seq<u8>, limit: nat, i: int)
    ensures
        with_chunk(held, chunk, limit) is Some <==> held.len() + chunk.len() <= limit,
        with_chunk(held, chunk, limit) matches Some(body) ==> {
            &&& body.len() == held.len() + chunk.len()
            &&& 0 <= i < held.len() ==> body[i] == held[i]
            &&& 0 <= i < chunk.len() ==> body[held.len() + i] == chunk[i]
        },
{
}

/// What a failed request, a status or an announced length means: a refusal and a failure
/// are errors, 404 is no record, 200 to 299 is a record of at most one megabyte, and every
/// other status is an error.
pub proof fn law_what_an_answer_means(given: Seq<char>, target: Seq<char>, sent: Sent)
    ensures
        sent matches Sent::Failed { refusal: Some(refusal), .. } ==> answer_error(given, target, sent) == Some(
            ErrorView::Refused { server: given, reason: refusal.reason@ },
        ),
        sent matches Sent::Failed { refusal: None, source } ==> answer_error(given, target, sent) == Some(
            ErrorView::Transport { server: given, source: source@ },
        ),
        sent matches Sent::Answered { status, announced, .. } ==> {
            let error = answer_error(given, target, sent);
            if status == 404 {
                error is None
            } else if status < 200 || status > 299 {
                error == Some(ErrorView::Status { server: given, status, target })
            } else if announced is Some && announced->0 > 1048576 {
                error == Some(ErrorView::TooLarge { server: given, limit: 1048576 })
            } else {
                error is None
            }
        },
{
}

/// A text that is no URL is refused with what the URL parser says, and a URL that goes
/// where the client does not connect is refused with the reason. Every other URL is asked.
pub proof fn law_which_fetches_are_refused(
    checked: Result<Url, Error>,
    given: Seq<char>,
    read: Result<url::UrlView, Seq<char>>,
    destinations: Destinations,
)
    requires
        is_checked(checked, given, read, destinations),
    ensures
        read matches Err(problem) ==> checked is Err && checked->Err_0@ == (ErrorView::Refused {
            server: given,
            reason: "it is not a URL: "@ + problem,
        }),
        read matches Ok(parsed) ==> match destination::url_refusal(parsed, destinations) {
            Some(reason) => checked is Err && checked->Err_0@ == (ErrorView::Refused { server: given, reason }),
            None => checked is Ok && checked->Ok_0@ == parsed,
        },
{
}

/// A request for an address goes to the server of the entry whose range holds the address
/// and is the longest, the first of equals. There is no request exactly when no range
/// holds it.
pub proof fn law_request_for_an_address(
    request: Result<Request, Error>,
    list: Seq<bootstrap::Entry>,
    ip: IpAddr,
    target: Seq<char>,
)
    requires
        asks_server(
            request,
            list,
            |entry: bootstrap::Entry| bootstrap::ip_fit(entry, ip),
            "ip"@,
            target,
        ),
    ensures
        request is Err <==> forall|j: int, length: int|
            0 <= j < list.len() ==> !#[trigger] bootstrap::answers_for_ip(list[j], ip, length),
        request matches Err(error) ==> error@ == (ErrorView::NoServer { target }),
        request matches Ok(asked) ==> asked.target@ == target && exists|i: int, length: int|
            0 <= i < list.len() && #[trigger] bootstrap::answers_for_ip(list[i], ip, length) && asked.url@
                == record_url_text(bootstrap::preferred_url(list[i].urls)->0, "ip"@, target) && forall|
                j: int,
                other: int,
            |
                0 <= j < list.len() && #[trigger] bootstrap::answers_for_ip(list[j], ip, other) ==> other < length
                    || (other == length && i <= j),
{
    let fit = |entry: bootstrap::Entry| bootstrap::ip_fit(entry, ip);
    match request {
        Ok(asked) => {
            let server = choose|server: Seq<char>|
                #[trigger] bootstrap::is_server(list, fit, Some(server)) && asked.url@ == record_url_text(
                    server,
                    "ip"@,
                    target,
                );
            bootstrap::law_server_for_an_address(list, ip, Some(server));
        },
        Err(_) => {
            bootstrap::law_server_for_an_address(list, ip, None);
        },
    }
}

/// A request for a name goes to the server of the entry that the name is under and whose
/// key has the most labels, the first of equals. There is no request exactly when the name
/// is under no key.
pub proof fn law_request_for_a_name(
    request: Result<Request, Error>,
    list: Seq<bootstrap::Entry>,
    name: Seq<char>,
)
    requires
        asks_server(
            request,
            list,
            |entry: bootstrap::Entry| bootstrap::domain_fit(entry, name),
            "domain"@,
            name,
        ),
    ensures
        request is Err <==> forall|j: int, labels: int|
            0 <= j < list.len() ==> !#[trigger] bootstrap::answers_for_name(list[j], name, labels),
        request matches Err(error) ==> error@ == (ErrorView::NoServer { target: name }),
        request matches Ok(asked) ==> asked.target@ == name && exists|i: int, labels: int|
            0 <= i < list.len() && #[trigger] bootstrap::answers_for_name(list[i], name, labels) && asked.url@
                == record_url_text(bootstrap::preferred_url(list[i].urls)->0, "domain"@, name) && forall|
                j: int,
                other: int,
            |
                0 <= j < list.len() && #[trigger] bootstrap::answers_for_name(list[j], name, other) ==> other
                    < labels || (other == labels && i <= j),
{
    let fit = |entry: bootstrap::Entry| bootstrap::domain_fit(entry, name);
    match request {
        Ok(asked) => {
            let server = choose|server: Seq<char>|
                #[trigger] bootstrap::is_server(list, fit, Some(server)) && asked.url@ == record_url_text(
                    server,
                    "domain"@,
                    name,
                );
            bootstrap::law_server_for_a_name(list, name, Some(server));
        },
        Err(_) => {
            bootstrap::law_server_for_a_name(list, name, None);
        },
    }
}

} // verus!
