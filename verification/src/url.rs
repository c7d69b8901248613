//! URLs, as far as the library reads them.

use vstd::prelude::*;
use vstd::string::*;

verus! {

/// A URL that was read, with the parts the library looks at.
#[derive(Debug, PartialEq, Eq)]
pub struct Url {
    /// The scheme, such as `https`.
    pub scheme: String,
    /// The host: a name, an IPv4 address in the dotted form, or an IPv6 address in
    /// brackets.
    pub host: Option<String>,
    /// The port, when the URL names one that is not the default of its scheme.
    pub port: Option<u16>,
    /// The whole URL as text.
    pub text: String,
}

/// What a [`Url`] holds.
pub struct UrlView {
    pub scheme: Seq<char>,
    pub host: Option<Seq<char>>,
    pub port: Option<u16>,
    pub text: Seq<char>,
}

impl View for Url {
    type V = UrlView;

    open spec fn view(&self) -> UrlView {
        UrlView {
            scheme: self.scheme@,
            host: match self.host {
                Some(host) => Some(host@),
                None => None,
            },
            port: self.port,
            text: self.text@,
        }
    }
}

impl Clone for Url {
    fn clone(&self) -> (copy: Self)
        ensures
            copy@ == self@,
    {
        Url {
            scheme: self.scheme.clone(),
            host: match &self.host {
                Some(host) => Some(host.clone()),
                None => None,
            },
            port: self.port,
            text: self.text.clone(),
        }
    }
}

/// What `reqwest::Url::parse` gives for a text: the parts of the URL, or what it says
/// is wrong.
pub uninterp spec fn url_of_text(t: Seq<char>) -> Result<UrlView, Seq<char>>;

/// What a reading of a URL holds.
pub open spec fn read_view(read: Result<Url, String>) -> Result<UrlView, Seq<char>> {
    match read {
        Ok(url) => Ok(url@),
        Err(problem) => Err(problem@),
    }
}

/// `reqwest::Url::parse`, by the URL standard. The result rests on the text alone.
///
/// The parts are what `scheme`, `host_str`, `port` and `as_str` of the parsed URL give,
/// and the error is what its parse error displays. Which texts are URLs, and what their
/// parts are, is the URL standard and is not stated here.
#[verifier::external_body]
pub(crate) fn parse_url(t: &str) -> (read: Result<Url, String>)
    ensures
        read_view(read) == url_of_text(t@),
{
    match reqwest::Url::parse(t) {
        Ok(url) => Ok(
            Url {
                scheme: url.scheme().to_owned(),
                host: url.host_str().map(str::to_owned),
                port: url.port(),
                text: url.as_str().to_owned(),
            },
        ),
        Err(problem) => Err(problem.to_string()),
    }
}

impl Url {
    /// Reads a URL.
    ///
    /// # Errors
    ///
    /// Returns what is wrong when the text is not a URL.
    pub fn parse(t: &str) -> (read: Result<Url, String>)
        ensures
            read_view(read) == url_of_text(t@),
    {
        parse_url(t)
    }
}

/// A URL is seen with its scheme, its host, its port and its text, and what the parser
/// said is seen as it said it.
pub proof fn law_url_is_seen_whole(url: Url, problem: String)
    ensures
        url@.scheme == url.scheme@,
        url.host is None <==> url@.host is None,
        url.host matches Some(host) ==> url@.host == Some(host@),
        url@.port == url.port,
        url@.text == url.text@,
        read_view(Ok(url)) == Ok::<UrlView, Seq<char>>(url@),
        read_view(Err(problem)) == Err::<UrlView, Seq<char>>(problem@),
{
}

} // verus!
