//! Error types for the crate, and what each of them says.

use vstd::prelude::*;
use vstd::string::*;

use crate::number;
use crate::text;

verus! {

/// A value that cannot be used as a query or as a result.
///
/// These come from the constructors of the newtypes in this crate. A lookup that is
/// certain to fail never reaches the network, and a placeholder a registry sends in
/// place of a real address never reaches the caller.
#[derive(Debug, PartialEq, Eq)]
#[non_exhaustive]
pub enum ValidationError {
    /// The domain name was empty.
    EmptyDomain,
    /// The domain name was not shaped like a domain name.
    InvalidDomain {
        /// The rejected value.
        value: String,
        /// What is wrong with it.
        problem: &'static str,
    },
    /// The email address was not shaped like an email address.
    InvalidEmail {
        /// The rejected value.
        value: String,
        /// What is wrong with it.
        problem: &'static str,
    },
    /// A source sent a fixed address that stands for "no contact published".
    ///
    /// A regional registry that withholds the contact of a network answers with one
    /// address for every network in the region. The address is a marker, not a
    /// mailbox that reads reports.
    WithheldEmail {
        /// The marker the source sent.
        value: String,
    },
    /// The registry sent a placeholder in place of an address.
    ///
    /// A registry that hides contact data puts a fixed string such as
    /// `DATA REDACTED` in the field. The string is not an address and must not be
    /// used as one.
    RedactedEmail {
        /// The placeholder the registry sent.
        value: String,
    },
}

/// What a [`ValidationError`] holds.
pub enum ValidationErrorView {
    EmptyDomain,
    InvalidDomain { value: Seq<char>, problem: Seq<char> },
    InvalidEmail { value: Seq<char>, problem: Seq<char> },
    WithheldEmail { value: Seq<char> },
    RedactedEmail { value: Seq<char> },
}

impl View for ValidationError {
    type V = ValidationErrorView;

    open spec fn view(&self) -> ValidationErrorView {
        match *self {
            ValidationError::EmptyDomain => ValidationErrorView::EmptyDomain,
            ValidationError::InvalidDomain { value, problem } => ValidationErrorView::InvalidDomain {
                value: value@,
                problem: problem@,
            },
            ValidationError::InvalidEmail { value, problem } => ValidationErrorView::InvalidEmail {
                value: value@,
                problem: problem@,
            },
            ValidationError::WithheldEmail { value } => ValidationErrorView::WithheldEmail { value: value@ },
            ValidationError::RedactedEmail { value } => ValidationErrorView::RedactedEmail { value: value@ },
        }
    }
}

impl Clone for ValidationError {
    fn clone(&self) -> (copy: Self)
        ensures
            copy@ == self@,
    {
        match self {
            ValidationError::EmptyDomain => ValidationError::EmptyDomain,
            ValidationError::InvalidDomain { value, problem } => ValidationError::InvalidDomain {
                value: value.clone(),
                problem: *problem,
            },
            ValidationError::InvalidEmail { value, problem } => ValidationError::InvalidEmail {
                value: value.clone(),
                problem: *problem,
            },
            ValidationError::WithheldEmail { value } => ValidationError::WithheldEmail { value: value.clone() },
            ValidationError::RedactedEmail { value } => ValidationError::RedactedEmail { value: value.clone() },
        }
    }
}

impl ValidationErrorView {
    /// What the error says.
    pub open spec fn text(self) -> Seq<char> {
        match self {
            ValidationErrorView::EmptyDomain =>
                "the domain name is empty. Give a name such as \"example.com\""@,
            ValidationErrorView::InvalidDomain { value, problem } => "\""@ + value
                + "\" is not a domain name: "@ + problem,
            ValidationErrorView::InvalidEmail { value, problem } => "\""@ + value
                + "\" is not an email address: "@ + problem,
            ValidationErrorView::WithheldEmail { value } => "\""@ + value
                + "\" is the address a source returns when it has no contact for the network, not a contact. Ask the regional registry, or use the technical contact from RDAP"@,
            ValidationErrorView::RedactedEmail { value } => "\""@ + value
                + "\" is a placeholder the registry sends in place of an address, not an address. Look for the abuse contact of the network instead"@,
        }
    }
}

impl ValidationError {
    /// Returns what the error says, for a person to read.
    pub fn message(&self) -> (said: String)
        ensures
            said@ == self@.text(),
    {
        match self {
            ValidationError::EmptyDomain =>
                "the domain name is empty. Give a name such as \"example.com\"".to_owned(),
            ValidationError::InvalidDomain { value, problem } => {
                let mut said = "\"".to_owned();
                said.append(value.as_str());
                said.append("\" is not a domain name: ");
                said.append(problem);
                said
            },
            ValidationError::InvalidEmail { value, problem } => {
                let mut said = "\"".to_owned();
                said.append(value.as_str());
                said.append("\" is not an email address: ");
                said.append(problem);
                said
            },
            ValidationError::WithheldEmail { value } => {
                let mut said = "\"".to_owned();
                said.append(value.as_str());
                said.append(
                    "\" is the address a source returns when it has no contact for the network, not a contact. Ask the regional registry, or use the technical contact from RDAP",
                );
                said
            },
            ValidationError::RedactedEmail { value } => {
                let mut said = "\"".to_owned();
                said.append(value.as_str());
                said.append(
                    "\" is a placeholder the registry sends in place of an address, not an address. Look for the abuse contact of the network instead",
                );
                said
            },
        }
    }
}

/// A lookup that did not finish.
#[derive(Debug, PartialEq, Eq)]
#[non_exhaustive]
pub enum Error {
    /// The request did not complete: DNS, TLS, connection or timeout.
    Transport {
        /// The server the request went to.
        server: String,
        /// What the HTTP layer reported.
        source: String,
    },
    /// The body was not the RDAP this crate expects.
    Decode {
        /// The server that answered.
        server: String,
        /// What the reader reported.
        source: String,
    },
    /// The server answered, and the answer was not a record.
    Status {
        /// The server that answered.
        server: String,
        /// The HTTP status it sent.
        status: u16,
        /// What was asked about.
        target: String,
    },
    /// The server sent a body longer than the crate reads.
    ///
    /// A record is a few kilobytes. A body past the limit is a fault on the server, or
    /// a server that tries to use up the memory of the process.
    TooLarge {
        /// The server that answered.
        server: String,
        /// The most the crate reads, in bytes.
        limit: usize,
    },
    /// The URL, or a redirect from it, goes where the client does not connect.
    Refused {
        /// The server the request was for.
        server: String,
        /// Why the client did not send it.
        reason: String,
    },
    /// The DNS lookup did not finish. A name that does not exist is not this error.
    Dns {
        /// The name that was asked for.
        name: String,
        /// What the resolver reported.
        source: String,
    },
    /// No registry holds the address or the name.
    ///
    /// The bootstrap registry names a server for every range IANA has given out. A
    /// target with no server is a private address, a reserved range, or a name under
    /// a top-level domain that runs no RDAP server.
    NoServer {
        /// What was asked about.
        target: String,
    },
    /// The address is not one the public registries describe.
    ///
    /// A regional registry holds a record for the reserved block a private address
    /// sits in, and that record names IANA. Answering with it gives a contact that
    /// cannot act, so the lookup stops here instead.
    NotPublic {
        /// The address that was asked about.
        target: String,
    },
    /// A value did not satisfy a documented limit.
    Validation(ValidationError),
}

/// What an [`Error`] holds.
pub enum ErrorView {
    Transport { server: Seq<char>, source: Seq<char> },
    Decode { server: Seq<char>, source: Seq<char> },
    Status { server: Seq<char>, status: u16, target: Seq<char> },
    TooLarge { server: Seq<char>, limit: usize },
    Refused { server: Seq<char>, reason: Seq<char> },
    Dns { name: Seq<char>, source: Seq<char> },
    NoServer { target: Seq<char> },
    NotPublic { target: Seq<char> },
    Validation(ValidationErrorView),
}

impl View for Error {
    type V = ErrorView;

    open spec fn view(&self) -> ErrorView {
        match *self {
            Error::Transport { server, source } => ErrorView::Transport { server: server@, source: source@ },
            Error::Decode { server, source } => ErrorView::Decode { server: server@, source: source@ },
            Error::Status { server, status, target } => ErrorView::Status {
                server: server@,
                status,
                target: target@,
            },
            Error::TooLarge { server, limit } => ErrorView::TooLarge { server: server@, limit },
            Error::Refused { server, reason } => ErrorView::Refused { server: server@, reason: reason@ },
            Error::Dns { name, source } => ErrorView::Dns { name: name@, source: source@ },
            Error::NoServer { target } => ErrorView::NoServer { target: target@ },
            Error::NotPublic { target } => ErrorView::NotPublic { target: target@ },
            Error::Validation(error) => ErrorView::Validation(error@),
        }
    }
}

impl ErrorView {
    /// What the error says.
    pub open spec fn text(self) -> Seq<char> {
        match self {
            ErrorView::Transport { server, source } => "the request to "@ + server + " did not complete: "@
                + source,
            ErrorView::Decode { server, source } => server + " answered with a body that is not RDAP: "@
                + source,
            ErrorView::Status { server, status, target } => server + " answered "@ + number::number_text(
                status as nat,
                10,
            ) + " for "@ + target,
            ErrorView::TooLarge { server, limit } => server + " sent a body longer than "@
                + number::number_text(limit as nat, 10) + " bytes, which is more than a record"@,
            ErrorView::Refused { server, reason } => "the client does not connect to "@ + server + ": "@
                + reason,
            ErrorView::Dns { name, source } => "the DNS lookup for "@ + name + " did not finish: "@ + source,
            ErrorView::NoServer { target } => "no RDAP server answers for "@ + target
                + ". Check that it is a public address or a registered name, and not a private or reserved range"@,
            ErrorView::NotPublic { target } => target
                + " is a private, reserved or documentation address. The registries describe the reserved block, not the host, so a report about it has no owner. Use the public address that carried the traffic"@,
            ErrorView::Validation(error) => error.text(),
        }
    }
}

impl Error {
    /// Returns what the error says, for a person to read.
    pub fn message(&self) -> (said: String)
        ensures
            said@ == self@.text(),
    {
        match self {
            Error::Transport { server, source } => {
                let mut said = "the request to ".to_owned();
                said.append(server.as_str());
                said.append(" did not complete: ");
                said.append(source.as_str());
                said
            },
            Error::Decode { server, source } => {
                let mut said = server.clone();
                said.append(" answered with a body that is not RDAP: ");
                said.append(source.as_str());
                said
            },
            Error::Status { server, status, target } => {
                let mut said = server.clone();
                said.append(" answered ");
                said.append(decimal(*status as u64).as_str());
                said.append(" for ");
                said.append(target.as_str());
                said
            },
            Error::TooLarge { server, limit } => {
                let mut said = server.clone();
                said.append(" sent a body longer than ");
                said.append(decimal(*limit as u64).as_str());
                said.append(" bytes, which is more than a record");
                said
            },
            Error::Refused { server, reason } => {
                let mut said = "the client does not connect to ".to_owned();
                said.append(server.as_str());
                said.append(": ");
                said.append(reason.as_str());
                said
            },
            Error::Dns { name, source } => {
                let mut said = "the DNS lookup for ".to_owned();
                said.append(name.as_str());
                said.append(" did not finish: ");
                said.append(source.as_str());
                said
            },
            Error::NoServer { target } => {
                let mut said = "no RDAP server answers for ".to_owned();
                said.append(target.as_str());
                said.append(
                    ". Check that it is a public address or a registered name, and not a private or reserved range",
                );
                said
            },
            Error::NotPublic { target } => {
                let mut said = target.clone();
                said.append(
                    " is a private, reserved or documentation address. The registries describe the reserved block, not the host, so a report about it has no owner. Use the public address that carried the traffic",
                );
                said
            },
            Error::Validation(error) => error.message(),
        }
    }
}

impl From<ValidationError> for Error {
    fn from(error: ValidationError) -> (wrapped: Self) {
        Error::Validation(error)
    }
}

impl vstd::std_specs::convert::FromSpecImpl<ValidationError> for Error {
    open spec fn obeys_from_spec() -> bool {
        true
    }

    open spec fn from_spec(error: ValidationError) -> Self {
        Error::Validation(error)
    }
}

/// Returns a number in base ten.
pub(crate) fn decimal(number: u64) -> (digits: String)
    ensures
        digits@ == number::number_text(number as nat, 10),
{
    let chars = number::write_number(number, 10);
    text::text_of(chars.as_slice())
}

/// What each error on a value says, with the value.
pub proof fn law_what_a_value_error_says(value: Seq<char>, problem: Seq<char>)
    ensures
        ValidationErrorView::EmptyDomain.text()
            == "the domain name is empty. Give a name such as \"example.com\""@,
        (ValidationErrorView::InvalidDomain { value, problem }).text() == seq!['"'] + value
            + "\" is not a domain name: "@ + problem,
        (ValidationErrorView::InvalidEmail { value, problem }).text() == seq!['"'] + value
            + "\" is not an email address: "@ + problem,
        (ValidationErrorView::WithheldEmail { value }).text() == seq!['"'] + value
            + "\" is the address a source returns when it has no contact for the network, not a contact. Ask the regional registry, or use the technical contact from RDAP"@,
        (ValidationErrorView::RedactedEmail { value }).text() == seq!['"'] + value
            + "\" is a placeholder the registry sends in place of an address, not an address. Look for the abuse contact of the network instead"@,
{
    reveal_strlit("\"");
    assert("\""@ =~= seq!['"']);
}

/// What each error of a lookup says, with the server, the name or the target.
pub proof fn law_what_a_lookup_error_says(
    server: Seq<char>,
    source: Seq<char>,
    target: Seq<char>,
    status: u16,
    limit: usize,
    error: ValidationErrorView,
)
    ensures
        (ErrorView::Transport { server, source }).text() == "the request to "@ + server
            + " did not complete: "@ + source,
        (ErrorView::Decode { server, source }).text() == server
            + " answered with a body that is not RDAP: "@ + source,
        (ErrorView::Status { server, status, target }).text() == server + " answered "@ + number::number_text(
            status as nat,
            10,
        ) + " for "@ + target,
        (ErrorView::TooLarge { server, limit }).text() == server + " sent a body longer than "@
            + number::number_text(limit as nat, 10) + " bytes, which is more than a record"@,
        (ErrorView::Refused { server, reason: source }).text() == "the client does not connect to "@ + server
            + ": "@ + source,
        (ErrorView::Dns { name: target, source }).text() == "the DNS lookup for "@ + target
            + " did not finish: "@ + source,
        (ErrorView::NoServer { target }).text() == "no RDAP server answers for "@ + target
            + ". Check that it is a public address or a registered name, and not a private or reserved range"@,
        (ErrorView::NotPublic { target }).text() == target
            + " is a private, reserved or documentation address. The registries describe the reserved block, not the host, so a report about it has no owner. Use the public address that carried the traffic"@,
        ErrorView::Validation(error).text() == error.text(),
{
}

/// An error on a value is seen with the value and what is wrong with it.
pub proof fn law_value_errors_are_seen_whole(error: ValidationError)
    ensures
        error is EmptyDomain <==> error@ is EmptyDomain,
        error matches ValidationError::InvalidDomain { value, problem } ==> error@
            == (ValidationErrorView::InvalidDomain { value: value@, problem: problem@ }),
        error matches ValidationError::InvalidEmail { value, problem } ==> error@
            == (ValidationErrorView::InvalidEmail { value: value@, problem: problem@ }),
        error matches ValidationError::WithheldEmail { value } ==> error@ == (ValidationErrorView::WithheldEmail {
            value: value@,
        }),
        error matches ValidationError::RedactedEmail { value } ==> error@ == (ValidationErrorView::RedactedEmail {
            value: value@,
        }),
{
}

/// An error of a lookup is seen with all it holds.
pub proof fn law_lookup_errors_are_seen_whole(error: Error)
    ensures
        error matches Error::Transport { server, source } ==> error@ == (ErrorView::Transport {
            server: server@,
            source: source@,
        }),
        error matches Error::Decode { server, source } ==> error@ == (ErrorView::Decode {
            server: server@,
            source: source@,
        }),
        error matches Error::Status { server, status, target } ==> error@ == (ErrorView::Status {
            server: server@,
            status,
            target: target@,
        }),
        error matches Error::TooLarge { server, limit } ==> error@ == (ErrorView::TooLarge {
            server: server@,
            limit,
        }),
        error matches Error::Refused { server, reason } ==> error@ == (ErrorView::Refused {
            server: server@,
            reason: reason@,
        }),
        error matches Error::Dns { name, source } ==> error@ == (ErrorView::Dns { name: name@, source: source@ }),
        error matches Error::NoServer { target } ==> error@ == (ErrorView::NoServer { target: target@ }),
        error matches Error::NotPublic { target } ==> error@ == (ErrorView::NotPublic { target: target@ }),
        error matches Error::Validation(inner) ==> error@ == ErrorView::Validation(inner@),
{
}

} // verus!
