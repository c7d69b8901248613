//! Find where to report abuse for an IP address or a domain name.
//!
//! The contact lives in a different place for each kind of target, and the answers
//! are not interchangeable. The registrar of a domain can suspend the name. The
//! network that holds an IP address can take the host off the air. The operator of
//! the domain runs the service. A report goes to the one that can act on it, so this
//! crate returns every contact it finds with the scope it covers, and leaves the
//! choice to you.
//!
//! # Sources
//!
//! | Source | Target | What it gives |
//! | --- | --- | --- |
//! | RDAP | IP, domain | The contact the registry publishes |
//! | Abusix | IP | The contact for the network, over DNS |
//! | abuse.net | domain | The contact the operator registered, over DNS |
//! | RFC 2142 | domain | `abuse@` at the domain, a guess |
//!
//! # Design
//!
//! The library decides and the program around it connects. Nothing here opens a socket
//! or reads a clock: a function says what to ask for, the caller asks, and another
//! function reads what came back. What each function returns is stated in its contract
//! and proved.
//!
//! Values that go out are checked when you build them. [`DomainName`] refuses a name
//! that no registry can hold, so a lookup that is certain to find nothing never
//! reaches the network.
//!
//! Values that come back are not checked the same way. A change on a registry side
//! must not turn a working lookup into a parse error, so [`rdap::Response`] holds the
//! few fields an abuse lookup needs and nothing else.
//!
//! One value that comes back is refused: a registry that hides contact data puts a
//! placeholder such as `DATA REDACTED` in the email field. [`EmailAddress`] rejects
//! it, so the placeholder never reaches a mail queue.
//!
//! Registries do not agree on where the abuse entity goes, or on whether to publish
//! one. ARIN puts it under the registrant and again at the top level. RIPE, APNIC and
//! LACNIC put it at the top level. APNIC marks the abuse mailbox with `pref` and lists
//! a help desk beside it. registro.br marks one entity both technical and abuse and
//! gives it no address. AFRINIC publishes no abuse entity at all. The reader walks the
//! whole tree, sorts by preference, and returns each address one time.
//!
//! # Modules
//!
//! - [`text`], [`number`], [`list`] and [`addr`] state what strings, numbers, lists and
//!   addresses are, and read and write them.
//! - [`prefix`], [`nat64`] and [`query`] decide what an address is part of, and whether it
//!   is public.
//! - [`contact`], [`dns`], [`rdap`] and [`json`] read contacts out of answers.
//! - [`bootstrap`], [`client`], [`destination`] and [`url`] decide which server to ask, and
//!   where the client may connect.
//! - [`resolver`], [`cache`] and [`finder`] decide what a lookup asks, holds and returns.
//! - [`cli`] reads a command line and writes what was found.

pub mod addr;
pub mod bootstrap;
pub mod cache;
pub mod cli;
pub mod client;
pub mod contact;
pub mod destination;
pub mod dns;
pub mod error;
pub mod finder;
pub mod json;
pub mod list;
pub mod nat64;
pub mod number;
pub mod prefix;
pub mod query;
pub mod rdap;
pub mod resolver;
pub mod text;
pub mod url;

pub use cache::Cache;
pub use client::{Record, MAX_BOOTSTRAP_BYTES, MAX_RECORD_BYTES};
pub use contact::{rank, Contact, EmailAddress, Scope, Source};
pub use destination::Destinations;
pub use error::{Error, ValidationError};
pub use finder::{Failure, Found, Origin};
pub use query::{is_public, DomainName, Query};
