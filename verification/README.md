# abuse-contact

Find where to report abuse for an IP address or a domain name.

The contact is in a different place for each kind of target, and the answers are not
interchangeable. The registrar of a domain can suspend the name. The network that holds
an IP address can take the host off the air. The operator of the domain runs the
service. Every contact comes back with the scope it covers, and the choice is yours.

## Layout

- `src/` is the library, verified with Verus. It opens no socket and reads no clock: a
  function says what to ask for, the caller asks, and another function reads what came
  back. Each contract says what is returned for every input.
- `app/` is the command and its connections: HTTP, DNS, the clock, and the streams of
  the process.
- `tests/` runs the library on concrete values, with the outside crates linked.

## What is proved

- Which names and addresses are accepted, and why the others are not.
- Which addresses are public, and that the IPv6 spelling of an IPv4 address is judged as
  the IPv4 address.
- Which server a bootstrap registry gives for an address or a name.
- Which contacts a record or a DNS answer holds, in which order, each one time.
- Where the client connects: that one address inside your network refuses a name, that
  a redirect never leads from HTTPS to HTTP, and that a body is never read past its limit.
- What the cache holds, for how long, and which held range answers for an address.
- What a lookup returns: every mailbox that a source gave, from the best source that gave
  it, with the failures beside the contacts.

## What is trusted

The URL parser of `reqwest`, and of the standard library the Unicode case mappings,
`String::push` and `String::from_utf8`. Each stands in one item, which says what it takes
on trust.
