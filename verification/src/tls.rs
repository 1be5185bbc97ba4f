//! The way to a server: straight or through Tor, and how it is refused.

use crate::runner::TransportError;
use vstd::prelude::*;
use vstd::string::*;

verus! {

broadcast use vstd::string::group_string_axioms;

/// The way to a server.
#[derive(Debug, Clone, Copy, PartialEq, Eq, Structural)]
pub enum Way {
    /// Straight.
    Direct,
    /// Through Tor.
    Tor,
}

/// Why there is no connection to a server.
#[derive(Debug, PartialEq, Eq)]
pub enum Refusal {
    /// Tor gave no stream, in these words.
    Tor(String),
    /// The name of the server is none.
    Name(String),
    /// There was no agreement on how to encrypt, in these words.
    Handshake(String),
}

/// The way to take: through Tor where that is wished, and only there, and then
/// not without Tor.
pub open spec fn way_taken(via_tor: bool, tor_up: bool) -> Result<Way, TransportError> {
    if !via_tor {
        Ok(Way::Direct)
    } else if tor_up {
        Ok(Way::Tor)
    } else {
        Err(TransportError::Unavailable)
    }
}

/// The way to take.
pub fn way(via_tor: bool, tor_up: bool) -> (r: Result<Way, TransportError>)
    ensures
        r == way_taken(via_tor, tor_up),
{
    if !via_tor {
        Ok(Way::Direct)
    } else if tor_up {
        Ok(Way::Tor)
    } else {
        Err(TransportError::Unavailable)
    }
}

/// A wish for Tor is never answered with a straight connection.
pub proof fn lemma_tor_is_not_left_out(tor_up: bool)
    ensures
        way_taken(true, tor_up) != Ok::<Way, TransportError>(Way::Direct),
{
}

impl Refusal {
    /// The refusal in words.
    pub open spec fn words(&self) -> Seq<char> {
        match self {
            Refusal::Tor(error) => "Tor не открыл поток: "@ + error@,
            Refusal::Name(host) => "имя сервера не годится: "@ + host@,
            Refusal::Handshake(error) => "TLS не установился: "@ + error@,
        }
    }

    /// The refusal as the transports tell it.
    pub fn error(self) -> (r: TransportError)
        ensures
            r matches TransportError::Refused(reason) && reason@ == self.words(),
    {
        let (head, tail) = match self {
            Refusal::Tor(error) => ("Tor не открыл поток: ", error),
            Refusal::Name(host) => ("имя сервера не годится: ", host),
            Refusal::Handshake(error) => ("TLS не установился: ", error),
        };
        let mut reason = head.to_owned();
        reason.append(tail.as_str());
        TransportError::Refused(reason)
    }
}

/// Whether `ServerName::try_from` of `rustls` takes a text for the name of a
/// server: for a name of the domain name system, or for an address.
pub uninterp spec fn names_server(host: Seq<char>) -> bool;

/// `ServerName::try_from` of `rustls`. Whether it takes a text depends on the text
/// alone.
#[verifier::external_body]
fn is_server_name(host: &str) -> (r: bool)
    ensures
        r == names_server(host@),
{
    rustls::pki_types::ServerName::try_from(host).is_ok()
}

/// What it comes to that a text is taken for the name of a server, or not.
pub fn named(host: &str, taken: bool) -> (r: Result<(), TransportError>)
    ensures
        r is Ok <==> taken,
        r matches Err(e) ==> (e matches TransportError::Refused(reason) && reason@
            == "имя сервера не годится: "@ + host@),
{
    if taken {
        Ok(())
    } else {
        Err(Refusal::Name(host.to_owned()).error())
    }
}

/// Whether a text is the name of a server.
pub fn server_name(host: &str) -> (r: Result<(), TransportError>)
    ensures
        r is Ok <==> names_server(host@),
        r matches Err(e) ==> (e matches TransportError::Refused(reason) && reason@
            == "имя сервера не годится: "@ + host@),
{
    let taken = is_server_name(host);
    named(host, taken)
}

/// Without a wish for Tor the way is straight; with one it goes through Tor where
/// Tor is up, and nowhere where it is not.
pub proof fn lemma_the_wish_decides_the_way(via_tor: bool, tor_up: bool)
    ensures
        way_taken(via_tor, tor_up) == Ok::<Way, TransportError>(Way::Direct) <==> !via_tor,
        way_taken(via_tor, tor_up) == Ok::<Way, TransportError>(Way::Tor) <==> via_tor && tor_up,
        way_taken(via_tor, tor_up) == Err::<Way, TransportError>(TransportError::Unavailable)
            <==> via_tor && !tor_up,
{
}

} // verus!
