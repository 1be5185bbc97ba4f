//! What the transports are told, what they say back, and how they refuse.

use vstd::prelude::*;
use vstd::string::*;

verus! {

/// A way to reach a peer.
#[derive(Debug, Clone, Copy, PartialEq, Eq, PartialOrd, Ord, Hash, Structural)]
pub enum Transport {
    /// The local network.
    Lan,
    /// Bluetooth.
    Bt,
    /// Yggdrasil.
    Ygg,
    /// A Tor onion service.
    Onion,
    /// Nostr relays.
    Nostr,
    /// Mail.
    Mail,
}

/// Where a peer can be reached.
#[derive(Debug, Clone, PartialEq, Eq)]
pub struct PeerAddress {
    /// The identity key.
    pub ik: [u8; 32],
    /// The onion address.
    pub onion: Option<String>,
    /// The mail address.
    pub chatmail: Option<String>,
    /// The Yggdrasil address.
    pub ygg: Option<String>,
    /// The Nostr key.
    pub nostr: Option<[u8; 32]>,
    /// The relays that the peer reads.
    pub nostr_relays: Vec<String>,
}

/// A mailbox.
#[derive(Debug, Clone, PartialEq, Eq)]
pub struct MailAccount {
    pub address: String,
    pub password: String,
    pub imap_host: String,
    pub imap_port: u16,
    pub smtp_host: String,
    pub smtp_port: u16,
    pub via_tor: bool,
}

/// How the Nostr transport is set up.
#[derive(Debug, Clone, PartialEq, Eq)]
pub enum NostrSetup {
    /// Not at all.
    Off,
    /// With a key, the relays we read and the time up to which they were read.
    On { secret: [u8; 32], relays: Vec<String>, via_tor: bool, since: u64 },
}

/// A relay of ours, as it was last heard of.
#[derive(Debug, Clone, PartialEq, Eq)]
pub struct NostrRelay {
    pub url: String,
    pub up: bool,
    pub note: String,
}

/// What a transport is told to do.
#[derive(Debug, Clone, PartialEq, Eq)]
pub enum TransportCommand {
    /// Carry a frame to a peer, and say so under `handoff` once it is out of our hands.
    Send { peer: PeerAddress, via: Transport, frame: Vec<u8>, handoff: Option<u64> },
    /// Open a way to a peer.
    Connect { peer: PeerAddress, via: Transport },
    /// Close every way to a peer.
    Disconnect { peer: PeerAddress },
    /// Switch a transport on or off.
    SetEnabled { transport: Transport, enabled: bool },
    /// Look out for these peers on the local network.
    WatchLanPeers(Vec<[u8; 32]>),
    /// Look out for these peers.
    WatchPeers(Vec<[u8; 32]>),
    /// Announce ourselves on the local network anew.
    RestartLan,
    /// The network is another one now.
    NetworkChanged,
    /// Set Yggdrasil up.
    SetYgg(Option<String>),
    /// Set Nostr up.
    SetNostr(NostrSetup),
    /// Use this mailbox, or none.
    SetMailAccount(Option<MailAccount>),
    /// Ask a server for a mailbox.
    CreateMailAccount { url: String, via_tor: bool },
    /// The channel that a peer opened belongs to this peer.
    BindLink { link: u64, peer_ik: [u8; 32] },
}

/// How a transport refuses.
#[derive(Debug, Clone, PartialEq, Eq)]
pub enum TransportError {
    /// It is off, not up yet, or not what the command is for.
    Unavailable,
    /// Nobody knows where the peer is.
    NoAddress,
    /// The queue is full; the way to the peer stands.
    Busy,
    /// Nobody answered in time.
    Timeout,
    /// The other side refused.
    Refused(String),
    /// Looking for peers failed.
    Discovery(String),
    /// Reading or writing failed.
    Io(String),
}

/// What a transport says.
#[derive(Debug, Clone, PartialEq, Eq)]
pub enum TransportEvent {
    Ready { transport: Transport },
    Lost { transport: Transport },
    Connected { peer_ik: [u8; 32], via: Transport },
    Disconnected { peer_ik: [u8; 32], via: Transport },
    ConnectFailed { peer_ik: [u8; 32], via: Transport },
    Received {
        via: Transport,
        peer_hint: Option<[u8; 32]>,
        link: Option<u64>,
        frame: Vec<u8>,
    },
    Handed { peer_ik: [u8; 32], via: Transport, handoff: u64 },
    SeenOnLan { peer_ik: [u8; 32] },
    SeenOnBt { peer_ik: [u8; 32] },
    /// How far Tor has come, in thousandths.
    TorProgress { thousandths: u32, note: String, blocked: Option<String> },
    TorReady { onion: String },
    MailLoginFailed { reason: String },
    MailLetterLimit { bytes: Option<u64> },
    MailQuota { used_bytes: u64, limit_bytes: u64 },
    MailAccountCreated { address: String, password: String },
    MailAccountFailed { reason: String },
    NostrRelays { relays: Vec<NostrRelay> },
    NostrSince { created_at: u64 },
}

impl MailAccount {
    /// The same mailbox once more.
    pub fn copy(&self) -> (r: MailAccount)
        ensures
            r == *self,
    {
        MailAccount {
            address: self.address.clone(),
            password: self.password.clone(),
            imap_host: self.imap_host.clone(),
            imap_port: self.imap_port,
            smtp_host: self.smtp_host.clone(),
            smtp_port: self.smtp_port,
            via_tor: self.via_tor,
        }
    }
}

impl NostrRelay {
    /// The same relay once more.
    pub fn copy(&self) -> (r: NostrRelay)
        ensures
            r == *self,
    {
        NostrRelay { url: self.url.clone(), up: self.up, note: self.note.clone() }
    }
}

} // verus!
