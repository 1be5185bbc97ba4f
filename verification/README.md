# ratatosk_transport

Transports that carry sealed frames between peers, as a verified library in Verus
and ordinary Rust around it.

- `src/` is the library. Every function in it is verified against its contract; what
  it asks of other crates stands behind a few small items that say what is believed
  of them.
- `tests/` runs the library.
- `app/` holds the sockets, tasks and timers. The rules it follows are the library's.
  Two of its modules want what not every machine has, and are built only on request:
  `arti`, the Tor client, with `--cfg onion_arti` and the crates of `arti`; `bluez`, the
  radio of a Linux system, with `--cfg bluez` and the library of D-Bus.

## The library

| Module | What it holds |
| --- | --- |
| `wire` | the frame on the wire: header, size classes, padding |
| `link` | a stream of frames, and the two queues before it |
| `chatmail` | letters that carry frames, the account request, and the rules of the mail transport |
| `nostr` | what a relay says, how it is reached, and the books of the Nostr transport |
| `lan` | who was heard on the local network, where they are, which links there are |
| `bluetooth` | the bridge to a radio of the platform, and the rules for a radio of our own |
| `onion` | links to onion services, and the news of our own |
| `multi`, `switched`, `deferred` | several transports as one, and transports that rise |
| `tls` | the way to a server |
| `runner` | commands, events and refusals |
| `text`, `octets`, `encoding`, `table`, `sorted` | what the others stand on |

## What is proved beyond the single functions

Public proof functions named `lemma_..` state what holds across calls, among them:

- a letter reads back as the frames it was made of, also where its line ends were
  rewritten on the way, and its head says nothing about them;
- a frame that was made is read as what it was made of, and the other way round;
- a stream of frames reads back;
- a relay of our own is never given up for one of somebody else;
- a frame handed to relays is told of once, and its parts vanish together;
- no letter is deleted that was not read;
- chunks of an HTTP answer spell what they hold, and broken off give nothing;
- one frame, of whatever size, fits a letter;
- the way to a server that a mailbox or an encrypted relay is reached by
  (`tls::way_taken`) is never straight where Tor was wished for. A relay without
  encryption is reached straight, and `nostr::relay` says so.
