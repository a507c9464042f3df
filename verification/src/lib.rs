//! Streams that arrive as DHCP client messages. One message is one Stream: its
//! options, one `name=value` line each, with the transaction, type, hardware
//! address and hostname in the origin.
//!
//! DHCP (RFC 2131) is the first thing a device says on a network: a discover
//! names the device, a request names the address it wants, a release says it
//! has gone, an inform asks for configuration. A send answers: it offers,
//! acknowledges or refuses a lease.
//!
//! The origin carries what the fixed fields and option 53 knew:
//! `dhcp://peer?xid=0x3903f326&type=discover&mac=aa:bb:cc:dd:ee:ff&hostname=printer-7`.
//!
//! A send goes to `dhcp://host:port?xid=0x3903f326&mac=aa:bb:cc:dd:ee:ff`
//! `&type=offer&yiaddr=10.0.0.9&server=10.0.0.1`, the port being 68 at the
//! client or 67 at a relay, and the bytes' `name=value` lines are the options.
//! `xid` and `mac` name the transaction being answered and are required; `type`
//! defaults to `ack`, `server` sets both `siaddr` and option 54, and a bare
//! `host:port` answers nothing and is refused.
//!
//! The library reads and writes datagrams, lines and targets; it opens no
//! socket. What each function returns is stated over a view of its arguments:
//! [`message::MessageView`] of a message, sequences of characters and bytes of
//! the rest. The functions named `law_...` prove what holds across functions:
//! that what is written is read back, that an origin answers its message, and
//! that a Stream sent over the loopback is the Stream taken. The module [`laws`]
//! says of the values themselves what the functions do with them.

pub mod error;
pub mod ipv4;
pub mod laws;
pub mod lines;
pub mod loopback;
pub mod message;
pub mod number;
pub mod option;
pub mod text;
pub mod transport;
pub mod utf8;
pub mod wire;

pub use error::Error;
pub use ipv4::Ipv4Addr;
pub use loopback::MAX_STREAM;
pub use message::{Message, MessageType, BOOTREPLY, BOOTREQUEST, MAX_MESSAGE};
pub use transport::{Arrived, DhcpTransport};
