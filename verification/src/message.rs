//! RFC 2131 section 2: the BOOTP fixed fields, the magic cookie and the
//! RFC 2132 options after it.

use vstd::prelude::*;

use crate::ipv4::Ipv4Addr;
use crate::number;
use crate::number::parse_number;
use crate::option;
use crate::option::hex_pairs;
use crate::text;
use crate::text::{chars_of, spells, split};
use crate::utf8;
use crate::utf8::read_text;
use vstd::slice::slice_subrange;

pub use crate::wire::{decode, encode};

verus! {

/// The four bytes that say the options follow.
pub const MAGIC: [u8; 4] = [99, 130, 83, 99];

/// A message from a client.
pub const BOOTREQUEST: u8 = 1;

/// A message from a server.
pub const BOOTREPLY: u8 = 2;

/// Ethernet, the one hardware type the estate has.
pub const HTYPE_ETHERNET: u8 = 1;

/// The smallest datagram a relay forwards.
pub const MIN_MESSAGE: usize = 300;

/// The largest a client must take without option 57.
pub const MAX_MESSAGE: usize = 576;

pub const OPTION_SUBNET_MASK: u8 = 1;

pub const OPTION_ROUTER: u8 = 3;

pub const OPTION_DNS: u8 = 6;

pub const OPTION_HOSTNAME: u8 = 12;

pub const OPTION_REQUESTED_ADDRESS: u8 = 50;

pub const OPTION_LEASE_TIME: u8 = 51;

pub const OPTION_MESSAGE_TYPE: u8 = 53;

pub const OPTION_SERVER: u8 = 54;

pub const OPTION_PARAMETER_LIST: u8 = 55;

pub const OPTION_CLIENT_ID: u8 = 61;

pub const OPTION_END: u8 = 255;

// ---------------------------------------------------------------------------
// Message types
// ---------------------------------------------------------------------------

/// Option 53.
#[derive(Clone, Copy, Debug, PartialEq, Eq, Structural)]
pub enum MessageType {
    Discover,
    Offer,
    Request,
    Decline,
    Ack,
    Nak,
    Release,
    Inform,
}

/// The type numbered `code`.
pub open spec fn type_coded(code: u8) -> Option<MessageType> {
    if code == 1 {
        Some(MessageType::Discover)
    } else if code == 2 {
        Some(MessageType::Offer)
    } else if code == 3 {
        Some(MessageType::Request)
    } else if code == 4 {
        Some(MessageType::Decline)
    } else if code == 5 {
        Some(MessageType::Ack)
    } else if code == 6 {
        Some(MessageType::Nak)
    } else if code == 7 {
        Some(MessageType::Release)
    } else if code == 8 {
        Some(MessageType::Inform)
    } else {
        None
    }
}

/// The type that `s` calls by its name or by its number.
pub open spec fn type_called(s: Seq<char>) -> Option<MessageType> {
    if s == "discover"@ || s == "1"@ {
        Some(MessageType::Discover)
    } else if s == "offer"@ || s == "2"@ {
        Some(MessageType::Offer)
    } else if s == "request"@ || s == "3"@ {
        Some(MessageType::Request)
    } else if s == "decline"@ || s == "4"@ {
        Some(MessageType::Decline)
    } else if s == "ack"@ || s == "5"@ {
        Some(MessageType::Ack)
    } else if s == "nak"@ || s == "6"@ {
        Some(MessageType::Nak)
    } else if s == "release"@ || s == "7"@ {
        Some(MessageType::Release)
    } else if s == "inform"@ || s == "8"@ {
        Some(MessageType::Inform)
    } else {
        None
    }
}

impl MessageType {
    /// The number that option 53 carries for this type.
    pub open spec fn number(self) -> u8 {
        match self {
            MessageType::Discover => 1,
            MessageType::Offer => 2,
            MessageType::Request => 3,
            MessageType::Decline => 4,
            MessageType::Ack => 5,
            MessageType::Nak => 6,
            MessageType::Release => 7,
            MessageType::Inform => 8,
        }
    }

    /// The lower-case name.
    pub open spec fn label(self) -> Seq<char> {
        match self {
            MessageType::Discover => "discover"@,
            MessageType::Offer => "offer"@,
            MessageType::Request => "request"@,
            MessageType::Decline => "decline"@,
            MessageType::Ack => "ack"@,
            MessageType::Nak => "nak"@,
            MessageType::Release => "release"@,
            MessageType::Inform => "inform"@,
        }
    }

    /// The number that option 53 carries for this type.
    pub fn code(self) -> (r: u8)
        ensures
            r == self.number(),
    {
        match self {
            MessageType::Discover => 1,
            MessageType::Offer => 2,
            MessageType::Request => 3,
            MessageType::Decline => 4,
            MessageType::Ack => 5,
            MessageType::Nak => 6,
            MessageType::Release => 7,
            MessageType::Inform => 8,
        }
    }

    /// The lower-case name an origin and a Stream line write.
    #[must_use]
    pub fn name(self) -> (r: &'static str)
        ensures
            r@ == self.label(),
    {
        match self {
            MessageType::Discover => "discover",
            MessageType::Offer => "offer",
            MessageType::Request => "request",
            MessageType::Decline => "decline",
            MessageType::Ack => "ack",
            MessageType::Nak => "nak",
            MessageType::Release => "release",
            MessageType::Inform => "inform",
        }
    }

    /// The type called `name`, or numbered `name`.
    #[must_use]
    pub fn parse(name: &str) -> (r: Option<Self>)
        ensures
            r == type_called(name@),
    {
        let s: Vec<char> = chars_of(name);
        let s: &[char] = s.as_slice();
        if spells(s, "discover") || spells(s, "1") {
            Some(MessageType::Discover)
        } else if spells(s, "offer") || spells(s, "2") {
            Some(MessageType::Offer)
        } else if spells(s, "request") || spells(s, "3") {
            Some(MessageType::Request)
        } else if spells(s, "decline") || spells(s, "4") {
            Some(MessageType::Decline)
        } else if spells(s, "ack") || spells(s, "5") {
            Some(MessageType::Ack)
        } else if spells(s, "nak") || spells(s, "6") {
            Some(MessageType::Nak)
        } else if spells(s, "release") || spells(s, "7") {
            Some(MessageType::Release)
        } else if spells(s, "inform") || spells(s, "8") {
            Some(MessageType::Inform)
        } else {
            None
        }
    }

    /// The type numbered `code`.
    #[must_use]
    pub fn from_code(code: u8) -> (r: Option<Self>)
        ensures
            r == type_coded(code),
    {
        match code {
            1 => Some(MessageType::Discover),
            2 => Some(MessageType::Offer),
            3 => Some(MessageType::Request),
            4 => Some(MessageType::Decline),
            5 => Some(MessageType::Ack),
            6 => Some(MessageType::Nak),
            7 => Some(MessageType::Release),
            8 => Some(MessageType::Inform),
            _ => None,
        }
    }
}

/// The names of message types, letter by letter.
pub proof fn lemma_labels()
    ensures
        "discover"@ == seq!['d', 'i', 's', 'c', 'o', 'v', 'e', 'r'],
        "offer"@ == seq!['o', 'f', 'f', 'e', 'r'],
        "request"@ == seq!['r', 'e', 'q', 'u', 'e', 's', 't'],
        "decline"@ == seq!['d', 'e', 'c', 'l', 'i', 'n', 'e'],
        "ack"@ == seq!['a', 'c', 'k'],
        "nak"@ == seq!['n', 'a', 'k'],
        "release"@ == seq!['r', 'e', 'l', 'e', 'a', 's', 'e'],
        "inform"@ == seq!['i', 'n', 'f', 'o', 'r', 'm'],
{
    reveal_strlit("discover");
    reveal_strlit("offer");
    reveal_strlit("request");
    reveal_strlit("decline");
    reveal_strlit("ack");
    reveal_strlit("nak");
    reveal_strlit("release");
    reveal_strlit("inform");
}

/// A message type is found again by its number, by its name, and by its number
/// written in decimal.
pub proof fn law_message_type_found(t: MessageType)
    ensures
        type_coded(t.number()) == Some(t),
        type_called(t.label()) == Some(t),
        type_called(number::decimal(t.number() as nat)) == Some(t),
{
    lemma_labels();
    reveal_strlit("1");
    reveal_strlit("2");
    reveal_strlit("3");
    reveal_strlit("4");
    reveal_strlit("5");
    reveal_strlit("6");
    reveal_strlit("7");
    reveal_strlit("8");
    let n = number::decimal(t.number() as nat);
    assert(n == seq![number::digit(t.number() as int)]);
    assert(n[0] == number::digit(t.number() as int));
    assert("1"@ =~= seq!['1']);
    assert("2"@ =~= seq!['2']);
    assert("3"@ =~= seq!['3']);
    assert("4"@ =~= seq!['4']);
    assert("5"@ =~= seq!['5']);
    assert("6"@ =~= seq!['6']);
    assert("7"@ =~= seq!['7']);
    assert("8"@ =~= seq!['8']);
    assert("discover"@[0] == 'd' && "discover"@[1] == 'i');
    assert("decline"@[0] == 'd' && "decline"@[1] == 'e');
    assert("request"@[2] == 'q' && "release"@[2] == 'l');
    assert("ack"@[0] == 'a' && "nak"@[0] == 'n' && "offer"@[0] == 'o' && "inform"@[0] == 'i');
}

// ---------------------------------------------------------------------------
// Messages
// ---------------------------------------------------------------------------

/// One DHCP message.
#[derive(Clone, Debug, PartialEq, Eq)]
pub struct Message {
    pub op: u8,
    pub htype: u8,
    pub hlen: u8,
    pub hops: u8,
    pub xid: u32,
    pub secs: u16,
    pub flags: u16,
    pub ciaddr: Ipv4Addr,
    pub yiaddr: Ipv4Addr,
    pub siaddr: Ipv4Addr,
    pub giaddr: Ipv4Addr,
    pub chaddr: [u8; 16],
    pub sname: String,
    pub file: String,
    /// Options as they came, code and value, `END` not among them.
    pub options: Vec<(u8, Vec<u8>)>,
}

/// A [`Message`] with its bytes and texts as sequences.
#[verifier::ext_equal]
pub struct MessageView {
    pub op: u8,
    pub htype: u8,
    pub hlen: u8,
    pub hops: u8,
    pub xid: u32,
    pub secs: u16,
    pub flags: u16,
    pub ciaddr: Ipv4Addr,
    pub yiaddr: Ipv4Addr,
    pub siaddr: Ipv4Addr,
    pub giaddr: Ipv4Addr,
    pub chaddr: Seq<u8>,
    pub sname: Seq<char>,
    pub file: Seq<char>,
    pub options: Seq<(u8, Seq<u8>)>,
}

/// Options with their values as sequences.
pub open spec fn options_view(options: Seq<(u8, Vec<u8>)>) -> Seq<(u8, Seq<u8>)> {
    Seq::new(options.len(), |i: int| (options[i].0, options[i].1@))
}

impl View for Message {
    type V = MessageView;

    open spec fn view(&self) -> MessageView {
        MessageView {
            op: self.op,
            htype: self.htype,
            hlen: self.hlen,
            hops: self.hops,
            xid: self.xid,
            secs: self.secs,
            flags: self.flags,
            ciaddr: self.ciaddr,
            yiaddr: self.yiaddr,
            siaddr: self.siaddr,
            giaddr: self.giaddr,
            chaddr: self.chaddr@,
            sname: self.sname@,
            file: self.file@,
            options: options_view(self.options@),
        }
    }
}

/// `options` without those coded `code`.
pub open spec fn without(options: Seq<(u8, Seq<u8>)>, code: u8) -> Seq<(u8, Seq<u8>)>
    decreases options.len(),
{
    if options.len() == 0 {
        seq![]
    } else if options[0].0 == code {
        without(options.skip(1), code)
    } else {
        seq![options[0]] + without(options.skip(1), code)
    }
}

/// `options` with the one coded `code` set to `value`, after all others.
pub open spec fn setting(
    options: Seq<(u8, Seq<u8>)>,
    code: u8,
    value: Seq<u8>,
) -> Seq<(u8, Seq<u8>)> {
    without(options, code).push((code, value))
}

/// The value of the first of `options` that is coded `code`.
pub open spec fn lookup(options: Seq<(u8, Seq<u8>)>, code: u8) -> Option<Seq<u8>>
    decreases options.len(),
{
    if options.len() == 0 {
        None
    } else if options[0].0 == code {
        Some(options[0].1)
    } else {
        lookup(options.skip(1), code)
    }
}

/// None of `options` is coded `code`.
pub open spec fn absent(options: Seq<(u8, Seq<u8>)>, code: u8) -> bool {
    forall|i: int| 0 <= i < options.len() ==> (#[trigger] options[i]).0 != code
}

/// No two of `options` have one code.
pub open spec fn distinct(options: Seq<(u8, Seq<u8>)>) -> bool {
    forall|i: int, j: int|
        0 <= i < j < options.len() ==> (#[trigger] options[i]).0 != (#[trigger] options[j]).0
}

/// The octets of the hardware address that `s` names: up to sixteen
/// hexadecimal numbers with colons or hyphens between them.
pub open spec fn mac_octets(s: Seq<char>) -> Option<Seq<u8>> {
    let parts = text::pieces(s, seq![':', '-']);
    if parts.len() <= 16 && (forall|i: int|
        0 <= i < parts.len() ==> number::number(#[trigger] parts[i], 16, 255) is Some) {
        Some(Seq::new(parts.len(), |i: int| number::number(parts[i], 16, 255)->0 as u8))
    } else {
        None
    }
}

impl MessageView {
    /// A message of `op` for transaction `xid` from the Ethernet client `mac`,
    /// every address zero, no options yet. Of a hardware address over sixteen
    /// bytes the first sixteen are taken.
    pub open spec fn fresh(op: u8, xid: u32, mac: Seq<u8>) -> Self {
        let hlen: int = if mac.len() < 16 {
            mac.len() as int
        } else {
            16
        };
        MessageView {
            op,
            htype: HTYPE_ETHERNET,
            hlen: hlen as u8,
            hops: 0,
            xid,
            secs: 0,
            flags: 0,
            ciaddr: Ipv4Addr::zero(),
            yiaddr: Ipv4Addr::zero(),
            siaddr: Ipv4Addr::zero(),
            giaddr: Ipv4Addr::zero(),
            chaddr: Seq::new(
                16,
                |i: int|
                    if i < hlen {
                        mac[i]
                    } else {
                        0u8
                    },
            ),
            sname: seq![],
            file: seq![],
            options: seq![],
        }
    }

    /// This message with option `code` set to `value`.
    pub open spec fn with(self, code: u8, value: Seq<u8>) -> Self {
        MessageView { options: setting(self.options, code, value), ..self }
    }

    /// Option 53, where it is one of the eight.
    pub open spec fn message_type(self) -> Option<MessageType> {
        match lookup(self.options, OPTION_MESSAGE_TYPE) {
            Some(value) => if value.len() > 0 {
                type_coded(value[0])
            } else {
                None
            },
            None => None,
        }
    }

    /// The bytes of the hardware address, as far as `hlen` says.
    pub open spec fn hardware(self) -> Seq<u8> {
        self.chaddr.take(
            if self.hlen < 16 {
                self.hlen as int
            } else {
                16
            },
        )
    }

    /// The hardware address in pairs with colons.
    pub open spec fn mac(self) -> Seq<char> {
        text::joined(option::pairs(self.hardware()), ":"@)
    }

    /// Option 12 as text.
    pub open spec fn hostname(self) -> Seq<char> {
        match lookup(self.options, OPTION_HOSTNAME) {
            Some(value) => utf8::text_of(value),
            None => seq![],
        }
    }
}

impl Message {
    /// A message of `op` for transaction `xid` from the Ethernet client
    /// `mac`, every address zero, no options yet.
    #[must_use]
    pub fn new(op: u8, xid: u32, mac: &[u8]) -> (r: Self)
        ensures
            r@ == MessageView::fresh(op, xid, mac@),
    {
        let mut chaddr: [u8; 16] = [0; 16];
        let hlen: usize = if mac.len() < 16 {
            mac.len()
        } else {
            16
        };
        let mut i: usize = 0;
        while i < hlen
            invariant
                i <= hlen <= 16,
                hlen <= mac@.len(),
                forall|j: int| 0 <= j < i ==> chaddr@[j] == mac@[j],
                forall|j: int| i <= j < 16 ==> chaddr@[j] == 0,
            decreases hlen - i,
        {
            chaddr[i] = mac[i];
            i += 1;
        }
        let r = Message {
            op,
            htype: HTYPE_ETHERNET,
            hlen: hlen as u8,
            hops: 0,
            xid,
            secs: 0,
            flags: 0,
            ciaddr: Ipv4Addr::unspecified(),
            yiaddr: Ipv4Addr::unspecified(),
            siaddr: Ipv4Addr::unspecified(),
            giaddr: Ipv4Addr::unspecified(),
            chaddr,
            sname: String::new(),
            file: String::new(),
            options: Vec::new(),
        };
        assert(r@ =~= MessageView::fresh(op, xid, mac@));
        r
    }

    /// With option `code` set to `value`, replacing an earlier one.
    #[must_use]
    pub fn with(self, code: u8, value: Vec<u8>) -> (r: Self)
        ensures
            r@ == self@.with(code, value@),
    {
        let mut message = self;
        remove_option(&mut message.options, code);
        let ghost kept = options_view(message.options@);
        message.options.push((code, value));
        assert(options_view(message.options@) =~= kept.push((code, value@)));
        message
    }

    /// Option `code` as it came.
    #[must_use]
    pub fn option(&self, code: u8) -> (r: Option<&[u8]>)
        ensures
            match r {
                Some(value) => lookup(self@.options, code) == Some(value@),
                None => lookup(self@.options, code) is None,
            },
    {
        let ghost all = self@.options;
        let mut i: usize = 0;
        assert(all.skip(0) == all);
        while i < self.options.len()
            invariant
                i <= self.options@.len(),
                all == options_view(self.options@),
                lookup(all, code) == lookup(all.skip(i as int), code),
            decreases self.options.len() - i,
        {
            assert(all.skip(i as int)[0] == (
                self.options@[i as int].0,
                self.options@[i as int].1@,
            ));
            if self.options[i].0 == code {
                return Some(self.options[i].1.as_slice());
            }
            assert(all.skip(i as int).skip(1) == all.skip(i + 1));
            i += 1;
        }
        assert(all.skip(i as int).len() == 0);
        None
    }

    /// Option 53, where it is one of the eight.
    #[must_use]
    pub fn message_type(&self) -> (r: Option<MessageType>)
        ensures
            r == self@.message_type(),
    {
        match self.option(OPTION_MESSAGE_TYPE) {
            Some(value) => if value.len() > 0 {
                MessageType::from_code(value[0])
            } else {
                None
            },
            None => None,
        }
    }

    /// `aa:bb:cc:dd:ee:ff`, the hardware address as far as `hlen` says.
    #[must_use]
    pub fn mac(&self) -> (r: String)
        ensures
            r@ == self@.mac(),
    {
        let end: usize = if self.hlen < 16 {
            self.hlen as usize
        } else {
            16
        };
        let hardware = slice_subrange(self.chaddr.as_slice(), 0, end);
        assert(hardware@ == self@.hardware());
        hex_pairs(hardware, ":")
    }

    /// The hardware address `aa:bb:cc:dd:ee:ff` names.
    #[must_use]
    pub fn parse_mac(text: &str) -> (r: Option<Vec<u8>>)
        ensures
            match r {
                Some(octets) => mac_octets(text@) == Some(octets@),
                None => mac_octets(text@) is None,
            },
    {
        let s: Vec<char> = chars_of(text);
        let marks: [char; 2] = [':', '-'];
        assert(marks@ == seq![':', '-']);
        let parts: Vec<&[char]> = split(s.as_slice(), marks.as_slice());
        let ghost cut = text::pieces(text@, seq![':', '-']);
        assert(text::texts(parts@) == cut);
        if parts.len() > 16 {
            return None;
        }
        let mut out: Vec<u8> = Vec::new();
        let mut i: usize = 0;
        while i < parts.len()
            invariant
                i <= parts.len(),
                text::texts(parts@) == cut,
                cut == text::pieces(text@, seq![':', '-']),
                out@.len() == i,
                forall|j: int| 0 <= j < i ==> number::number(#[trigger] cut[j], 16, 255) is Some,
                forall|j: int| 0 <= j < i ==> out@[j] == number::number(cut[j], 16, 255)->0 as u8,
            decreases parts.len() - i,
        {
            assert(cut[i as int] == parts@[i as int]@);
            match parse_number(parts[i], 16, 255) {
                Some(n) => {
                    out.push(n as u8);
                },
                None => {
                    return None;
                },
            }
            i += 1;
        }
        assert(mac_octets(text@) is Some);
        assert(out@ =~= mac_octets(text@)->0);
        Some(out)
    }

    /// Option 12 as text.
    #[must_use]
    pub fn hostname(&self) -> (r: String)
        ensures
            r@ == self@.hostname(),
    {
        match self.option(OPTION_HOSTNAME) {
            Some(value) => read_text(value),
            None => String::new(),
        }
    }
}

/// The options coded `code` taken out of `options`.
fn remove_option(options: &mut Vec<(u8, Vec<u8>)>, code: u8)
    ensures
        options_view(final(options)@) == without(options_view(old(options)@), code),
{
    let ghost all = options_view(options@);
    let mut i: usize = 0;
    assert(all.take(0) + without(all.skip(0), code) == without(all, code)) by {
        assert(all.skip(0) == all);
    }
    while i < options.len()
        invariant
            i <= options@.len(),
            options_view(options@).take(i as int) + without(
                options_view(options@).skip(i as int),
                code,
            ) == without(all, code),
        decreases options@.len() - i,
    {
        let ghost now = options_view(options@);
        let ghost tail = now.skip(i as int);
        assert(tail[0] == now[i as int]);
        assert(tail.skip(1) == now.skip(i + 1));
        if options[i].0 == code {
            let _ = options.remove(i);
            let ghost fewer = options_view(options@);
            assert(fewer == now.remove(i as int));
            assert(fewer.take(i as int) == now.take(i as int));
            assert(fewer.skip(i as int) == now.skip(i + 1));
        } else {
            assert(now.take(i as int) + (seq![now[i as int]] + without(now.skip(i + 1), code))
                == now.take(i + 1) + without(now.skip(i + 1), code));
            i += 1;
        }
    }
    let ghost now = options_view(options@);
    assert(now.take(i as int) == now);
    assert(without(now.skip(i as int), code) == Seq::<(u8, Seq<u8>)>::empty());
    assert(now + Seq::<(u8, Seq<u8>)>::empty() == now);
}

// ---------------------------------------------------------------------------
// Setting an option
// ---------------------------------------------------------------------------

/// Taking out what is not there changes nothing.
pub proof fn lemma_without_absent(options: Seq<(u8, Seq<u8>)>, code: u8)
    requires
        absent(options, code),
    ensures
        without(options, code) == options,
    decreases options.len(),
{
    if options.len() > 0 {
        assert(options[0].0 != code);
        assert forall|i: int| 0 <= i < options.skip(1).len() implies (#[trigger] options.skip(
            1,
        )[i]).0 != code by {
            assert(options.skip(1)[i] == options[i + 1]);
        }
        lemma_without_absent(options.skip(1), code);
        assert(seq![options[0]] + options.skip(1) == options);
    } else {
        assert(options == Seq::<(u8, Seq<u8>)>::empty());
    }
}

/// Taking out one code takes out nothing else.
proof fn lemma_without(options: Seq<(u8, Seq<u8>)>, code: u8, other: u8)
    ensures
        absent(without(options, code), code),
        absent(options, other) ==> absent(without(options, code), other),
        other != code ==> lookup(without(options, code), other) == lookup(options, other),
        distinct(options) ==> distinct(without(options, code)),
    decreases options.len(),
{
    if options.len() > 0 {
        let first = options[0];
        let tail = options.skip(1);
        lemma_without(tail, code, other);
        assert forall|i: int| 0 <= i < tail.len() implies tail[i] == options[i + 1] by {}
        if absent(options, other) {
            assert(absent(tail, other));
        }
        if distinct(options) {
            assert(distinct(tail));
            assert(absent(tail, first.0)) by {
                assert forall|i: int| 0 <= i < tail.len() implies (#[trigger] tail[i]).0
                    != first.0 by {
                    assert(options[0].0 != options[i + 1].0);
                }
            }
            lemma_without(tail, code, first.0);
        }
        if first.0 != code {
            let kept = without(tail, code);
            let all = seq![first] + kept;
            assert(all[0] == first);
            assert(all.skip(1) == kept);
            assert forall|i: int| 1 <= i < all.len() implies all[i] == kept[i - 1] by {}
        }
    }
}

/// What a last option adds to a lookup.
proof fn lemma_lookup_push(options: Seq<(u8, Seq<u8>)>, last: (u8, Seq<u8>), code: u8)
    ensures
        lookup(options.push(last), code) == (if lookup(options, code) is Some {
            lookup(options, code)
        } else if last.0 == code {
            Some(last.1)
        } else {
            None
        }),
        absent(options, code) ==> lookup(options, code) is None,
    decreases options.len(),
{
    let all = options.push(last);
    if options.len() == 0 {
        assert(all[0] == last);
        assert(all.skip(1).len() == 0);
        assert(lookup(all.skip(1), code) is None);
    } else {
        assert(all[0] == options[0]);
        assert(all.skip(1) == options.skip(1).push(last));
        assert(absent(options, code) ==> absent(options.skip(1), code));
        lemma_lookup_push(options.skip(1), last, code);
    }
}

/// Setting an option sets it and no other: it is found with its value, once and
/// last, and every other option is found as before. Where no two options had
/// one code, no two have one.
pub proof fn law_with_sets(m: MessageView, code: u8, value: Seq<u8>, other: u8)
    ensures
        lookup(m.with(code, value).options, code) == Some(value),
        other != code ==> lookup(m.with(code, value).options, other) == lookup(m.options, other),
        m.with(code, value).options.last() == (code, value),
        absent(m.with(code, value).options.drop_last(), code),
        distinct(m.options) ==> distinct(m.with(code, value).options),
{
    let kept = without(m.options, code);
    let all = kept.push((code, value));
    lemma_without(m.options, code, other);
    lemma_lookup_push(kept, (code, value), code);
    lemma_lookup_push(kept, (code, value), other);
    assert(all.drop_last() == kept);
    if distinct(m.options) {
        assert forall|i: int, j: int| 0 <= i < j < all.len() implies (#[trigger] all[i]).0 != (
        #[trigger] all[j]).0 by {
            assert(all[i] == kept[i]);
            if j < kept.len() {
                assert(all[j] == kept[j]);
            }
        }
    }
}

/// Setting an option again leaves only the second value.
pub proof fn law_with_replaces(m: MessageView, code: u8, first: Seq<u8>, second: Seq<u8>)
    ensures
        m.with(code, first).with(code, second) == m.with(code, second),
{
    let kept = without(m.options, code);
    lemma_without(m.options, code, code);
    lemma_without_append(kept, (code, first), code);
    lemma_without_absent(kept, code);
}

/// Taking out a code of a last option with that code leaves the others.
proof fn lemma_without_append(options: Seq<(u8, Seq<u8>)>, last: (u8, Seq<u8>), code: u8)
    requires
        last.0 == code,
    ensures
        without(options.push(last), code) == without(options, code),
    decreases options.len(),
{
    let all = options.push(last);
    if options.len() == 0 {
        assert(all.skip(1).len() == 0);
        assert(without(all.skip(1), code) == Seq::<(u8, Seq<u8>)>::empty());
        assert(without(options, code) == Seq::<(u8, Seq<u8>)>::empty());
    } else {
        assert(all[0] == options[0]);
        assert(all.skip(1) == options.skip(1).push(last));
        lemma_without_append(options.skip(1), last, code);
    }
}

}
