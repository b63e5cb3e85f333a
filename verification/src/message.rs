//! DNS messages in wire format and the fields of their header.

use vstd::prelude::*;
use crate::name::copy_octets;

verus! {

/// The length of the header section, in octets.
pub const HEADER_LEN: usize = 12;

/// The response code of a reply without error.
pub const RCODE_NOERROR: u8 = 0;

/// The response code for a request that could not be read.
pub const RCODE_FORMERR: u8 = 1;

/// The response code for a resolution that failed.
pub const RCODE_SERVFAIL: u8 = 2;

/// The response code for a name that does not exist.
pub const RCODE_NXDOMAIN: u8 = 3;

/// The 16-bit number that two octets hold in network byte order.
pub open spec fn be16(octets: Seq<u8>, at: int) -> u16 {
    (octets[at] * 256 + octets[at + 1]) as u16
}

/// The two octets that hold a 16-bit number in network byte order.
pub open spec fn be16_octets(value: u16) -> Seq<u8> {
    seq![(value / 256) as u8, (value % 256) as u8]
}

/// The transaction id of a message.
pub open spec fn header_id(octets: Seq<u8>) -> u16 {
    be16(octets, 0)
}

/// The response code of a message: the low four bits of its fourth octet.
pub open spec fn header_rcode(octets: Seq<u8>) -> u8 {
    octets[3] % 16
}

/// The number of questions that the header announces.
pub open spec fn header_qdcount(octets: Seq<u8>) -> u16 {
    be16(octets, 4)
}

/// The number of answer records that the header announces.
pub open spec fn header_ancount(octets: Seq<u8>) -> u16 {
    be16(octets, 6)
}

/// A DNS message in wire format. It holds at least a whole header; the
/// sections behind the header are read when they are asked for.
pub struct Message {
    octets: Vec<u8>,
}

impl View for Message {
    type V = Seq<u8>;

    closed spec fn view(&self) -> Seq<u8> {
        self.octets@
    }
}

impl DeepView for Message {
    type V = Seq<u8>;

    open spec fn deep_view(&self) -> Seq<u8> {
        self@
    }
}

/// Reads a 16-bit number in network byte order.
pub fn read_be16(octets: &Vec<u8>, at: usize) -> (r: u16)
    requires
        at + 1 < octets@.len(),
    ensures
        r == be16(octets@, at as int),
{
    let len: usize = octets.len();
    assert(at + 1 < len);
    let high: u16 = octets[at] as u16;
    let low: u16 = octets[at + 1] as u16;
    high * 256 + low
}

impl Message {
    /// What holds of every message: the header is whole.
    #[verifier::type_invariant]
    pub open spec fn wf(&self) -> bool {
        self@.len() >= 12
    }

    /// Takes the octets of a datagram as a message. Fails when they are too
    /// few to hold a header.
    pub fn from_octets(octets: Vec<u8>) -> (r: Option<Message>)
        ensures
            r is Some <==> octets@.len() >= 12,
            r matches Some(m) ==> m@ == octets@ && m.wf(),
    {
        if octets.len() < HEADER_LEN {
            None
        } else {
            Some(Message { octets })
        }
    }

    /// The octets of the message.
    pub fn as_octets(&self) -> (r: &Vec<u8>)
        ensures
            r@ == self@,
            r@.len() >= 12,
    {
        proof {
            use_type_invariant(self);
        }
        &self.octets
    }

    /// Gives up the message for its octets.
    pub fn into_octets(self) -> (r: Vec<u8>)
        ensures
            r@ == self@,
            r@.len() >= 12,
    {
        proof {
            use_type_invariant(&self);
        }
        self.octets
    }

    /// A copy of the message.
    pub fn duplicate(&self) -> (r: Message)
        ensures
            r@ == self@,
            r.wf(),
    {
        proof {
            use_type_invariant(self);
        }
        Message { octets: copy_octets(&self.octets) }
    }

    /// The transaction id.
    pub fn id(&self) -> (r: u16)
        ensures
            r == header_id(self@),
    {
        proof {
            use_type_invariant(self);
        }
        read_be16(&self.octets, 0)
    }

    /// The response code.
    pub fn rcode(&self) -> (r: u8)
        ensures
            r == header_rcode(self@),
            r < 16,
    {
        proof {
            use_type_invariant(self);
        }
        self.octets[3] % 16
    }

    /// The number of questions that the header announces.
    pub fn qdcount(&self) -> (r: u16)
        ensures
            r == header_qdcount(self@),
    {
        proof {
            use_type_invariant(self);
        }
        read_be16(&self.octets, 4)
    }

    /// The number of answer records that the header announces.
    pub fn ancount(&self) -> (r: u16)
        ensures
            r == header_ancount(self@),
    {
        proof {
            use_type_invariant(self);
        }
        read_be16(&self.octets, 6)
    }
}

} // verus!
