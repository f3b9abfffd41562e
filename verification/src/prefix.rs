use vstd::prelude::*;
use ipnet::{IpNet, Ipv4Net, Ipv6Net};

verus! {

/// An IP network: the address family, the address (an IPv4 address sits in
/// the low 32 bits) and the prefix length. The address may carry host bits
/// below the prefix length, as a parsed `a.b.c.d/len` does.
#[derive(Clone, Copy, Debug, PartialEq, Eq)]
pub struct IpPrefix {
    pub v6: bool,
    pub addr: u128,
    pub len: u8,
}

/// Key of the address block of `2^(width - len)` addresses that holds an
/// address: the family, the block's index and the prefix length.
pub type BlockKey = (bool, int, int);

impl IpPrefix {
    /// Number of bits of an address of this family.
    pub open spec fn width(self) -> nat {
        if self.v6 { 128 } else { 32 }
    }

    /// The prefix length fits the family and an IPv4 address fits 32 bits.
    pub open spec fn wf(self) -> bool {
        &&& self.len <= self.width()
        &&& !self.v6 ==> self.addr < 0x1_0000_0000
    }

    /// Index of the block of `2^(width - len)` addresses that holds the address.
    pub open spec fn block_of(self, len: int) -> int {
        self.addr as int / vstd::arithmetic::power2::pow2((self.width() - len) as nat) as int
    }

    /// What identifies the network: two prefixes with the same key cover the
    /// same addresses, whatever host bits they carry.
    pub open spec fn key(self) -> BlockKey {
        (self.v6, self.block_of(self.len as int), self.len as int)
    }

    /// `self` contains `other`: same family, `self` is no longer, and both
    /// lie in the same block of `self`'s size.
    pub open spec fn covers(self, other: IpPrefix) -> bool {
        &&& self.v6 == other.v6
        &&& self.len <= other.len
        &&& other.block_of(self.len as int) == self.block_of(self.len as int)
    }
}

/// The network made of a single address: prefix length 32 for IPv4, 128 for IPv6.
pub open spec fn host_prefix_spec(v6: bool, addr: u128) -> IpPrefix {
    IpPrefix { v6, addr, len: if v6 { 128 } else { 32 } }
}

/// Bits in an address of a family (`true` for IPv6).
pub open spec fn family_width(v6: bool) -> nat {
    if v6 { 128 } else { 32 }
}

/// The single-address network of an address is that address at the
/// family's full length.
pub proof fn lemma_host_prefix(v6: bool, addr: u128)
    ensures
        host_prefix_spec(v6, addr).v6 == v6,
        host_prefix_spec(v6, addr).addr == addr,
        host_prefix_spec(v6, addr).len == family_width(v6),
{
}

/// The single-address network of an address, as `IpNet::from(IpAddr)` makes it.
pub fn host_prefix(v6: bool, addr: u128) -> (p: IpPrefix)
    ensures
        p == host_prefix_spec(v6, addr),
{
    IpPrefix { v6, addr, len: if v6 { 128 } else { 32 } }
}

/// What `<ipnet::IpNet as FromStr>::from_str` makes of a string (`None` on a
/// parse error).
pub uninterp spec fn spec_parse_ipnet(s: Seq<char>) -> Option<IpPrefix>;

/// Parses `addr/len` with `<ipnet::IpNet as FromStr>::from_str`. Trusted: the
/// result is what `spec_parse_ipnet` names, and a parsed network keeps its
/// address and a prefix length that `Ipv4Net::new`/`Ipv6Net::new` accepted
/// (at most 32, resp. 128); which strings parse is left to the name.
#[verifier::external_body]
pub(crate) fn parse_ipnet(s: &str) -> (r: Option<IpPrefix>)
    ensures
        r == spec_parse_ipnet(s@),
        r matches Some(p) ==> p.wf(),
{
    match s.parse::<IpNet>() {
        Ok(IpNet::V4(n)) => Some(IpPrefix { v6: false, addr: u32::from(n.addr()) as u128, len: n.prefix_len() }),
        Ok(IpNet::V6(n)) => Some(IpPrefix { v6: true, addr: u128::from(n.addr()), len: n.prefix_len() }),
        Err(_) => None,
    }
}

/// What `<ipnet::IpNet as Display>::fmt` writes for a network (`addr/len`,
/// the address as the standard library writes it, host bits included).
pub uninterp spec fn spec_ipnet_text(p: IpPrefix) -> Seq<char>;

/// Writes a network with `ipnet::IpNet`'s `Display` (through `to_string`).
/// Trusted: the text is what `spec_ipnet_text` names.
#[verifier::external_body]
pub(crate) fn ipnet_text(p: IpPrefix) -> (s: String)
    requires
        p.wf(),
    ensures
        s@ == spec_ipnet_text(p),
{
    let net = if p.v6 {
        IpNet::V6(Ipv6Net::new(p.addr.into(), p.len).unwrap())
    } else {
        IpNet::V4(Ipv4Net::new((p.addr as u32).into(), p.len).unwrap())
    };
    net.to_string()
}

} // verus!
