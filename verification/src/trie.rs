use vstd::prelude::*;
use ipnet::{IpNet, Ipv4Net, Ipv6Net};
use ipnet_trie::IpnetTrie;

use crate::prefix::{
    BlockKey, IpPrefix, family_width, host_prefix, host_prefix_spec, parse_ipnet, spec_parse_ipnet,
};
use vstd::arithmetic::power2::pow2;
use vstd::utf8::{encode_utf8, is_char_boundary};

verus! {

#[verifier::external_type_specification]
#[verifier::external_body]
#[verifier::reject_recursive_types(T)]
pub struct ExIpnetTrie<T>(IpnetTrie<T>);

/// The table type that holds the networks (with no value beside them).
pub type UnitTrie = IpnetTrie<()>;

/// What an `IpnetTrie<()>` holds: for each network key, the network as last
/// inserted under that key.
pub uninterp spec fn trie_entries(t: IpnetTrie<()>) -> Map<BlockKey, IpPrefix>;

/// Every entry is filed under its own key and is a well-formed network.
pub open spec fn entries_wf(m: Map<BlockKey, IpPrefix>) -> bool {
    forall|k: BlockKey| #[trigger] m.dom().contains(k) ==> m[k].wf() && m[k].key() == k
}

/// `r` is the answer of a longest-prefix match of `q` in `m`: `None` when no
/// stored network contains `q`, else a stored network that contains `q` and
/// is at least as long as every other stored network that contains `q`.
pub open spec fn is_longest_match(m: Map<BlockKey, IpPrefix>, q: IpPrefix, r: Option<IpPrefix>) -> bool {
    match r {
        None => forall|k: BlockKey| #[trigger] m.dom().contains(k) ==> !m[k].covers(q),
        Some(p) => {
            &&& m.dom().contains(p.key())
            &&& m[p.key()] == p
            &&& p.covers(q)
            &&& forall|k: BlockKey| #[trigger] m.dom().contains(k) && m[k].covers(q) ==> m[k].len <= p.len
        },
    }
}

/// One of the last four bytes of the text's UTF-8 encoding is a `/`.
pub open spec fn tail_has_slash(s: Seq<char>) -> bool {
    let b = encode_utf8(s);
    exists|i: int| b.len() - 4 <= i < b.len() && b[i] == 0x2Fu8
}

/// The text is at least four bytes long and its last four bytes start at a
/// character boundary, so that they can be cut off as a `&str`.
pub open spec fn lookup_accepts(s: Seq<char>) -> bool {
    &&& encode_utf8(s).len() >= 4
    &&& is_char_boundary(encode_utf8(s), encode_utf8(s).len() - 4)
}

/// The network that a lookup of `s` asks for: `s` read as a network when its
/// last four bytes hold a `/`, else the single-address network of `addr`,
/// the reading of `s` as an IP address (`None` when it is none).
pub open spec fn query_of(s: Seq<char>, addr: Option<(bool, u128)>) -> Option<IpPrefix> {
    if tail_has_slash(s) {
        spec_parse_ipnet(s)
    } else {
        match addr {
            Some((v6, a)) => Some(host_prefix_spec(v6, a)),
            None => None,
        }
    }
}

/// An IPv4 address reading fits 32 bits.
pub open spec fn addr_reading_wf(addr: Option<(bool, u128)>) -> bool {
    addr matches Some((v6, a)) ==> (!v6 ==> a < 0x1_0000_0000)
}

/// The answer of a lookup of `s` (with address reading `addr`) in `m`.
pub open spec fn is_lookup_answer(
    m: Map<BlockKey, IpPrefix>,
    s: Seq<char>,
    addr: Option<(bool, u128)>,
    r: Option<IpPrefix>,
) -> bool {
    match query_of(s, addr) {
        None => r is None,
        Some(q) => is_longest_match(m, q, r),
    }
}

/// `IpnetTrie::new`. Trusted: the new table is empty.
#[verifier::external_body]
pub(crate) fn trie_new() -> (table: UnitTrie)
    ensures
        trie_entries(table).dom() == Set::<BlockKey>::empty(),
{
    IpnetTrie::new()
}

/// `IpnetTrie::insert`. Trusted: the entry under the network's key becomes
/// the network (an entry under the same key is replaced), the others stay;
/// the replaced value is dropped.
#[verifier::external_body]
pub(crate) fn trie_insert(t: &mut IpnetTrie<()>, p: IpPrefix)
    requires
        p.wf(),
    ensures
        trie_entries(*final(t)) == trie_entries(*old(t)).insert(p.key(), p),
{
    let net = if p.v6 {
        IpNet::V6(Ipv6Net::new(p.addr.into(), p.len).unwrap())
    } else {
        IpNet::V4(Ipv4Net::new((p.addr as u32).into(), p.len).unwrap())
    };
    t.insert(net, ());
}

/// `IpnetTrie::longest_match`. Trusted: the answer is a longest-prefix
/// match of `q` among the entries, the network as it was inserted.
#[verifier::external_body]
fn trie_longest_match(t: &IpnetTrie<()>, q: IpPrefix) -> (r: Option<IpPrefix>)
    requires
        q.wf(),
    ensures
        is_longest_match(trie_entries(*t), q, r),
{
    let net = if q.v6 {
        IpNet::V6(Ipv6Net::new(q.addr.into(), q.len).unwrap())
    } else {
        IpNet::V4(Ipv4Net::new((q.addr as u32).into(), q.len).unwrap())
    };
    match t.longest_match(&net) {
        Some((IpNet::V4(n), _)) => Some(IpPrefix { v6: false, addr: u32::from(n.addr()) as u128, len: n.prefix_len() }),
        Some((IpNet::V6(n), _)) => Some(IpPrefix { v6: true, addr: u128::from(n.addr()), len: n.prefix_len() }),
        None => None,
    }
}

/// The keys of a family's networks (`false` for IPv4, `true` for IPv6).
pub open spec fn family_keys(m: Map<BlockKey, IpPrefix>, v6: bool) -> Set<BlockKey> {
    m.dom().filter(|k: BlockKey| k.0 == v6)
}

/// `IpnetTrie::len`. Trusted: the number of stored IPv4 networks, then of
/// stored IPv6 networks.
#[verifier::external_body]
fn trie_len(t: &IpnetTrie<()>) -> (r: (usize, usize))
    ensures
        r.0 == family_keys(trie_entries(*t), false).len(),
        r.1 == family_keys(trie_entries(*t), true).len(),
{
    t.len()
}

/// A longest-prefix match has one answer: in a table whose entries are filed
/// under their own keys, two answers for the same query are the same.
pub proof fn lemma_longest_match_unique(
    m: Map<BlockKey, IpPrefix>,
    q: IpPrefix,
    r1: Option<IpPrefix>,
    r2: Option<IpPrefix>,
)
    requires
        entries_wf(m),
        is_longest_match(m, q, r1),
        is_longest_match(m, q, r2),
    ensures
        r1 == r2,
{
    match (r1, r2) {
        (Some(p1), Some(p2)) => {
            let k1 = p1.key();
            let k2 = p2.key();
            assert(m.dom().contains(k1) && m[k1].covers(q));
            assert(m.dom().contains(k2) && m[k2].covers(q));
            assert(p1.len == p2.len);
            assert(k1 == k2);
        },
        (Some(p1), None) => {
            assert(m.dom().contains(p1.key()));
        },
        (None, Some(p2)) => {
            assert(m.dom().contains(p2.key()));
        },
        (None, None) => {},
    }
}

/// A stored network that contains the query is never missed: the answer is
/// a network at least as long as it.
pub proof fn lemma_longest_match_finds_covering(
    m: Map<BlockKey, IpPrefix>,
    q: IpPrefix,
    k: BlockKey,
    r: Option<IpPrefix>,
)
    requires
        is_longest_match(m, q, r),
        m.dom().contains(k),
        m[k].covers(q),
    ensures
        r matches Some(p) && m[k].len <= p.len,
{
}

/// A text whose last four bytes hold a `/` asks for the whole network it
/// parses to. The answer is a stored network of the same family, no longer
/// than that network and holding all its addresses (its address lies in the
/// answer's block), and no other stored network that holds the whole
/// network is longer; there is no answer only when no stored network holds
/// it.
pub proof fn lemma_network_query_answer(
    m: Map<BlockKey, IpPrefix>,
    s: Seq<char>,
    addr: Option<(bool, u128)>,
    q: IpPrefix,
    r: Option<IpPrefix>,
)
    requires
        tail_has_slash(s),
        spec_parse_ipnet(s) == Some(q),
        is_lookup_answer(m, s, addr, r),
    ensures
        r matches Some(p) ==> {
            &&& m.dom().contains(p.key())
            &&& m[p.key()] == p
            &&& p.v6 == q.v6
            &&& p.len <= q.len
            &&& q.addr as int / pow2((family_width(q.v6) - p.len) as nat) as int == p.addr as int / pow2(
                (family_width(q.v6) - p.len) as nat,
            ) as int
            &&& forall|k: BlockKey|
                #[trigger] m.dom().contains(k) && m[k].v6 == q.v6 && m[k].len <= q.len && q.addr as int
                    / pow2((family_width(q.v6) - m[k].len) as nat) as int == m[k].addr as int / pow2(
                    (family_width(q.v6) - m[k].len) as nat,
                ) as int ==> m[k].len <= p.len
        },
        r is None ==> forall|k: BlockKey|
            #[trigger] m.dom().contains(k) ==> !(m[k].v6 == q.v6 && m[k].len <= q.len && q.addr as int
                / pow2((family_width(q.v6) - m[k].len) as nat) as int == m[k].addr as int / pow2(
                (family_width(q.v6) - m[k].len) as nat,
            ) as int),
{
}

/// A text without a `/` in its last four bytes asks for the address it
/// reads as. The answer is a stored network of the address's family whose
/// block holds the address, and no other stored network holding the
/// address is longer; there is no answer only when no stored network holds
/// the address.
pub proof fn lemma_address_query_answer(
    m: Map<BlockKey, IpPrefix>,
    s: Seq<char>,
    v6: bool,
    a: u128,
    r: Option<IpPrefix>,
)
    requires
        entries_wf(m),
        !tail_has_slash(s),
        is_lookup_answer(m, s, Some((v6, a)), r),
    ensures
        r matches Some(p) ==> {
            &&& m.dom().contains(p.key())
            &&& m[p.key()] == p
            &&& p.v6 == v6
            &&& a as int / pow2((family_width(v6) - p.len) as nat) as int == p.addr as int / pow2(
                (family_width(v6) - p.len) as nat,
            ) as int
            &&& forall|k: BlockKey|
                #[trigger] m.dom().contains(k) && m[k].v6 == v6 && a as int / pow2(
                    (family_width(v6) - m[k].len) as nat,
                ) as int == m[k].addr as int / pow2((family_width(v6) - m[k].len) as nat) as int
                    ==> m[k].len <= p.len
        },
        r is None ==> forall|k: BlockKey|
            #[trigger] m.dom().contains(k) ==> !(m[k].v6 == v6 && a as int / pow2(
                (family_width(v6) - m[k].len) as nat,
            ) as int == m[k].addr as int / pow2((family_width(v6) - m[k].len) as nat) as int),
{
    let h = host_prefix_spec(v6, a);
    assert(h.addr == a && h.len == family_width(v6) && h.v6 == v6);
    assert forall|k: BlockKey| #[trigger] m.dom().contains(k) implies (m[k].covers(h) <==> (m[k].v6 == v6
        && a as int / pow2((family_width(v6) - m[k].len) as nat) as int == m[k].addr as int / pow2(
        (family_width(v6) - m[k].len) as nat,
    ) as int)) by {
        assert(m[k].wf());
    }
}

/// A text that reads as neither a network nor an address finds nothing.
pub proof fn lemma_unreadable_query_answer(
    m: Map<BlockKey, IpPrefix>,
    s: Seq<char>,
    addr: Option<(bool, u128)>,
    r: Option<IpPrefix>,
)
    requires
        if tail_has_slash(s) {
            spec_parse_ipnet(s) is None
        } else {
            addr is None
        },
        is_lookup_answer(m, s, addr, r),
    ensures
        r is None,
{
}

/// For an ASCII text, one of its last four bytes is a `/` exactly when one
/// of its last four characters is.
pub proof fn lemma_tail_has_slash_ascii(s: Seq<char>)
    requires
        vstd::utf8::is_ascii_chars(s),
        s.len() >= 4,
    ensures
        tail_has_slash(s) <==> exists|i: int| s.len() - 4 <= i < s.len() && #[trigger] s[i] == '/',
{
    vstd::utf8::is_ascii_chars_encode_utf8(s);
    let b = encode_utf8(s);
    if tail_has_slash(s) {
        let i = choose|i: int| b.len() - 4 <= i < b.len() && b[i] == 0x2Fu8;
        assert(s[i] as u8 == b[i]);
        assert(s[i] == '/');
    }
    if exists|i: int| s.len() - 4 <= i < s.len() && #[trigger] s[i] == '/' {
        let i = choose|i: int| s.len() - 4 <= i < s.len() && #[trigger] s[i] == '/';
        assert(s[i] as u8 == b[i]);
    }
}

/// Every network contains itself, so a query for a stored
/// network finds that network or a longer one.
pub proof fn lemma_covers_itself(p: IpPrefix)
    ensures
        p.covers(p),
{
}

/// A table of IP networks answering longest-prefix matches.
pub struct LookupTrie {
    pub(crate) trie: IpnetTrie<()>,
}

impl View for LookupTrie {
    type V = Map<BlockKey, IpPrefix>;

    closed spec fn view(&self) -> Map<BlockKey, IpPrefix> {
        trie_entries(self.trie)
    }
}

impl LookupTrie {
    #[verifier::type_invariant]
    pub(crate) open spec fn inv(self) -> bool {
        entries_wf(trie_entries(self.trie))
    }

    /// The view of a table is what its `IpnetTrie` holds.
    pub(crate) proof fn lemma_view(&self)
        ensures
            self@ == trie_entries(self.trie),
    {
    }

    /// Wraps a table whose entries are filed under their own keys.
    pub(crate) fn new(trie: UnitTrie) -> (t: LookupTrie)
        requires
            entries_wf(trie_entries(trie)),
        ensures
            t@ == trie_entries(trie),
    {
        LookupTrie { trie }
    }

    /// The number of stored IPv4 networks, then of stored IPv6 networks.
    pub fn len(&self) -> (r: (usize, usize))
        ensures
            r.0 == family_keys(self@, false).len(),
            r.1 == family_keys(self@, true).len(),
    {
        trie_len(&self.trie)
    }

    /// Looks up an address or a network. A text whose last four bytes hold a
    /// `/` is read as a network `addr/len`; any other text stands for the
    /// address `addr`, the caller's reading of it as an IP address (`None`
    /// when it is not one). The answer is the longest stored network that
    /// contains it, or `None`.
    pub fn lookup(&self, ip_or_pfx: &str, addr: Option<(bool, u128)>) -> (r: Option<IpPrefix>)
        requires
            lookup_accepts(ip_or_pfx@),
            addr_reading_wf(addr),
        ensures
            entries_wf(self@),
            is_lookup_answer(self@, ip_or_pfx@, addr, r),
    {
        proof {
            use_type_invariant(self);
        }
        let bytes = ip_or_pfx.as_bytes();
        let n = bytes.len();
        let has_slash = bytes[n - 4] == 0x2Fu8 || bytes[n - 3] == 0x2Fu8 || bytes[n - 2] == 0x2Fu8
            || bytes[n - 1] == 0x2Fu8;
        assert(has_slash == tail_has_slash(ip_or_pfx@)) by {
            let b = encode_utf8(ip_or_pfx@);
            assert(b == bytes@);
            if tail_has_slash(ip_or_pfx@) {
                let i = choose|i: int| b.len() - 4 <= i < b.len() && b[i] == 0x2Fu8;
                assert(i == n - 4 || i == n - 3 || i == n - 2 || i == n - 1);
            }
        }
        let query = if has_slash {
            parse_ipnet(ip_or_pfx)
        } else {
            match addr {
                Some((v6, a)) => Some(host_prefix(v6, a)),
                None => None,
            }
        };
        match query {
            Some(q) => trie_longest_match(&self.trie, q),
            None => None,
        }
    }
}

} // verus!
