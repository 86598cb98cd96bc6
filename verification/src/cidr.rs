//! LAN CIDR allow-list: a small IPv4 CIDR matcher.
//!
//! The gateway listens on a LAN interface (Tailscale / 192.168.x /
//! SD-WAN). An optional list of CIDRs scopes which source networks may
//! talk to the daemon at all; when the list is empty every reachable peer
//! is let through (token gating still applies). Nothing is hard-coded:
//! operators list the networks they use (`100.64.0.0/10` for Tailscale
//! CGNAT, `192.168.10.0/24`, ...), one flag each or comma-separated.
use vstd::prelude::*;

use crate::addr::{
    ipv4_is_loopback, ipv4_text, ipv6_is_loopback, ipv6_mapped_ipv4, lemma_ipv4_text_roundtrip,
    parse_ipv4_range, parse_ipv4_text, push_ipv4_text, string_of, IpAddr, Ipv4Addr,
};
use crate::text::{
    all_digits, chars_of, decimal_text, decimal_value, find_char_in, free_of,
    is_digit, is_white_space, lemma_decimal_push, lemma_decimal_text, lemma_find_char_at, lemma_split_len,
    lemma_split_push_sep, push_decimal, split_on, split_once, trim, trim_range,
};

verus! {

/// A parsed IPv4 CIDR (`a.b.c.d/prefix`): the network number and the
/// number of leading bits that a member address shares with it.
#[derive(Clone, Copy, Debug, PartialEq, Eq, Structural)]
pub struct Cidr4 {
    pub network: u32,
    pub prefix: u8,
}

/// The netmask of a prefix length: `prefix` one bits followed by zeros.
pub open spec fn prefix_mask(prefix: u8) -> u32 {
    if prefix == 0 {
        0
    } else {
        (0xffff_ffffu32 << ((32 - prefix) as u32)) as u32
    }
}

/// The CIDR with prefix `prefix` that holds the address `addr`.
pub open spec fn cidr_of(addr: u32, prefix: u8) -> Cidr4 {
    Cidr4 { network: addr & prefix_mask(prefix), prefix }
}

impl Cidr4 {
    /// The prefix length is one that an IPv4 netmask can have.
    pub open spec fn wf(self) -> bool {
        self.prefix <= 32
    }

    /// The network number has no bits outside the netmask (every parsed
    /// CIDR is canonical in this sense).
    pub open spec fn canonical(self) -> bool {
        self.network & prefix_mask(self.prefix) == self.network
    }

    /// The address `ip` lies in this network.
    pub open spec fn has(self, ip: u32) -> bool {
        ip & prefix_mask(self.prefix) == self.network
    }
}

// ---------------------------------------------------------------------
// Text
// ---------------------------------------------------------------------

/// The `u8` that the text `s` spells, with the grammar of `u8::from_str`:
/// an optional `+`, then one or more ASCII digits, with a value below 256.
pub open spec fn parse_u8_text(s: Seq<char>) -> Option<u8> {
    let d = if s.len() > 0 && s[0] == '+' {
        s.drop_first()
    } else {
        s
    };
    if d.len() > 0 && all_digits(d) && decimal_value(d) <= 255 {
        Some(decimal_value(d) as u8)
    } else {
        None
    }
}

/// The CIDR that the text `s` spells: after trimming white space, the
/// part before the first `/` (trimmed again) is a dotted quad and the part
/// after it a `u8` no greater than 32. The network keeps only the
/// address's leading `prefix` bits.
pub open spec fn parse_cidr_text(s: Seq<char>) -> Option<Cidr4> {
    match split_once(trim(s), '/') {
        None => None,
        Some((ip_part, prefix_part)) => match parse_u8_text(prefix_part) {
            None => None,
            Some(prefix) => if prefix > 32 {
                None
            } else {
                match parse_ipv4_text(trim(ip_part)) {
                    None => None,
                    Some(addr) => Some(cidr_of(addr, prefix)),
                }
            },
        },
    }
}

/// The text of a CIDR, `a.b.c.d/prefix`.
pub open spec fn cidr_text(c: Cidr4) -> Seq<char> {
    ipv4_text(c.network) + seq!['/'] + decimal_text(c.prefix as nat)
}

/// Parses `cs[lo..hi]` as a `u8`.
fn parse_u8_range(cs: &Vec<char>, lo: usize, hi: usize) -> (r: Option<u8>)
    requires
        lo <= hi <= cs@.len(),
    ensures
        r == parse_u8_text(cs@.subrange(lo as int, hi as int)),
{
    let ghost s = cs@.subrange(lo as int, hi as int);
    let mut a = lo;
    if a < hi && cs[a] == '+' {
        a = a + 1;
    }
    let ghost d = cs@.subrange(a as int, hi as int);
    assert(d == if s.len() > 0 && s[0] == '+' {
        s.drop_first()
    } else {
        s
    });
    if a == hi {
        return None;
    }
    let mut k = a;
    let mut v: u32 = 0;
    let mut over = false;
    while k < hi
        invariant
            a <= k <= hi <= cs@.len(),
            d == cs@.subrange(a as int, hi as int),
            s == cs@.subrange(lo as int, hi as int),
            d == if s.len() > 0 && s[0] == '+' {
                s.drop_first()
            } else {
                s
            },
            all_digits(d.take(k - a)),
            !over ==> v == decimal_value(d.take(k - a)) && v <= 255,
            over ==> decimal_value(d.take(k - a)) > 255,
        decreases hi - k,
    {
        let c = cs[k];
        let u = c as u32;
        if u < 48 || u > 57 {
            assert(!is_digit(d[k - a]));
            assert(!all_digits(d));
            assert(parse_u8_text(s) is None);
            return None;
        }
        proof {
            assert(d.take(k + 1 - a) =~= d.take(k - a).push(c));
            lemma_decimal_push(d.take(k - a), c);
        }
        if !over {
            v = v * 10 + (u - 48);
            if v > 255 {
                over = true;
            }
        }
        k = k + 1;
    }
    assert(d.take(hi - a) =~= d);
    if over {
        None
    } else {
        Some(v as u8)
    }
}

/// The netmask of `prefix`.
fn mask_of(prefix: u8) -> (m: u32)
    requires
        prefix <= 32,
    ensures
        m == prefix_mask(prefix),
{
    if prefix == 0 {
        0
    } else {
        0xffff_ffffu32 << ((32 - prefix) as u32)
    }
}

/// Parses `cs[lo..hi]` as a CIDR.
fn parse_cidr_range(cs: &Vec<char>, lo: usize, hi: usize) -> (r: Option<Cidr4>)
    requires
        lo <= hi <= cs@.len(),
    ensures
        r == parse_cidr_text(cs@.subrange(lo as int, hi as int)),
        r matches Some(c) ==> c.wf() && c.canonical(),
{
    let ghost s = cs@.subrange(lo as int, hi as int);
    let (a, b) = trim_range(cs, lo, hi);
    let ghost t = cs@.subrange(a as int, b as int);
    match find_char_in(cs, a, b, '/') {
        None => None,
        Some(k) => {
            assert(t.take(k - a) =~= cs@.subrange(a as int, k as int));
            assert(t.skip(k - a + 1) =~= cs@.subrange(k + 1, b as int));
            let prefix = match parse_u8_range(cs, k + 1, b) {
                None => {
                    return None;
                },
                Some(p) => p,
            };
            if prefix > 32 {
                return None;
            }
            let (c, d) = trim_range(cs, a, k);
            match parse_ipv4_range(cs, c, d) {
                None => None,
                Some(raw) => {
                    let m = mask_of(prefix);
                    let network = raw & m;
                    assert(network & m == network) by (bit_vector)
                        requires
                            network == raw & m,
                    ;
                    Some(Cidr4 { network, prefix })
                },
            }
        },
    }
}

impl Cidr4 {
    /// Parses `a.b.c.d/N`; `None` on malformed input (callers report
    /// their own error). The result is well formed and canonical.
    pub fn parse(s: &str) -> (r: Option<Cidr4>)
        ensures
            r == parse_cidr_text(s@),
            r matches Some(c) ==> c.wf() && c.canonical(),
    {
        let cs = chars_of(s);
        assert(cs@.subrange(0, cs@.len() as int) =~= s@);
        parse_cidr_range(&cs, 0, cs.len())
    }

    /// Does this CIDR contain `ip`?
    pub fn contains(&self, ip: Ipv4Addr) -> (r: bool)
        requires
            self.wf(),
        ensures
            r == self.has(ip@),
    {
        let raw = ip.to_bits();
        let mask = mask_of(self.prefix);
        (raw & mask) == self.network
    }

    /// The text `a.b.c.d/prefix` (what `Display` writes for a CIDR).
    pub fn to_string(&self) -> (r: String)
        ensures
            r@ == cidr_text(*self),
    {
        let mut out: Vec<char> = Vec::new();
        push_ipv4_text(&mut out, self.network);
        out.push('/');
        push_decimal(&mut out, self.prefix as u64);
        assert(out@ =~= cidr_text(*self));
        string_of(&out)
    }
}

// ---------------------------------------------------------------------
// Lists
// ---------------------------------------------------------------------

/// The CIDRs of a list of comma-separated pieces: each piece is trimmed,
/// empty pieces are dropped, and so are pieces that do not parse.
pub open spec fn parse_pieces(pieces: Seq<Seq<char>>) -> Seq<Cidr4>
    decreases pieces.len(),
{
    if pieces.len() == 0 {
        Seq::<Cidr4>::empty()
    } else {
        let r = parse_pieces(pieces.drop_last());
        let t = trim(pieces.last());
        if t.len() == 0 {
            r
        } else {
            match parse_cidr_text(t) {
                Some(c) => r.push(c),
                None => r,
            }
        }
    }
}

/// The CIDRs of a comma-separated list, malformed entries skipped.
pub open spec fn parse_list_text(s: Seq<char>) -> Seq<Cidr4> {
    parse_pieces(split_on(s, ','))
}

/// Every CIDR in the list is well formed and canonical.
pub open spec fn all_canonical(list: Seq<Cidr4>) -> bool {
    forall|i: int| 0 <= i < list.len() ==> (#[trigger] list[i]).wf() && list[i].canonical()
}

/// Parses the piece `cs[start..end]` of a list and appends its CIDR, if any.
fn push_piece(out: &mut Vec<Cidr4>, cs: &Vec<char>, start: usize, end: usize)
    requires
        start <= end <= cs@.len(),
    ensures
        ({
            let t = trim(cs@.subrange(start as int, end as int));
            final(out)@ == if t.len() == 0 {
                old(out)@
            } else {
                match parse_cidr_text(t) {
                    Some(c) => old(out)@.push(c),
                    None => old(out)@,
                }
            }
        }),
        all_canonical(old(out)@) ==> all_canonical(final(out)@),
{
    let (x, y) = trim_range(cs, start, end);
    if y > x {
        match parse_cidr_range(cs, x, y) {
            Some(c) => {
                out.push(c);
            },
            None => {},
        }
    }
}

/// Parses a comma-separated CIDR list (flag repetition or an environment
/// value). Malformed entries are skipped: returning the valid subset
/// keeps a configuration mistake from failing the whole boot.
pub fn parse_list(value: &str) -> (r: Vec<Cidr4>)
    ensures
        r@ == parse_list_text(value@),
        all_canonical(r@),
{
    let cs = chars_of(value);
    let ghost s = cs@;
    let mut out: Vec<Cidr4> = Vec::new();
    let mut i: usize = 0;
    let mut start: usize = 0;
    while i < cs.len()
        invariant
            start <= i <= cs@.len(),
            s == cs@,
            split_on(s.take(i as int), ',').len() >= 1,
            out@ == parse_pieces(split_on(s.take(i as int), ',').drop_last()),
            split_on(s.take(i as int), ',').last() == cs@.subrange(start as int, i as int),
            all_canonical(out@),
        decreases cs@.len() - i,
    {
        let ghost p = s.take(i as int);
        let ghost sp = split_on(p, ',');
        let c = cs[i];
        proof {
            assert(s.take(i + 1) =~= p.push(c));
            assert(p.push(c).drop_last() =~= p);
        }
        if c == ',' {
            push_piece(&mut out, &cs, start, i);
            proof {
                lemma_split_push_sep(p, ',');
                let sp2 = split_on(s.take(i + 1), ',');
                assert(sp2.drop_last() =~= sp);
                assert(sp == sp.drop_last().push(sp.last()));
                assert(sp.drop_last().push(sp.last()).drop_last() =~= sp.drop_last());
                assert(sp2.last() =~= cs@.subrange(i + 1, i + 1));
            }
            start = i + 1;
        } else {
            proof {
                let sp2 = split_on(s.take(i + 1), ',');
                assert(sp2 == sp.update(sp.len() - 1, sp.last().push(c)));
                assert(sp2.drop_last() =~= sp.drop_last());
                assert(sp2.last() =~= cs@.subrange(start as int, i + 1));
            }
        }
        i = i + 1;
    }
    push_piece(&mut out, &cs, start, cs.len());
    proof {
        assert(s.take(cs@.len() as int) =~= s);
        let sp = split_on(s, ',');
        lemma_split_len(s, ',');
        assert(sp.drop_last().push(sp.last()) =~= sp);
        assert(sp.drop_last().push(sp.last()).drop_last() =~= sp.drop_last());
    }
    out
}

// ---------------------------------------------------------------------
// Matching
// ---------------------------------------------------------------------

/// Some well-formed CIDR of the list contains `ip`.
pub open spec fn list_has(list: Seq<Cidr4>, ip: u32) -> bool {
    exists|i: int| 0 <= i < list.len() && (#[trigger] list[i]).wf() && list[i].has(ip)
}

/// Scanning the list for `ip` from the front finds a match before it
/// meets any entry whose prefix is longer than 32 (on which the netmask
/// computation would overflow).
pub open spec fn scan_safe(list: Seq<Cidr4>, ip: u32) -> bool {
    forall|i: int|
        0 <= i < list.len() && !(#[trigger] list[i]).wf() ==> exists|j: int|
            0 <= j < i && (#[trigger] list[j]).wf() && list[j].has(ip)
}

/// True when `ip` matches any CIDR in `list`.
pub fn any_contains(list: &[Cidr4], ip: Ipv4Addr) -> (r: bool)
    requires
        scan_safe(list@, ip@),
    ensures
        r == list_has(list@, ip@),
{
    let mut i: usize = 0;
    while i < list.len()
        invariant
            i <= list@.len(),
            scan_safe(list@, ip@),
            forall|j: int| 0 <= j < i ==> (#[trigger] list@[j]).wf() && !list@[j].has(ip@),
        decreases list@.len() - i,
    {
        proof {
            // a malformed entry would need an earlier match, and there is none
            if !list@[i as int].wf() {
                let j = choose|j: int| 0 <= j < i && (#[trigger] list@[j]).wf() && list@[j].has(ip@);
                assert(false);
            }
        }
        if list[i].contains(ip) {
            return true;
        }
        i = i + 1;
    }
    false
}

/// The LAN-scope decision for an IPv4 peer (by its 32-bit number).
pub open spec fn v4_allowed(list: Seq<Cidr4>, ip: u32) -> bool {
    list.len() == 0 || ipv4_is_loopback(ip) || list_has(list, ip)
}

/// The LAN-scope decision for an IPv6 peer (by its 128-bit number).
pub open spec fn v6_allowed(list: Seq<Cidr4>, ip: u128) -> bool {
    list.len() == 0 || ipv6_is_loopback(ip) || match ipv6_mapped_ipv4(ip) {
        Some(v4) => list_has(list, v4),
        None => false,
    }
}

/// The LAN-scope decision for a peer address.
pub open spec fn ip_allowed_spec(list: Seq<Cidr4>, ip: IpAddr) -> bool {
    match ip {
        IpAddr::V4(a) => v4_allowed(list, a@),
        IpAddr::V6(b) => v6_allowed(list, b@),
    }
}

/// The decision for `ip` never meets a malformed entry before a match.
pub open spec fn ip_check_safe(list: Seq<Cidr4>, ip: IpAddr) -> bool {
    list.len() == 0 || match ip {
        IpAddr::V4(a) => ipv4_is_loopback(a@) || scan_safe(list, a@),
        IpAddr::V6(b) => ipv6_is_loopback(b@) || match ipv6_mapped_ipv4(b@) {
            Some(v4) => scan_safe(list, v4),
            None => true,
        },
    }
}

/// LAN-scope gate for a remote peer address.
///
/// - empty `list` → unrestricted (falls back to token gating)
/// - loopback (127.x / ::1) → always allowed (local CLI / same host)
/// - IPv4 → matched against the list
/// - IPv4-mapped IPv6 (`::ffff:a.b.c.d`) → unmapped and matched as IPv4
/// - any other IPv6 → rejected (the list is IPv4-only)
pub fn ip_allowed(list: &[Cidr4], ip: IpAddr) -> (r: bool)
    requires
        ip_check_safe(list@, ip),
    ensures
        r == ip_allowed_spec(list@, ip),
{
    if list.len() == 0 {
        return true;
    }
    match ip {
        IpAddr::V4(v4) => {
            if v4.is_loopback() {
                true
            } else {
                any_contains(list, v4)
            }
        },
        IpAddr::V6(v6) => {
            if v6.is_loopback() {
                true
            } else {
                match v6.to_ipv4_mapped() {
                    Some(v4) => any_contains(list, v4),
                    None => false,
                }
            }
        },
    }
}

} // verus!

verus! {

// ---------------------------------------------------------------------
// Laws
// ---------------------------------------------------------------------

/// Every CIDR that parsing produces is well formed and canonical: its
/// prefix is at most 32 and its network has no host bits.
pub proof fn lemma_parsed_is_canonical(s: Seq<char>)
    ensures
        parse_cidr_text(s) matches Some(c) ==> c.wf() && c.canonical(),
{
    if let Some(c) = parse_cidr_text(s) {
        let m = prefix_mask(c.prefix);
        let n = c.network;
        if let Some((ip_part, _)) = split_once(trim(s), '/') {
            let a = parse_ipv4_text(trim(ip_part)).unwrap();
            assert(n == a & m);
            assert(n & m == n) by (bit_vector)
                requires
                    n == a & m,
            ;
        }
    }
}

/// A parsed CIDR contains the address written before its `/`.
pub proof fn lemma_parsed_contains_written_address(s: Seq<char>)
    ensures
        parse_cidr_text(s) matches Some(c) ==> match split_once(trim(s), '/') {
            Some((ip_part, _)) => match parse_ipv4_text(trim(ip_part)) {
                Some(a) => c.has(a),
                None => false,
            },
            None => false,
        },
{
    if let Some(c) = parse_cidr_text(s) {
        let (ip_part, _) = split_once(trim(s), '/').unwrap();
        let a = parse_ipv4_text(trim(ip_part)).unwrap();
        let m = prefix_mask(c.prefix);
        assert((a & m) & m == a & m) by (bit_vector);
    }
}

/// A `/0` network contains every address when its network number is 0,
/// and no address otherwise; a parsed `/0` always has network 0.
pub proof fn lemma_prefix_zero(c: Cidr4, ip: u32)
    requires
        c.prefix == 0,
    ensures
        c.has(ip) <==> c.network == 0,
        c.canonical() ==> c.has(ip),
{
    assert(ip & 0u32 == 0u32) by (bit_vector);
    let n = c.network;
    assert(n & 0u32 == 0u32) by (bit_vector);
}

/// A `/32` network (a host route) contains exactly its network address.
pub proof fn lemma_prefix_32(c: Cidr4, ip: u32)
    requires
        c.prefix == 32,
    ensures
        c.has(ip) <==> ip == c.network,
{
    assert((0xffff_ffffu32 << 0u32) == 0xffff_ffffu32) by (bit_vector);
    assert(ip & 0xffff_ffffu32 == ip) by (bit_vector);
}

/// Narrowing a CIDR to a longer prefix inside it keeps only addresses of
/// the wider one: if `inner` has a prefix at least as long as `outer`'s
/// and its network lies in `outer`, every address of `inner` lies in
/// `outer`.
pub proof fn lemma_nested(outer: Cidr4, inner: Cidr4, ip: u32)
    requires
        outer.wf(),
        inner.wf(),
        outer.prefix <= inner.prefix,
        outer.has(inner.network),
        inner.has(ip),
    ensures
        outer.has(ip),
{
    let mo = prefix_mask(outer.prefix);
    let mi = prefix_mask(inner.prefix);
    let po = outer.prefix;
    let pi = inner.prefix;
    assert(mi & mo == mo) by (bit_vector)
        requires
            po <= pi <= 32,
            mo == (if po == 0 {
                0u32
            } else {
                (0xffff_ffffu32 << ((32 - po) as u32)) as u32
            }),
            mi == (if pi == 0 {
                0u32
            } else {
                (0xffff_ffffu32 << ((32 - pi) as u32)) as u32
            }),
    ;
    let n = inner.network;
    let o = outer.network;
    assert(ip & mo == o) by (bit_vector)
        requires
            ip & mi == n,
            n & mo == o,
            mi & mo == mo,
    ;
}

/// A text without white space at either end is its own trim.
proof fn lemma_trim_noop(s: Seq<char>)
    requires
        s.len() >= 1,
        !is_white_space(s[0]),
        !is_white_space(s.last()),
    ensures
        trim(s) == s,
{
}

/// Reading the text of a well-formed canonical CIDR gives the CIDR back.
pub proof fn lemma_text_roundtrip(c: Cidr4)
    requires
        c.wf(),
        c.canonical(),
    ensures
        parse_cidr_text(cidr_text(c)) == Some(c),
{
    let ip = ipv4_text(c.network);
    let pt = decimal_text(c.prefix as nat);
    let t = cidr_text(c);
    crate::addr::lemma_ipv4_text_chars(c.network);
    lemma_decimal_text(c.prefix as nat);
    assert(t[0] == ip[0]);
    assert(t.last() == pt.last());
    lemma_trim_noop(t);
    let l = ip.len() as int;
    assert(t.take(l) =~= ip);
    assert(t.skip(l + 1) =~= pt);
    assert(free_of(t.take(l), '/')) by {
        assert forall|i: int| 0 <= i < l implies #[trigger] t.take(l)[i] != '/' by {
            assert(t.take(l)[i] == ip[i]);
        }
    }
    lemma_find_char_at(t, '/', l);
    assert(split_once(t, '/') == Some((ip, pt)));
    assert(pt[0] != '+');
    assert(parse_u8_text(pt) == Some(c.prefix));
    lemma_trim_noop(ip);
    lemma_ipv4_text_roundtrip(c.network);
}

/// An IPv4-mapped IPv6 peer `::ffff:a.b.c.d` gets the decision of the
/// IPv4 peer `a.b.c.d`, unless that is a loopback address (127.x is let
/// through as IPv4, while its mapped form is checked against the list).
pub proof fn lemma_mapped_like_v4(list: Seq<Cidr4>, a: u32)
    requires
        !ipv4_is_loopback(a),
    ensures
        v6_allowed(list, (0xffff * 4294967296 + a) as u128) == v4_allowed(list, a),
{
    let b = (0xffff * 4294967296 + a) as u128;
    assert(b / 4294967296 == 0xffff);
    assert(b % 4294967296 == a);
}

/// With an empty list every peer is allowed, and loopback peers are
/// allowed whatever the list holds.
pub proof fn lemma_unrestricted_and_loopback(list: Seq<Cidr4>, ip: IpAddr)
    ensures
        list.len() == 0 ==> ip_allowed_spec(list, ip),
        ip matches IpAddr::V4(a) && ipv4_is_loopback(a@) ==> ip_allowed_spec(list, ip),
        ip matches IpAddr::V6(b) && ipv6_is_loopback(b@) ==> ip_allowed_spec(list, ip),
{
}

/// An address is allowed by a non-empty list exactly when it is a
/// loopback address or some CIDR of the list (directly, or through its
/// IPv4-mapped form) contains it; in particular a pure IPv6 address that
/// is neither loopback nor IPv4-mapped is refused.
pub proof fn lemma_pure_v6_refused(list: Seq<Cidr4>, b: u128)
    requires
        list.len() > 0,
        !ipv6_is_loopback(b),
        ipv6_mapped_ipv4(b) is None,
    ensures
        !v6_allowed(list, b),
{
}

} // verus!

verus! {

/// White space around a CIDR text does not change what it parses to.
pub proof fn lemma_parse_ignores_outer_space(s: Seq<char>)
    ensures
        parse_cidr_text(trim(s)) == parse_cidr_text(s),
{
    crate::text::lemma_trim_idempotent(s);
}

/// The comma-separated text of a list of CIDRs.
pub open spec fn join_texts(list: Seq<Cidr4>) -> Seq<char>
    decreases list.len(),
{
    if list.len() == 0 {
        Seq::<char>::empty()
    } else if list.len() == 1 {
        cidr_text(list[0])
    } else {
        join_texts(list.drop_last()) + seq![','] + cidr_text(list.last())
    }
}

/// The text of a CIDR holds only digits, dots and one slash, and starts
/// and ends with a digit.
proof fn lemma_cidr_text_chars(c: Cidr4)
    ensures
        free_of(cidr_text(c), ','),
        cidr_text(c).len() > 0,
        !is_white_space(cidr_text(c)[0]),
        !is_white_space(cidr_text(c).last()),
{
    let ip = ipv4_text(c.network);
    let pt = decimal_text(c.prefix as nat);
    let t = cidr_text(c);
    crate::addr::lemma_ipv4_text_chars(c.network);
    lemma_decimal_text(c.prefix as nat);
    assert forall|i: int| 0 <= i < t.len() implies #[trigger] t[i] != ',' by {
        if i < ip.len() {
            assert(t[i] == ip[i]);
        } else if i > ip.len() {
            assert(t[i] == pt[i - ip.len() - 1]);
            assert(is_digit(pt[i - ip.len() - 1]));
        }
    }
    assert(t[0] == ip[0]);
    assert(t.last() == pt.last());
}

/// Printing a list of well-formed canonical CIDRs comma-separated and
/// parsing the text as a list gives the same list back.
pub proof fn lemma_list_text_roundtrip(list: Seq<Cidr4>)
    requires
        all_canonical(list),
    ensures
        parse_list_text(join_texts(list)) == list,
    decreases list.len(),
{
    let e = Seq::<char>::empty();
    if list.len() == 0 {
        assert(parse_pieces(seq![e]) == parse_pieces(seq![e].drop_last()));
        assert(seq![e].drop_last() =~= Seq::<Seq<char>>::empty());
        assert(parse_list_text(e) =~= list);
    } else {
        let c = list.last();
        let t = cidr_text(c);
        assert(c.wf() && c.canonical());
        lemma_cidr_text_chars(c);
        lemma_trim_noop(t);
        lemma_text_roundtrip(c);
        if list.len() == 1 {
            crate::text::lemma_split_free(t, ',');
            assert(seq![t].drop_last() =~= Seq::<Seq<char>>::empty());
            assert(seq![t].last() == t);
            assert(trim(t).len() > 0);
            assert(parse_pieces(Seq::<Seq<char>>::empty()) == Seq::<Cidr4>::empty());
            assert(parse_pieces(seq![t]) == Seq::<Cidr4>::empty().push(c));
            assert(parse_list_text(t) =~= seq![c]);
            assert(list =~= seq![c]);
        } else {
            let l = list.drop_last();
            assert(all_canonical(l)) by {
                assert forall|i: int| 0 <= i < l.len() implies (#[trigger] l[i]).wf()
                    && l[i].canonical() by {
                    assert(l[i] == list[i]);
                }
            }
            lemma_list_text_roundtrip(l);
            let j = join_texts(l);
            let sp = split_on(j, ',');
            lemma_split_push_sep(j, ',');
            crate::text::lemma_split_append_free(j.push(','), t, ',');
            assert(j.push(',') + t =~= j + seq![','] + t);
            assert(e + t =~= t);
            let sp2 = split_on(join_texts(list), ',');
            assert(sp2 =~= sp.push(t));
            assert(sp2.drop_last() =~= sp);
            assert(parse_pieces(sp2) =~= l.push(c));
            assert(l.push(c) =~= list);
        }
    }
}

} // verus!

verus! {

// ---------------------------------------------------------------------
// Laws stated on the bits
// ---------------------------------------------------------------------

/// The netmask of a prefix length has exactly `prefix` leading one bits:
/// it is zero for `/0` and the complement of `u32::MAX >> prefix` for
/// every prefix from 1 to 32.
pub proof fn lemma_prefix_mask_bits(prefix: u8)
    requires
        prefix <= 32,
    ensures
        prefix == 0 ==> prefix_mask(prefix) == 0,
        prefix > 0 ==> prefix_mask(prefix) == !(0xffff_ffffu32 >> (prefix as u32)),
{
    if prefix > 0 {
        let p = prefix as u32;
        assert((0xffff_ffffu32 << ((32 - p) as u32)) == !(0xffff_ffffu32 >> p)) by (bit_vector)
            requires
                1 <= p <= 32,
        ;
    }
}

/// An address lies in a canonical CIDR with a non-zero prefix exactly when
/// its leading `prefix` bits equal those of the network.
pub proof fn lemma_has_leading_bits(c: Cidr4, ip: u32)
    requires
        c.wf(),
        c.canonical(),
        c.prefix > 0,
    ensures
        c.has(ip) <==> (ip >> ((32 - c.prefix) as u32)) == (c.network >> ((32 - c.prefix) as u32)),
{
    lemma_prefix_mask_bits(c.prefix);
    let p = c.prefix as u32;
    let n = c.network;
    assert((ip & !(0xffff_ffffu32 >> p) == n) <==> ((ip >> ((32 - p) as u32)) == (n >> ((32 - p)
        as u32)))) by (bit_vector)
        requires
            1 <= p <= 32,
            n & !(0xffff_ffffu32 >> p) == n,
    ;
}

/// A list contains an address exactly when one of its entries, at any
/// position, has a prefix of at most 32 and the address's masked bits
/// equal that entry's network.
pub proof fn lemma_list_has_entrywise(list: Seq<Cidr4>, ip: u32)
    ensures
        list_has(list, ip) <==> exists|i: int|
            0 <= i < list.len() && (#[trigger] list[i]).prefix <= 32 && ip & prefix_mask(
                list[i].prefix,
            ) == list[i].network,
{
}

/// Any well-formed entry that contains the address makes the list contain
/// it, wherever the entry stands.
pub proof fn lemma_list_has_member(list: Seq<Cidr4>, i: int, ip: u32)
    requires
        0 <= i < list.len(),
        list[i].prefix <= 32,
        ip & prefix_mask(list[i].prefix) == list[i].network,
    ensures
        list_has(list, ip),
{
    assert(list[i].wf() && list[i].has(ip));
}

/// A one-entry list contains exactly the addresses of its entry.
pub proof fn lemma_list_has_single(c: Cidr4, ip: u32)
    ensures
        list_has(seq![c], ip) <==> (c.prefix <= 32 && ip & prefix_mask(c.prefix) == c.network),
{
    if c.prefix <= 32 && ip & prefix_mask(c.prefix) == c.network {
        assert(seq![c][0] == c);
    }
}

/// Joining two lists joins what they contain: the order and position of
/// the entries do not matter.
pub proof fn lemma_list_has_concat(a: Seq<Cidr4>, b: Seq<Cidr4>, ip: u32)
    ensures
        list_has(a + b, ip) <==> list_has(a, ip) || list_has(b, ip),
{
    let ab = a + b;
    if list_has(a, ip) {
        let i = choose|i: int| 0 <= i < a.len() && (#[trigger] a[i]).wf() && a[i].has(ip);
        assert(ab[i] == a[i]);
    }
    if list_has(b, ip) {
        let i = choose|i: int| 0 <= i < b.len() && (#[trigger] b[i]).wf() && b[i].has(ip);
        assert(ab[a.len() + i] == b[i]);
    }
    if list_has(ab, ip) {
        let i = choose|i: int| 0 <= i < ab.len() && (#[trigger] ab[i]).wf() && ab[i].has(ip);
        if i < a.len() {
            assert(ab[i] == a[i]);
        } else {
            assert(ab[i] == b[i - a.len()]);
        }
    }
}

/// For a non-loopback IPv4 peer and a non-empty list, the peer is let in
/// if and only if one of the entries (first, last or any other) has a
/// prefix of at most 32 and a network equal to the peer's masked bits.
/// Its IPv4-mapped IPv6 form `::ffff:a.b.c.d` is judged the same way.
pub proof fn lemma_gate_v4_entrywise(list: Seq<Cidr4>, a: u32)
    requires
        list.len() > 0,
        a / 16777216 != 127,
    ensures
        v4_allowed(list, a) <==> exists|i: int|
            0 <= i < list.len() && (#[trigger] list[i]).prefix <= 32 && a & prefix_mask(
                list[i].prefix,
            ) == list[i].network,
        v6_allowed(list, (0xffff * 4294967296 + a) as u128) <==> exists|i: int|
            0 <= i < list.len() && (#[trigger] list[i]).prefix <= 32 && a & prefix_mask(
                list[i].prefix,
            ) == list[i].network,
{
    lemma_list_has_entrywise(list, a);
    lemma_mapped_like_v4(list, a);
}

/// A peer that is neither loopback nor IPv4-mapped IPv6 is refused by a
/// non-empty list, whatever it holds.
pub proof fn lemma_gate_v6_refused(list: Seq<Cidr4>, b: u128)
    requires
        list.len() > 0,
        b != 1,
        b / 4294967296 != 0xffff,
    ensures
        !v6_allowed(list, b),
{
}

/// With an empty list every peer is allowed; loopback peers (127.x and
/// `::1`) are allowed whatever the list holds.
pub proof fn lemma_gate_unrestricted(list: Seq<Cidr4>, a: u32, b: u128)
    ensures
        list.len() == 0 ==> v4_allowed(list, a) && v6_allowed(list, b),
        a / 16777216 == 127 ==> v4_allowed(list, a),
        b == 1 ==> v6_allowed(list, b),
{
}

} // verus!

verus! {

/// The CIDRs of two runs of pieces are those of each run, in order.
pub proof fn lemma_parse_pieces_concat(x: Seq<Seq<char>>, y: Seq<Seq<char>>)
    ensures
        parse_pieces(x + y) == parse_pieces(x) + parse_pieces(y),
    decreases y.len(),
{
    if y.len() == 0 {
        assert(x + y =~= x);
        assert(parse_pieces(x) + parse_pieces(y) =~= parse_pieces(x));
    } else {
        lemma_parse_pieces_concat(x, y.drop_last());
        assert((x + y).drop_last() =~= x + y.drop_last());
        assert((x + y).last() == y.last());
        let px = parse_pieces(x);
        let py0 = parse_pieces(y.drop_last());
        let t = trim(y.last());
        if t.len() != 0 {
            if let Some(c) = parse_cidr_text(t) {
                assert((px + py0).push(c) =~= px + py0.push(c));
            }
        }
    }
}

/// Parsing `a,b` as a list gives the list of `a` followed by the list of
/// `b`: every entry is parsed on its own, wherever it stands.
pub proof fn lemma_list_concat(a: Seq<char>, b: Seq<char>)
    ensures
        parse_list_text(a + seq![','] + b) == parse_list_text(a) + parse_list_text(b),
{
    crate::text::lemma_split_concat(a, b, ',');
    lemma_parse_pieces_concat(split_on(a, ','), split_on(b, ','));
}

/// A single entry (text without a comma) contributes exactly what
/// `Cidr4::parse` makes of it: nothing when it is blank or malformed, the
/// parsed CIDR otherwise (host bits, `+8`, `/08` and inner spaces
/// included, as the CIDR parser accepts them).
pub proof fn lemma_list_single_entry(t: Seq<char>)
    requires
        free_of(t, ','),
    ensures
        parse_list_text(t) == if trim(t).len() == 0 {
            Seq::<Cidr4>::empty()
        } else {
            match parse_cidr_text(t) {
                Some(c) => seq![c],
                None => Seq::<Cidr4>::empty(),
            }
        },
{
    crate::text::lemma_split_free(t, ',');
    lemma_parse_ignores_outer_space(t);
    let e = Seq::<Seq<char>>::empty();
    assert(seq![t].drop_last() =~= e);
    assert(seq![t].last() == t);
    assert(parse_pieces(e) == Seq::<Cidr4>::empty());
    if let Some(c) = parse_cidr_text(t) {
        assert(Seq::<Cidr4>::empty().push(c) =~= seq![c]);
    }
}

/// `a.b.c.d/p` written with host bits parses to the network of `a.b.c.d`
/// under the `/p` netmask (the host bits are cleared, not refused), for
/// every address and every prefix up to 32.
pub proof fn lemma_parse_clears_host_bits(addr: u32, prefix: u8)
    requires
        prefix <= 32,
    ensures
        parse_cidr_text(ipv4_text(addr) + seq!['/'] + decimal_text(prefix as nat)) == Some(
            Cidr4 { network: addr & prefix_mask(prefix), prefix },
        ),
{
    let c = Cidr4 { network: addr, prefix };
    let ip = ipv4_text(addr);
    let pt = decimal_text(prefix as nat);
    let t = cidr_text(c);
    crate::addr::lemma_ipv4_text_chars(addr);
    lemma_decimal_text(prefix as nat);
    assert(t[0] == ip[0]);
    assert(t.last() == pt.last());
    lemma_trim_noop(t);
    let l = ip.len() as int;
    assert(t.take(l) =~= ip);
    assert(t.skip(l + 1) =~= pt);
    assert(free_of(t.take(l), '/')) by {
        assert forall|i: int| 0 <= i < l implies #[trigger] t.take(l)[i] != '/' by {
            assert(t.take(l)[i] == ip[i]);
        }
    }
    lemma_find_char_at(t, '/', l);
    assert(split_once(t, '/') == Some((ip, pt)));
    assert(pt[0] != '+');
    assert(parse_u8_text(pt) == Some(prefix));
    lemma_trim_noop(ip);
    lemma_ipv4_text_roundtrip(addr);
}

} // verus!

verus! {

/// The prefix grammar reads the shortest decimal spelling of a number as
/// that number when it fits a `u8`, and refuses it otherwise; it refuses
/// the empty text and a lone `+`.
pub proof fn lemma_u8_decimal(v: nat)
    ensures
        parse_u8_text(decimal_text(v)) == if v <= 255 {
            Some(v as u8)
        } else {
            None
        },
        parse_u8_text(Seq::<char>::empty()) is None,
        parse_u8_text(seq!['+']) is None,
{
    lemma_decimal_text(v);
    assert(is_digit(decimal_text(v)[0]));
    assert(seq!['+'].drop_first() =~= Seq::<char>::empty());
}

/// One leading `+` is accepted and changes nothing.
pub proof fn lemma_u8_plus(d: Seq<char>)
    requires
        d.len() == 0 || d[0] != '+',
    ensures
        parse_u8_text(seq!['+'] + d) == parse_u8_text(d),
{
    assert((seq!['+'] + d).drop_first() =~= d);
}

/// A zero in front of the digits changes nothing (leading zeros are
/// accepted, whatever their number).
pub proof fn lemma_u8_leading_zero(d: Seq<char>)
    requires
        d.len() > 0,
        d[0] != '+',
    ensures
        parse_u8_text(seq!['0'] + d) == parse_u8_text(d),
{
    lemma_zero_prefix_value(d);
    let z = seq!['0'] + d;
    assert(all_digits(z) <==> all_digits(d)) by {
        if all_digits(d) {
            assert forall|i: int| 0 <= i < z.len() implies is_digit(#[trigger] z[i]) by {
                if i > 0 {
                    assert(z[i] == d[i - 1]);
                }
            }
        }
        if all_digits(z) {
            assert forall|i: int| 0 <= i < d.len() implies is_digit(#[trigger] d[i]) by {
                assert(z[i + 1] == d[i]);
            }
        }
    }
}

/// A leading zero does not change the value of a digit string.
proof fn lemma_zero_prefix_value(d: Seq<char>)
    ensures
        decimal_value(seq!['0'] + d) == decimal_value(d),
    decreases d.len(),
{
    if d.len() == 0 {
        let z = seq!['0'];
        assert(z.drop_last() =~= Seq::<char>::empty());
        assert(decimal_value(Seq::<char>::empty()) == 0);
    } else {
        lemma_zero_prefix_value(d.drop_last());
        assert((seq!['0'] + d).drop_last() =~= seq!['0'] + d.drop_last());
        assert((seq!['0'] + d).last() == d.last());
    }
}

/// A CIDR text without outer white space is read in two independent
/// parts: the prefix after the first `/` with the `u8` grammar (at most
/// 32), and the trimmed address before it with the dotted-quad grammar;
/// the network is the address under the prefix's netmask.
pub proof fn lemma_parse_parts(x: Seq<char>, y: Seq<char>)
    requires
        free_of(x, '/'),
        x.len() > 0 ==> !is_white_space(x[0]),
        y.len() > 0 ==> !is_white_space(y.last()),
    ensures
        parse_cidr_text(x + seq!['/'] + y) == match parse_u8_text(y) {
            Some(p) => if p <= 32 {
                match parse_ipv4_text(trim(x)) {
                    Some(a) => Some(Cidr4 { network: a & prefix_mask(p), prefix: p }),
                    None => None,
                }
            } else {
                None
            },
            None => None,
        },
{
    let s = x + seq!['/'] + y;
    let l = x.len() as int;
    if x.len() > 0 {
        assert(s[0] == x[0]);
    }
    if y.len() > 0 {
        assert(s.last() == y.last());
    }
    lemma_trim_noop(s);
    assert(s.take(l) =~= x);
    assert(s.skip(l + 1) =~= y);
    lemma_find_char_at(s, '/', l);
}

} // verus!
