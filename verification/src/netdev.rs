//! Gateway auto-listen: the choice of a non-loopback interface address
//! (Tailscale first, then an interface whose address falls inside the
//! configured LAN CIDRs), so that gateway mode defaults to a
//! LAN-reachable address instead of silently staying on loopback. The
//! interface list itself is read by the caller from the operating system.
use vstd::prelude::*;

use crate::addr::{ipv4_is_loopback, ipv6_is_loopback, IpAddr};
use crate::cidr::{any_contains, list_has, prefix_mask, scan_safe, Cidr4};
use crate::text::chars_of;

verus! {

/// A network interface address: the interface's name and one address.
#[derive(Debug)]
pub struct Interface {
    pub name: String,
    pub ip: IpAddr,
}

/// The address is a loopback address (127.x or ::1).
pub open spec fn ip_is_loopback(ip: IpAddr) -> bool {
    match ip {
        IpAddr::V4(a) => ipv4_is_loopback(a@),
        IpAddr::V6(b) => ipv6_is_loopback(b@),
    }
}

/// The word that names Tailscale interfaces.
pub open spec fn tailscale_word() -> Seq<char> {
    seq!['t', 'a', 'i', 'l', 's', 'c', 'a', 'l', 'e']
}

/// `s` begins with `p`.
pub open spec fn starts_with(s: Seq<char>, p: Seq<char>) -> bool {
    p.len() <= s.len() && s.take(p.len() as int) == p
}

/// The interface can serve: its address is not a loopback address.
pub open spec fn usable(i: Interface) -> bool {
    !ip_is_loopback(i.ip)
}

/// A usable Tailscale interface (its name starts with `tailscale`).
pub open spec fn is_tailscale(i: Interface) -> bool {
    usable(i) && starts_with(i.name@, tailscale_word())
}

/// A usable interface whose IPv4 address lies in the (non-empty) LAN list.
pub open spec fn in_lan(i: Interface, lan: Seq<Cidr4>) -> bool {
    usable(i) && lan.len() > 0 && match i.ip {
        IpAddr::V4(a) => list_has(lan, a@),
        IpAddr::V6(_) => false,
    }
}

/// The address of the first interface of `s` that satisfies `p`.
pub open spec fn first_ip(s: Seq<Interface>, p: spec_fn(Interface) -> bool) -> Option<IpAddr>
    decreases s.len(),
{
    if s.len() == 0 {
        None
    } else {
        match first_ip(s.drop_last(), p) {
            Some(a) => Some(a),
            None => if p(s.last()) {
                Some(s.last().ip)
            } else {
                None
            },
        }
    }
}

/// The preferred listen address: the first Tailscale interface, else the
/// first interface inside the LAN list (when the list is non-empty), else
/// the first usable interface, else none.
pub open spec fn gateway_choice(ifaces: Seq<Interface>, lan: Seq<Cidr4>) -> Option<IpAddr> {
    match first_ip(ifaces, |i: Interface| is_tailscale(i)) {
        Some(a) => Some(a),
        None => match first_ip(ifaces, |i: Interface| in_lan(i, lan)) {
            Some(a) => Some(a),
            None => first_ip(ifaces, |i: Interface| usable(i)),
        },
    }
}

/// The LAN check of interface `k` cannot meet a malformed CIDR before a
/// match. The check runs for every usable IPv4 interface that does not
/// take the Tailscale slot, when the list is non-empty.
pub open spec fn lan_checks_safe(ifaces: Seq<Interface>, lan: Seq<Cidr4>) -> bool {
    forall|k: int|
        0 <= k < ifaces.len() && usable(#[trigger] ifaces[k]) && lan.len() > 0 && !(is_tailscale(
            ifaces[k],
        ) && first_ip(ifaces.take(k), |i: Interface| is_tailscale(i)) is None) ==> match ifaces[k].ip {
            IpAddr::V4(a) => scan_safe(lan, a@),
            IpAddr::V6(_) => true,
        }
}

impl Interface {
    /// Whether the interface's address is a loopback address.
    pub fn is_loopback(&self) -> (r: bool)
        ensures
            r == ip_is_loopback(self.ip),
    {
        ip_is_loopback_exec(&self.ip)
    }
}

/// Whether `ip` is a loopback address.
pub fn ip_is_loopback_exec(ip: &IpAddr) -> (r: bool)
    ensures
        r == ip_is_loopback(*ip),
{
    match ip {
        IpAddr::V4(a) => a.is_loopback(),
        IpAddr::V6(b) => b.is_loopback(),
    }
}

/// Whether `name` starts with `tailscale`.
fn has_tailscale_name(name: &String) -> (r: bool)
    ensures
        r == starts_with(name@, tailscale_word()),
{
    let cs = chars_of(name.as_str());
    let w = ['t', 'a', 'i', 'l', 's', 'c', 'a', 'l', 'e'];
    assert(w@ =~= tailscale_word());
    if cs.len() < 9 {
        return false;
    }
    let mut k: usize = 0;
    while k < 9
        invariant
            k <= 9 <= cs@.len(),
            cs@ == name@,
            w@ == tailscale_word(),
            forall|j: int| 0 <= j < k ==> cs@[j] == w@[j],
        decreases 9 - k,
    {
        if cs[k] != w[k] {
            assert(cs@.take(9)[k as int] != tailscale_word()[k as int]);
            return false;
        }
        k = k + 1;
    }
    assert(cs@.take(9) =~= tailscale_word());
    true
}

/// Extending the list by one interface: the first match of the longer
/// list is the old first match, else the new interface if it matches.
proof fn lemma_first_ip_push(s: Seq<Interface>, x: Interface, p: spec_fn(Interface) -> bool)
    ensures
        first_ip(s.push(x), p) == match first_ip(s, p) {
            Some(a) => Some(a),
            None => if p(x) {
                Some(x.ip)
            } else {
                None
            },
        },
{
    assert(s.push(x).drop_last() =~= s);
}

/// Picks the preferred gateway listen address among `ifaces`, or `None`
/// when no interface is suitable (the caller then stays on loopback).
///
/// Preference:
///   1. the first `tailscale*` interface address (Tailscale CGNAT),
///   2. the first non-loopback interface whose IPv4 address is inside
///      `lan_cidrs` (when that list is non-empty),
///   3. the first non-loopback interface address,
///   4. `None`.
pub fn probe_gateway_listen(ifaces: &[Interface], lan_cidrs: &[Cidr4]) -> (r: Option<IpAddr>)
    requires
        lan_checks_safe(ifaces@, lan_cidrs@),
    ensures
        r == gateway_choice(ifaces@, lan_cidrs@),
{
    let ghost ts_p = |i: Interface| is_tailscale(i);
    let ghost lan_p = |i: Interface| in_lan(i, lan_cidrs@);
    let ghost any_p = |i: Interface| usable(i);
    let mut tailscale: Option<IpAddr> = None;
    let mut in_lan_ip: Option<IpAddr> = None;
    let mut any_non_loopback: Option<IpAddr> = None;
    let mut k: usize = 0;
    while k < ifaces.len()
        invariant
            k <= ifaces@.len(),
            lan_checks_safe(ifaces@, lan_cidrs@),
            tailscale == first_ip(ifaces@.take(k as int), ts_p),
            tailscale is None ==> in_lan_ip == first_ip(ifaces@.take(k as int), lan_p),
            tailscale is None && in_lan_ip is None ==> any_non_loopback == first_ip(
                ifaces@.take(k as int),
                any_p,
            ),
            ts_p == (|i: Interface| is_tailscale(i)),
            lan_p == (|i: Interface| in_lan(i, lan_cidrs@)),
            any_p == (|i: Interface| usable(i)),
        decreases ifaces@.len() - k,
    {
        let ifa = &ifaces[k];
        let ghost x = ifaces@[k as int];
        let ghost p = ifaces@.take(k as int);
        proof {
            assert(ifaces@.take(k + 1) =~= p.push(x));
            lemma_first_ip_push(p, x, ts_p);
            lemma_first_ip_push(p, x, lan_p);
            lemma_first_ip_push(p, x, any_p);
        }
        if ifa.is_loopback() {
            k = k + 1;
            continue;
        }
        let ip = ifa.ip;
        if ip_is_loopback_exec(&ip) {
            k = k + 1;
            continue;
        }
        if has_tailscale_name(&ifa.name) && tailscale.is_none() {
            tailscale = Some(ip);
            k = k + 1;
            continue;
        }
        if let IpAddr::V4(v4) = ip {
            if lan_cidrs.len() != 0 {
                proof {
                    assert(usable(ifaces@[k as int]));
                }
                let hit = any_contains(lan_cidrs, v4);
                if hit && in_lan_ip.is_none() {
                    in_lan_ip = Some(ip);
                    k = k + 1;
                    continue;
                }
            }
        }
        if any_non_loopback.is_none() {
            any_non_loopback = Some(ip);
        }
        k = k + 1;
    }
    proof {
        assert(ifaces@.take(ifaces@.len() as int) =~= ifaces@);
    }
    match tailscale {
        Some(a) => Some(a),
        None => match in_lan_ip {
            Some(a) => Some(a),
            None => any_non_loopback,
        },
    }
}

} // verus!

verus! {

/// What `first_ip` finds is the address of an interface that satisfies
/// the predicate, and it finds one whenever there is one.
pub proof fn lemma_first_ip(s: Seq<Interface>, p: spec_fn(Interface) -> bool)
    ensures
        first_ip(s, p) matches Some(a) ==> exists|i: int|
            0 <= i < s.len() && p(#[trigger] s[i]) && s[i].ip == a,
        first_ip(s, p) is None <==> forall|i: int| 0 <= i < s.len() ==> !p(#[trigger] s[i]),
    decreases s.len(),
{
    if s.len() > 0 {
        let t = s.drop_last();
        lemma_first_ip(t, p);
        assert forall|i: int| 0 <= i < t.len() implies #[trigger] t[i] == s[i] by {}
        if first_ip(t, p) is None && !p(s.last()) {
            assert forall|i: int| 0 <= i < s.len() implies !p(#[trigger] s[i]) by {
                if i < t.len() {
                    assert(t[i] == s[i]);
                }
            }
        }
        if let Some(a) = first_ip(t, p) {
            let i = choose|i: int| 0 <= i < t.len() && p(#[trigger] t[i]) && t[i].ip == a;
            assert(s[i] == t[i]);
        }
        if first_ip(s, p) is Some && first_ip(t, p) is None {
            assert(p(s[s.len() - 1]));
        }
    }
}

/// The chosen listen address is never a loopback address, it belongs to
/// one of the interfaces, and some address is chosen whenever any
/// interface has a non-loopback address.
pub proof fn lemma_gateway_choice(ifaces: Seq<Interface>, lan: Seq<Cidr4>)
    ensures
        gateway_choice(ifaces, lan) matches Some(a) ==> !ip_is_loopback(a) && exists|i: int|
            0 <= i < ifaces.len() && (#[trigger] ifaces[i]).ip == a,
        (exists|i: int| 0 <= i < ifaces.len() && usable(#[trigger] ifaces[i])) ==> gateway_choice(
            ifaces,
            lan,
        ) is Some,
{
    let ts_p = |i: Interface| is_tailscale(i);
    let lan_p = |i: Interface| in_lan(i, lan);
    let any_p = |i: Interface| usable(i);
    lemma_first_ip(ifaces, ts_p);
    lemma_first_ip(ifaces, lan_p);
    lemma_first_ip(ifaces, any_p);
    if let Some(a) = gateway_choice(ifaces, lan) {
        if let Some(b) = first_ip(ifaces, ts_p) {
            let i = choose|i: int| 0 <= i < ifaces.len() && ts_p(#[trigger] ifaces[i]) && ifaces[i].ip == b;
            assert(usable(ifaces[i]));
        } else if let Some(b) = first_ip(ifaces, lan_p) {
            let i = choose|i: int| 0 <= i < ifaces.len() && lan_p(#[trigger] ifaces[i]) && ifaces[i].ip == b;
            assert(usable(ifaces[i]));
        } else {
            let b = first_ip(ifaces, any_p).unwrap();
            let i = choose|i: int| 0 <= i < ifaces.len() && any_p(#[trigger] ifaces[i]) && ifaces[i].ip == b;
            assert(usable(ifaces[i]));
        }
    }
    if exists|i: int| 0 <= i < ifaces.len() && usable(#[trigger] ifaces[i]) {
        let i = choose|i: int| 0 <= i < ifaces.len() && usable(#[trigger] ifaces[i]);
        assert(any_p(ifaces[i]));
    }
}

} // verus!

verus! {

/// The first interface that satisfies `p` is the one `first_ip` finds.
proof fn lemma_first_ip_at(s: Seq<Interface>, p: spec_fn(Interface) -> bool, j: int)
    requires
        0 <= j < s.len(),
        p(s[j]),
        forall|k: int| 0 <= k < j ==> !p(#[trigger] s[k]),
    ensures
        first_ip(s, p) == Some(s[j].ip),
    decreases s.len(),
{
    let t = s.drop_last();
    if j < s.len() - 1 {
        assert forall|k: int| 0 <= k < j implies !p(#[trigger] t[k]) by {
            assert(t[k] == s[k]);
        }
        assert(t[j] == s[j]);
        lemma_first_ip_at(t, p, j);
    } else {
        lemma_first_ip(t, p);
        assert forall|k: int| 0 <= k < t.len() implies !p(#[trigger] t[k]) by {
            assert(t[k] == s[k]);
        }
    }
}

/// An interface is a LAN candidate exactly when it is usable, the list is
/// non-empty, and its IPv4 address lies in some entry of the list, at any
/// position (an entry with a prefix of at most 32 whose network equals
/// the address's masked bits).
pub proof fn lemma_in_lan_entrywise(i: Interface, lan: Seq<Cidr4>)
    ensures
        in_lan(i, lan) <==> usable(i) && lan.len() > 0 && match i.ip {
            IpAddr::V4(a) => exists|m: int|
                0 <= m < lan.len() && (#[trigger] lan[m]).prefix <= 32 && a@ & prefix_mask(
                    lan[m].prefix,
                ) == lan[m].network,
            IpAddr::V6(_) => false,
        },
{
}

/// The first usable interface whose name starts with `tailscale` is
/// chosen, whatever comes before or after it.
pub proof fn lemma_choice_tailscale(ifaces: Seq<Interface>, lan: Seq<Cidr4>, j: int)
    requires
        0 <= j < ifaces.len(),
        !ip_is_loopback(ifaces[j].ip),
        starts_with(ifaces[j].name@, tailscale_word()),
        forall|k: int|
            0 <= k < j ==> ip_is_loopback((#[trigger] ifaces[k]).ip) || !starts_with(
                ifaces[k].name@,
                tailscale_word(),
            ),
    ensures
        gateway_choice(ifaces, lan) == Some(ifaces[j].ip),
{
    lemma_first_ip_at(ifaces, |i: Interface| is_tailscale(i), j);
}

/// With no usable Tailscale interface, the first usable interface whose
/// IPv4 address lies in some entry of the (non-empty) LAN list is chosen,
/// ahead of any earlier usable interface outside the list.
pub proof fn lemma_choice_lan(ifaces: Seq<Interface>, lan: Seq<Cidr4>, j: int)
    requires
        lan.len() > 0,
        forall|k: int|
            0 <= k < ifaces.len() ==> ip_is_loopback((#[trigger] ifaces[k]).ip) || !starts_with(
                ifaces[k].name@,
                tailscale_word(),
            ),
        0 <= j < ifaces.len(),
        !ip_is_loopback(ifaces[j].ip),
        ifaces[j].ip matches IpAddr::V4(a) && exists|m: int|
            0 <= m < lan.len() && (#[trigger] lan[m]).prefix <= 32 && a@ & prefix_mask(
                lan[m].prefix,
            ) == lan[m].network,
        forall|k: int|
            0 <= k < j && !ip_is_loopback((#[trigger] ifaces[k]).ip) ==> match ifaces[k].ip {
                IpAddr::V4(a) => forall|m: int|
                    0 <= m < lan.len() && (#[trigger] lan[m]).prefix <= 32 ==> a@ & prefix_mask(
                        lan[m].prefix,
                    ) != lan[m].network,
                IpAddr::V6(_) => true,
            },
    ensures
        gateway_choice(ifaces, lan) == Some(ifaces[j].ip),
{
    let ts_p = |i: Interface| is_tailscale(i);
    let lan_p = |i: Interface| in_lan(i, lan);
    lemma_first_ip(ifaces, ts_p);
    assert forall|k: int| 0 <= k < ifaces.len() implies !ts_p(#[trigger] ifaces[k]) by {}
    assert forall|k: int| 0 <= k < j implies !lan_p(#[trigger] ifaces[k]) by {
        if lan_p(ifaces[k]) {
            if let IpAddr::V4(a) = ifaces[k].ip {
                let m = choose|m: int| 0 <= m < lan.len() && (#[trigger] lan[m]).wf() && lan[m].has(
                    a@,
                );
            }
        }
    }
    if let IpAddr::V4(a) = ifaces[j].ip {
        let m = choose|m: int|
            0 <= m < lan.len() && (#[trigger] lan[m]).prefix <= 32 && a@ & prefix_mask(
                lan[m].prefix,
            ) == lan[m].network;
        assert(lan[m].wf() && lan[m].has(a@));
    }
    lemma_first_ip_at(ifaces, lan_p, j);
}

/// With no usable Tailscale interface and no usable interface inside the
/// LAN list, the first usable interface is chosen; with no usable
/// interface at all, nothing is.
pub proof fn lemma_choice_fallback(ifaces: Seq<Interface>, lan: Seq<Cidr4>)
    requires
        forall|k: int|
            0 <= k < ifaces.len() ==> ip_is_loopback((#[trigger] ifaces[k]).ip) || (!starts_with(
                ifaces[k].name@,
                tailscale_word(),
            ) && (lan.len() == 0 || match ifaces[k].ip {
                IpAddr::V4(a) => forall|m: int|
                    0 <= m < lan.len() && (#[trigger] lan[m]).prefix <= 32 ==> a@ & prefix_mask(
                        lan[m].prefix,
                    ) != lan[m].network,
                IpAddr::V6(_) => true,
            })),
    ensures
        forall|j: int|
            0 <= j < ifaces.len() && !ip_is_loopback((#[trigger] ifaces[j]).ip) && (forall|k: int|
                0 <= k < j ==> ip_is_loopback((#[trigger] ifaces[k]).ip)) ==> gateway_choice(
                ifaces,
                lan,
            ) == Some(ifaces[j].ip),
        (forall|k: int| 0 <= k < ifaces.len() ==> ip_is_loopback((#[trigger] ifaces[k]).ip))
            ==> gateway_choice(ifaces, lan) is None,
{
    let ts_p = |i: Interface| is_tailscale(i);
    let lan_p = |i: Interface| in_lan(i, lan);
    let any_p = |i: Interface| usable(i);
    lemma_first_ip(ifaces, ts_p);
    lemma_first_ip(ifaces, lan_p);
    lemma_first_ip(ifaces, any_p);
    assert forall|k: int| 0 <= k < ifaces.len() implies !ts_p(#[trigger] ifaces[k]) by {}
    assert forall|k: int| 0 <= k < ifaces.len() implies !lan_p(#[trigger] ifaces[k]) by {
        if lan_p(ifaces[k]) {
            if let IpAddr::V4(a) = ifaces[k].ip {
                let m = choose|m: int| 0 <= m < lan.len() && (#[trigger] lan[m]).wf() && lan[m].has(
                    a@,
                );
            }
        }
    }
    assert forall|j: int|
        0 <= j < ifaces.len() && !ip_is_loopback((#[trigger] ifaces[j]).ip) && (forall|k: int|
            0 <= k < j ==> ip_is_loopback((#[trigger] ifaces[k]).ip)) implies gateway_choice(
        ifaces,
        lan,
    ) == Some(ifaces[j].ip) by {
        lemma_first_ip_at(ifaces, any_p, j);
    }
}

} // verus!
