//! IP addresses as plain values: IPv4 as its 32-bit number and IPv6 as
//! its 128-bit number, with the dotted-quad grammar for IPv4 text.
use vstd::prelude::*;

use crate::text::{
    all_digits, chars_of, decimal_text, decimal_value, is_digit, lemma_decimal_push,
    lemma_decimal_text, lemma_split_len, lemma_split_push_sep, push_decimal, split_on,
};

verus! {

/// An IPv4 address; its view is the address as a big-endian 32-bit number.
#[derive(Clone, Copy, Debug, PartialEq, Eq, Structural)]
pub struct Ipv4Addr {
    bits: u32,
}

/// An IPv6 address; its view is the address as a big-endian 128-bit number.
#[derive(Clone, Copy, Debug, PartialEq, Eq, Structural)]
pub struct Ipv6Addr {
    bits: u128,
}

/// An IPv4 or an IPv6 address.
#[derive(Clone, Copy, Debug, PartialEq, Eq, Structural)]
pub enum IpAddr {
    V4(Ipv4Addr),
    V6(Ipv6Addr),
}

impl View for Ipv4Addr {
    type V = u32;

    closed spec fn view(&self) -> u32 {
        self.bits
    }
}

impl View for Ipv6Addr {
    type V = u128;

    closed spec fn view(&self) -> u128 {
        self.bits
    }
}

/// The 32-bit number of the address `a.b.c.d`.
pub open spec fn ipv4_bits(a: u8, b: u8, c: u8, d: u8) -> u32 {
    (a * 16777216 + b * 65536 + c * 256 + d) as u32
}

/// The four octets of an IPv4 number, most significant first.
pub open spec fn ipv4_octets(bits: u32) -> Seq<u8> {
    seq![
        (bits / 16777216) as u8,
        ((bits / 65536) % 256) as u8,
        ((bits / 256) % 256) as u8,
        (bits % 256) as u8,
    ]
}

/// `127.0.0.0/8`, the IPv4 loopback block.
pub open spec fn ipv4_is_loopback(bits: u32) -> bool {
    bits / 16777216 == 127
}

/// The 128-bit number of the address with segments `a:b:c:d:e:f:g:h`.
pub open spec fn ipv6_bits(a: u16, b: u16, c: u16, d: u16, e: u16, f: u16, g: u16, h: u16) -> u128 {
    (((((((a * 65536 + b) * 65536 + c) * 65536 + d) * 65536 + e) * 65536 + f) * 65536 + g) * 65536
        + h) as u128
}

/// `::1`, the IPv6 loopback address.
pub open spec fn ipv6_is_loopback(bits: u128) -> bool {
    bits == 1
}

/// The IPv4 address inside an IPv4-mapped IPv6 address `::ffff:a.b.c.d`
/// (the first 80 bits zero, the next 16 bits one).
pub open spec fn ipv6_mapped_ipv4(bits: u128) -> Option<u32> {
    if bits / 4294967296 == 0xffff {
        Some((bits % 4294967296) as u32)
    } else {
        None
    }
}

// ---------------------------------------------------------------------
// Dotted-quad text
// ---------------------------------------------------------------------

/// One field of a dotted quad: one to three digits, no leading zero
/// unless the field is `0` itself, and a value that fits an octet.
pub open spec fn is_octet_text(t: Seq<char>) -> bool {
    &&& 1 <= t.len() <= 3
    &&& all_digits(t)
    &&& t.len() > 1 ==> t[0] != '0'
    &&& decimal_value(t) <= 255
}

/// The address that the text `s` spells, if it is a dotted quad
/// `a.b.c.d` (the grammar of `Ipv4Addr::from_str`).
pub open spec fn parse_ipv4_text(s: Seq<char>) -> Option<u32> {
    let f = split_on(s, '.');
    if f.len() == 4 && is_octet_text(f[0]) && is_octet_text(f[1]) && is_octet_text(f[2])
        && is_octet_text(f[3]) {
        Some(
            (decimal_value(f[0]) * 16777216 + decimal_value(f[1]) * 65536 + decimal_value(f[2])
                * 256 + decimal_value(f[3])) as u32,
        )
    } else {
        None
    }
}

/// The dotted-quad text of an IPv4 number (as `Display` writes it).
pub open spec fn ipv4_text(bits: u32) -> Seq<char> {
    let o = ipv4_octets(bits);
    decimal_text(o[0] as nat) + seq!['.'] + decimal_text(o[1] as nat) + seq!['.']
        + decimal_text(o[2] as nat) + seq!['.'] + decimal_text(o[3] as nat)
}

/// The value of `cs[a..b]` as an octet field, if it is one.
fn octet_at(cs: &Vec<char>, a: usize, b: usize) -> (r: Option<u8>)
    requires
        a <= b <= cs@.len(),
    ensures
        r is Some <==> is_octet_text(cs@.subrange(a as int, b as int)),
        r matches Some(v) ==> v == decimal_value(cs@.subrange(a as int, b as int)),
{
    let ghost t = cs@.subrange(a as int, b as int);
    if b - a == 0 || b - a > 3 {
        return None;
    }
    let mut k = a;
    let mut v: u32 = 0;
    while k < b
        invariant
            a <= k <= b <= cs@.len(),
            b - a <= 3,
            t == cs@.subrange(a as int, b as int),
            all_digits(t.take(k - a)),
            v == decimal_value(t.take(k - a)),
            v < 1000,
            v <= 99 || k == b,
            k - a <= 1 ==> v <= 9,
            k - a <= 2 ==> v <= 99,
        decreases b - k,
    {
        let c = cs[k];
        let u = c as u32;
        if u < 48 || u > 57 {
            assert(!is_digit(t[k - a]));
            return None;
        }
        proof {
            assert(t.take(k + 1 - a) =~= t.take(k - a).push(c));
            lemma_decimal_push(t.take(k - a), c);
        }
        v = v * 10 + (u - 48);
        k = k + 1;
    }
    assert(t.take(b - a) =~= t);
    if b - a > 1 && cs[a] == '0' {
        return None;
    }
    if v > 255 {
        return None;
    }
    Some(v as u8)
}

/// Horner's rule over the values of octet fields.
pub open spec fn octet_fields_value(f: Seq<Seq<char>>) -> nat
    decreases f.len(),
{
    if f.len() == 0 {
        0
    } else {
        octet_fields_value(f.drop_last()) * 256 + decimal_value(f.last())
    }
}

/// Parses `cs[lo..hi]` as a dotted quad.
pub fn parse_ipv4_range(cs: &Vec<char>, lo: usize, hi: usize) -> (r: Option<u32>)
    requires
        lo <= hi <= cs@.len(),
    ensures
        r == parse_ipv4_text(cs@.subrange(lo as int, hi as int)),
{
    let ghost s = cs@.subrange(lo as int, hi as int);
    let mut i = lo;
    let mut start = lo;
    let mut dots: usize = 0;
    let mut ok = true;
    let mut acc: u32 = 0;
    while i < hi
        invariant
            lo <= start <= i <= hi <= cs@.len(),
            s == cs@.subrange(lo as int, hi as int),
            split_on(s.take(i - lo), '.').len() == dots + 1,
            split_on(s.take(i - lo), '.').last() == cs@.subrange(start as int, i as int),
            ok == (dots <= 3 && forall|j: int|
                0 <= j < dots ==> is_octet_text(#[trigger] split_on(s.take(i - lo), '.')[j])),
            ok ==> acc == octet_fields_value(split_on(s.take(i - lo), '.').take(dots as int)),
            ok ==> acc < 16777216,
            ok && dots <= 2 ==> acc < 65536,
            ok && dots <= 1 ==> acc < 256,
            ok && dots == 0 ==> acc == 0,
            dots <= i - lo,
        decreases hi - i,
    {
        let ghost p = s.take(i - lo);
        let ghost sp = split_on(p, '.');
        let c = cs[i];
        proof {
            assert(s.take(i + 1 - lo) =~= p.push(c));
            assert(p.push(c).drop_last() =~= p);
            lemma_split_len(p, '.');
        }
        if c == '.' {
            proof {
                lemma_split_push_sep(p, '.');
            }
            if ok {
                if dots >= 3 {
                    ok = false;
                } else {
                    match octet_at(cs, start, i) {
                        Some(v) => {
                            proof {
                                let sp2 = split_on(s.take(i + 1 - lo), '.');
                                assert(sp2.take(dots + 1) =~= sp.take(dots as int).push(
                                    sp[dots as int],
                                ));
                                assert(sp2.take(dots + 1).drop_last() =~= sp.take(dots as int));
                                assert forall|j: int| 0 <= j < dots + 1 implies is_octet_text(
                                    #[trigger] sp2[j],
                                ) by {
                                    assert(sp2[j] == sp[j]);
                                }
                            }
                            acc = acc * 256 + v as u32;
                        },
                        None => {
                            proof {
                                let sp2 = split_on(s.take(i + 1 - lo), '.');
                                assert(sp2[dots as int] == sp[dots as int]);
                                assert(!is_octet_text(sp2[dots as int]));
                            }
                            ok = false;
                        },
                    }
                }
            } else {
                proof {
                    let sp2 = split_on(s.take(i + 1 - lo), '.');
                    assert forall|j: int| 0 <= j < dots implies #[trigger] sp2[j] == sp[j] by {}
                    if dots <= 3 {
                        let j = choose|j: int| 0 <= j < dots && !is_octet_text(#[trigger] sp[j]);
                        assert(sp2[j] == sp[j]);
                    }
                }
            }
            dots = dots + 1;
            start = i + 1;
            proof {
                let sp2 = split_on(s.take(i + 1 - lo), '.');
                assert(sp2.last() =~= cs@.subrange(start as int, i + 1));
                if ok {
                    assert(sp2.take(dots as int) =~= sp.take(dots - 1).push(sp[dots - 1]));
                }
            }
        } else {
            proof {
                let sp2 = split_on(s.take(i + 1 - lo), '.');
                assert(sp2 == sp.update(sp.len() - 1, sp.last().push(c)));
                assert(sp2.last() =~= cs@.subrange(start as int, i + 1));
                assert forall|j: int| 0 <= j < dots implies #[trigger] sp2[j] == sp[j] by {}
                assert(sp2.take(dots as int) =~= sp.take(dots as int));
                if !ok && dots <= 3 {
                    let j = choose|j: int| 0 <= j < dots && !is_octet_text(#[trigger] sp[j]);
                    assert(sp2[j] == sp[j]);
                }
            }
        }
        i = i + 1;
    }
    proof {
        assert(s.take(hi - lo) =~= s);
    }
    if !ok || dots != 3 {
        return None;
    }
    match octet_at(cs, start, hi) {
        Some(v) => {
            proof {
                let f = split_on(s, '.');
                reveal_with_fuel(octet_fields_value, 4);
                assert(f.take(3).drop_last().drop_last().drop_last() =~= Seq::<
                    Seq<char>,
                >::empty());
                assert(f.take(3).drop_last().drop_last() =~= seq![f[0]]);
                assert(f.take(3).drop_last() =~= seq![f[0], f[1]]);
                assert(f.take(3).last() == f[2]);
                assert(f.take(3).drop_last().last() == f[1]);
                assert(seq![f[0]].drop_last() =~= Seq::<Seq<char>>::empty());
                assert(octet_fields_value(seq![f[0]]) == decimal_value(f[0]));
            }
            Some(acc * 256 + v as u32)
        },
        None => None,
    }
}

impl Ipv4Addr {
    /// The address `a.b.c.d`.
    pub fn new(a: u8, b: u8, c: u8, d: u8) -> (r: Ipv4Addr)
        ensures
            r@ == ipv4_bits(a, b, c, d),
    {
        Ipv4Addr { bits: a as u32 * 16777216 + b as u32 * 65536 + c as u32 * 256 + d as u32 }
    }

    /// The address with the given 32-bit number.
    pub fn from_bits(bits: u32) -> (r: Ipv4Addr)
        ensures
            r@ == bits,
    {
        Ipv4Addr { bits }
    }

    /// The address as a big-endian 32-bit number.
    pub fn to_bits(&self) -> (r: u32)
        ensures
            r == self@,
    {
        self.bits
    }

    /// The four octets, most significant first.
    pub fn octets(&self) -> (r: [u8; 4])
        ensures
            r@ == ipv4_octets(self@),
    {
        let b = self.bits;
        let r = [(b / 16777216) as u8, ((b / 65536) % 256) as u8, ((b / 256) % 256) as u8, (b
            % 256) as u8];
        assert(r@ =~= ipv4_octets(self@));
        r
    }

    /// Whether the address lies in `127.0.0.0/8`.
    pub fn is_loopback(&self) -> (r: bool)
        ensures
            r == ipv4_is_loopback(self@),
    {
        self.bits / 16777216 == 127
    }

    /// Parses a dotted quad `a.b.c.d`; `None` on any other text
    /// (surrounding white space included).
    pub fn parse(s: &str) -> (r: Option<Ipv4Addr>)
        ensures
            r is Some <==> parse_ipv4_text(s@) is Some,
            r matches Some(a) ==> parse_ipv4_text(s@) == Some(a@),
    {
        let cs = chars_of(s);
        assert(cs@.subrange(0, cs@.len() as int) =~= s@);
        match parse_ipv4_range(&cs, 0, cs.len()) {
            Some(bits) => Some(Ipv4Addr { bits }),
            None => None,
        }
    }

    /// The dotted-quad text of the address.
    pub fn to_string(&self) -> (r: String)
        ensures
            r@ == ipv4_text(self@),
    {
        let mut out: Vec<char> = Vec::new();
        push_ipv4_text(&mut out, self.bits);
        string_of(&out)
    }
}

/// Appends the dotted-quad text of `bits` to `out`.
pub fn push_ipv4_text(out: &mut Vec<char>, bits: u32)
    ensures
        final(out)@ == old(out)@ + ipv4_text(bits),
{
    let ghost o = ipv4_octets(bits);
    push_decimal(out, (bits / 16777216) as u64);
    out.push('.');
    push_decimal(out, ((bits / 65536) % 256) as u64);
    out.push('.');
    push_decimal(out, ((bits / 256) % 256) as u64);
    out.push('.');
    push_decimal(out, (bits % 256) as u64);
    assert(final(out)@ =~= old(out)@ + ipv4_text(bits));
}

/// A `String` holding the characters of `cs`.
pub fn string_of(cs: &Vec<char>) -> (r: String)
    ensures
        r@ == cs@,
{
    let mut r = String::new();
    let mut k: usize = 0;
    while k < cs.len()
        invariant
            k <= cs@.len(),
            r@ == cs@.take(k as int),
        decreases cs@.len() - k,
    {
        push_char(&mut r, cs[k]);
        assert(cs@.take(k + 1) =~= cs@.take(k as int).push(cs@[k as int]));
        k = k + 1;
    }
    assert(cs@.take(cs@.len() as int) =~= cs@);
    r
}

/// Calls `String::push`. The contract claims that afterwards the string
/// holds its former characters followed by `c`, as std documents.
#[verifier::external_body]
fn push_char(s: &mut String, c: char)
    ensures
        final(s)@ == old(s)@.push(c),
{
    s.push(c);
}

impl Ipv6Addr {
    /// The address with the eight given segments.
    pub fn new(a: u16, b: u16, c: u16, d: u16, e: u16, f: u16, g: u16, h: u16) -> (r: Ipv6Addr)
        ensures
            r@ == ipv6_bits(a, b, c, d, e, f, g, h),
    {
        let w: u128 = 65536;
        let bits = ((((((a as u128 * w + b as u128) * w + c as u128) * w + d as u128) * w
            + e as u128) * w + f as u128) * w + g as u128) * w + h as u128;
        Ipv6Addr { bits }
    }

    /// The address with the given 128-bit number.
    pub fn from_bits(bits: u128) -> (r: Ipv6Addr)
        ensures
            r@ == bits,
    {
        Ipv6Addr { bits }
    }

    /// The address as a big-endian 128-bit number.
    pub fn to_bits(&self) -> (r: u128)
        ensures
            r == self@,
    {
        self.bits
    }

    /// Whether this is `::1`.
    pub fn is_loopback(&self) -> (r: bool)
        ensures
            r == ipv6_is_loopback(self@),
    {
        self.bits == 1
    }

    /// The IPv4 address of an IPv4-mapped address `::ffff:a.b.c.d`.
    pub fn to_ipv4_mapped(&self) -> (r: Option<Ipv4Addr>)
        ensures
            r is Some <==> ipv6_mapped_ipv4(self@) is Some,
            r matches Some(a) ==> ipv6_mapped_ipv4(self@) == Some(a@),
    {
        if self.bits / 4294967296 == 0xffff {
            Some(Ipv4Addr { bits: (self.bits % 4294967296) as u32 })
        } else {
            None
        }
    }
}

// ---------------------------------------------------------------------
// Laws of the dotted-quad text
// ---------------------------------------------------------------------

/// The shortest decimal text of an octet is an octet field.
pub proof fn lemma_octet_text(v: u8)
    ensures
        is_octet_text(decimal_text(v as nat)),
        decimal_value(decimal_text(v as nat)) == v,
        crate::text::free_of(decimal_text(v as nat), '.'),
{
    lemma_decimal_text(v as nat);
    let t = decimal_text(v as nat);
    assert forall|i: int| 0 <= i < t.len() implies #[trigger] t[i] != '.' by {
        assert(is_digit(t[i]));
    }
}

/// The dotted-quad text holds only digits and dots, and starts and ends
/// with a digit.
pub proof fn lemma_ipv4_text_chars(bits: u32)
    ensures
        ipv4_text(bits).len() >= 1,
        forall|i: int|
            0 <= i < ipv4_text(bits).len() ==> is_digit(#[trigger] ipv4_text(bits)[i])
                || ipv4_text(bits)[i] == '.',
        is_digit(ipv4_text(bits)[0]),
        is_digit(ipv4_text(bits).last()),
{
    let o = ipv4_octets(bits);
    let t0 = decimal_text(o[0] as nat);
    let t1 = decimal_text(o[1] as nat);
    let t2 = decimal_text(o[2] as nat);
    let t3 = decimal_text(o[3] as nat);
    lemma_decimal_text(o[0] as nat);
    lemma_decimal_text(o[1] as nat);
    lemma_decimal_text(o[2] as nat);
    lemma_decimal_text(o[3] as nat);
    let t = ipv4_text(bits);
    let d = seq!['.'];
    assert forall|i: int| 0 <= i < t.len() implies is_digit(#[trigger] t[i]) || t[i] == '.' by {
        let l0 = t0.len() as int;
        let l1 = t1.len() as int;
        let l2 = t2.len() as int;
        if i < l0 {
            assert(t[i] == t0[i]);
        } else if i == l0 {
        } else if i < l0 + 1 + l1 {
            assert(t[i] == t1[i - l0 - 1]);
        } else if i == l0 + 1 + l1 {
        } else if i < l0 + 2 + l1 + l2 {
            assert(t[i] == t2[i - l0 - l1 - 2]);
        } else if i == l0 + 2 + l1 + l2 {
        } else {
            assert(t[i] == t3[i - l0 - l1 - l2 - 3]);
        }
    }
    assert(t[0] == t0[0]);
    assert(t.last() == t3.last());
}

/// Reading the dotted-quad text of an address gives the address back.
pub proof fn lemma_ipv4_text_roundtrip(bits: u32)
    ensures
        parse_ipv4_text(ipv4_text(bits)) == Some(bits),
{
    let o = ipv4_octets(bits);
    let t0 = decimal_text(o[0] as nat);
    let t1 = decimal_text(o[1] as nat);
    let t2 = decimal_text(o[2] as nat);
    let t3 = decimal_text(o[3] as nat);
    lemma_octet_text(o[0]);
    lemma_octet_text(o[1]);
    lemma_octet_text(o[2]);
    lemma_octet_text(o[3]);
    let e = Seq::<char>::empty();
    crate::text::lemma_split_free(t0, '.');
    lemma_split_push_sep(t0, '.');
    crate::text::lemma_split_append_free(t0.push('.'), t1, '.');
    assert(t0.push('.') + t1 == t0 + seq!['.'] + t1);
    let x1 = t0 + seq!['.'] + t1;
    lemma_split_push_sep(x1, '.');
    crate::text::lemma_split_append_free(x1.push('.'), t2, '.');
    assert(x1.push('.') + t2 == x1 + seq!['.'] + t2);
    let x2 = x1 + seq!['.'] + t2;
    lemma_split_push_sep(x2, '.');
    crate::text::lemma_split_append_free(x2.push('.'), t3, '.');
    assert(x2.push('.') + t3 == x2 + seq!['.'] + t3);
    assert(x2 + seq!['.'] + t3 == ipv4_text(bits));
    let f = split_on(ipv4_text(bits), '.');
    assert(split_on(t0.push('.'), '.') =~= seq![t0, e]);
    assert(split_on(x1, '.') =~= seq![t0, t1]) by {
        assert(e + t1 =~= t1);
    }
    assert(split_on(x2, '.') =~= seq![t0, t1, t2]) by {
        assert(e + t2 =~= t2);
    }
    assert(f =~= seq![t0, t1, t2, t3]) by {
        assert(e + t3 =~= t3);
    }
}

} // verus!

verus! {

/// The dotted-quad grammar accepts exactly the printed spellings: a text
/// reads as the address `b` if and only if it is `b`'s dotted-quad text
/// (no leading zeros, no signs, no spaces, exactly four fields).
pub proof fn lemma_ipv4_text_exact(s: Seq<char>, b: u32)
    ensures
        parse_ipv4_text(s) == Some(b) <==> s == ipv4_text(b),
{
    lemma_ipv4_text_roundtrip(b);
    if parse_ipv4_text(s) == Some(b) {
        let f = split_on(s, '.');
        let v0 = decimal_value(f[0]);
        let v1 = decimal_value(f[1]);
        let v2 = decimal_value(f[2]);
        let v3 = decimal_value(f[3]);
        crate::text::lemma_decimal_canonical(f[0]);
        crate::text::lemma_decimal_canonical(f[1]);
        crate::text::lemma_decimal_canonical(f[2]);
        crate::text::lemma_decimal_canonical(f[3]);
        assert(b == v0 * 16777216 + v1 * 65536 + v2 * 256 + v3);
        let o = ipv4_octets(b);
        assert(o[0] == v0 && o[1] == v1 && o[2] == v2 && o[3] == v3) by (nonlinear_arith)
            requires
                v0 <= 255,
                v1 <= 255,
                v2 <= 255,
                v3 <= 255,
                b == v0 * 16777216 + v1 * 65536 + v2 * 256 + v3,
                o[0] == (b / 16777216) as u8,
                o[1] == ((b / 65536) % 256) as u8,
                o[2] == ((b / 256) % 256) as u8,
                o[3] == (b % 256) as u8,
        ;
        crate::text::lemma_join_split(s, '.');
        reveal_with_fuel(crate::text::join_on, 4);
        assert(f.drop_last().drop_last().drop_last() =~= seq![f[0]]);
        assert(f.drop_last().drop_last() =~= seq![f[0], f[1]]);
        assert(f.drop_last() =~= seq![f[0], f[1], f[2]]);
        assert(crate::text::join_on(f, '.') == f[0] + seq!['.'] + f[1] + seq!['.'] + f[2]
            + seq!['.'] + f[3]);
    }
}

} // verus!
