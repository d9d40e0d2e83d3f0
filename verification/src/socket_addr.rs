//! Socket addresses: an IP address with a port, and their textual form.
//!
//! The text of an IPv4 socket address is `a.b.c.d:port`; that of an IPv6 one
//! is `[address]:port` or `[address%scope]:port`.
use vstd::prelude::*;
use vstd::slice::slice_subrange;

use crate::number::read_number;
#[allow(unused_imports)]
use crate::number::{
    digit_value, digits, is_digits, lemma_digits_avoid, lemma_digits_len, lemma_digits_read_back,
    number, positional,
};
use crate::text::{chars_of, find, pieces};
#[allow(unused_imports)]
use crate::text::{
    first_index, join, lemma_first_index, lemma_first_index_is, lemma_split_covers,
    lemma_split_join, lemma_split_nonempty, lemma_split_once, split,
};

verus! {

/// An IP address with a port.
#[allow(inconsistent_fields)]
#[derive(Clone, Copy, Debug, PartialEq, Eq, Structural)]
pub enum SocketAddr {
    /// An IPv4 address, the first octet of its text in the highest byte.
    V4 { ip: u32, port: u16 },
    /// An IPv6 address, the first group of its text in the highest sixteen
    /// bits, and the numeric scope that it is meant in, zero where none is
    /// given.
    V6 { ip: u128, port: u16, scope_id: u32 },
}

/// A text that is no socket address.
#[derive(Clone, Copy, Debug, PartialEq, Eq, Structural)]
pub struct SocketAddrParseError;

/// An octet of an IPv4 address: at most three decimal digits, no leading zero
/// before another digit, no more than 255.
pub open spec fn octet(s: Seq<char>) -> Option<int> {
    if s.len() > 3 || (s.len() > 1 && s[0] == '0') {
        None
    } else {
        number(s, 10, 255)
    }
}

/// Four octets separated by dots.
pub open spec fn ipv4(s: Seq<char>) -> Option<u32> {
    let p = split(s, '.');
    if p.len() == 4 && octet(p[0]) is Some && octet(p[1]) is Some && octet(p[2]) is Some && octet(
        p[3],
    ) is Some {
        Some(
            (octet(p[0])->0 * 0x100_0000 + octet(p[1])->0 * 0x1_0000 + octet(p[2])->0 * 0x100
                + octet(p[3])->0) as u32,
        )
    } else {
        None
    }
}

/// A group of an IPv6 address: one to four hexadecimal digits.
pub open spec fn hextet(s: Seq<char>) -> Option<u16> {
    if s.len() > 4 || number(s, 16, 0xffff) is None {
        None
    } else {
        Some(number(s, 16, 0xffff)->0 as u16)
    }
}

/// Whether every piece is a group.
pub open spec fn all_hextets(p: Seq<Seq<char>>) -> bool {
    forall|i: int| 0 <= i < p.len() ==> hextet(#[trigger] p[i]) is Some
}

/// The values of groups.
pub open spec fn hextet_values(p: Seq<Seq<char>>) -> Seq<u16> {
    p.map_values(|s: Seq<char>| hextet(s)->0)
}

/// The groups between colons, none where there is no text. Where it is
/// allowed, an IPv4 address may stand last: it fills two groups.
pub open spec fn groups(s: Seq<char>, ipv4_allowed: bool) -> Option<Seq<u16>> {
    let p = split(s, ':');
    if s.len() == 0 {
        Some(seq![])
    } else if all_hextets(p) {
        Some(hextet_values(p))
    } else if ipv4_allowed && all_hextets(p.drop_last()) && ipv4(p.last()) is Some {
        let low = ipv4(p.last())->0;
        Some(hextet_values(p.drop_last()) + seq![(low / 0x1_0000) as u16, (low % 0x1_0000) as u16])
    } else {
        None
    }
}

/// The index of the first `::`, or the length where there is none.
pub open spec fn first_gap(s: Seq<char>) -> int
    decreases s.len(),
{
    if s.len() == 0 || (s.len() > 1 && s[0] == ':' && s[1] == ':') {
        0
    } else {
        1 + first_gap(s.skip(1))
    }
}

/// `n` groups of zero.
pub open spec fn zero_groups(n: int) -> Seq<u16> {
    Seq::new(n as nat, |i: int| 0u16)
}

/// The eight groups of an IPv6 address. All eight are written, or one `::`
/// stands for as many groups of zero, at least one, as the others leave open.
/// An IPv4 address may stand for the last two, not for two before a `::`.
pub open spec fn ipv6(s: Seq<char>) -> Option<Seq<u16>> {
    let gap = first_gap(s);
    if gap < s.len() {
        let head = groups(s.take(gap), false);
        let tail = groups(s.skip(gap + 2), true);
        if head is Some && tail is Some && head->0.len() + tail->0.len() <= 7 {
            Some(head->0 + zero_groups(8 - head->0.len() - tail->0.len()) + tail->0)
        } else {
            None
        }
    } else if groups(s, true) is Some && groups(s, true)->0.len() == 8 {
        groups(s, true)
    } else {
        None
    }
}

/// Eight groups as one number.
pub open spec fn group_bits(g: Seq<u16>) -> u128 {
    (g[0] * 0x1_0000_0000_0000_0000_0000_0000_0000 + g[1] * 0x1_0000_0000_0000_0000_0000_0000 + g[2]
        * 0x1_0000_0000_0000_0000_0000 + g[3] * 0x1_0000_0000_0000_0000 + g[4] * 0x1_0000_0000_0000
        + g[5] * 0x1_0000_0000 + g[6] * 0x1_0000 + g[7]) as u128
}

/// `a.b.c.d:port`.
pub open spec fn socket_addr_v4(s: Seq<char>) -> Option<SocketAddr> {
    let i = first_index(s, ':');
    if i < s.len() && ipv4(s.take(i)) is Some && number(s.skip(i + 1), 10, 0xffff) is Some {
        Some(
            SocketAddr::V4 {
                ip: ipv4(s.take(i))->0,
                port: number(s.skip(i + 1), 10, 0xffff)->0 as u16,
            },
        )
    } else {
        None
    }
}

/// What stands between the brackets: an IPv6 address, and after a percent
/// sign the number of its scope.
pub open spec fn scoped_ipv6(s: Seq<char>) -> Option<(Seq<u16>, u32)> {
    let i = first_index(s, '%');
    if ipv6(s.take(i)) is None {
        None
    } else if i == s.len() {
        Some((ipv6(s.take(i))->0, 0u32))
    } else if number(s.skip(i + 1), 10, 0xffff_ffff) is Some {
        Some((ipv6(s.take(i))->0, number(s.skip(i + 1), 10, 0xffff_ffff)->0 as u32))
    } else {
        None
    }
}

/// `[address]:port`.
pub open spec fn socket_addr_v6(s: Seq<char>) -> Option<SocketAddr> {
    let i = first_index(s, ']');
    if s.len() > 0 && s[0] == '[' && i + 1 < s.len() && s[i + 1] == ':' && scoped_ipv6(
        s.subrange(1, i),
    ) is Some && number(s.skip(i + 2), 10, 0xffff) is Some {
        let (g, scope_id) = scoped_ipv6(s.subrange(1, i))->0;
        Some(
            SocketAddr::V6 {
                ip: group_bits(g),
                port: number(s.skip(i + 2), 10, 0xffff)->0 as u16,
                scope_id,
            },
        )
    } else {
        None
    }
}

/// The socket address that a text writes.
pub open spec fn socket_addr(s: Seq<char>) -> Option<SocketAddr> {
    if socket_addr_v4(s) is Some {
        socket_addr_v4(s)
    } else {
        socket_addr_v6(s)
    }
}

/// The first gap is two colons, and there are none before it.
pub proof fn lemma_first_gap(s: Seq<char>)
    ensures
        0 <= first_gap(s) <= s.len(),
        first_gap(s) < s.len() ==> first_gap(s) + 1 < s.len() && s[first_gap(s)] == ':'
            && s[first_gap(s) + 1] == ':',
        forall|j: int| 0 <= j < first_gap(s) && j + 1 < s.len() ==> !(#[trigger] s[j] == ':' && s[j
            + 1] == ':'),
    decreases s.len(),
{
    if !(s.len() == 0 || (s.len() > 1 && s[0] == ':' && s[1] == ':')) {
        let t = s.skip(1);
        lemma_first_gap(t);
        assert forall|j: int| 0 <= j < first_gap(s) && j + 1 < s.len() implies !(#[trigger] s[j]
            == ':' && s[j + 1] == ':') by {
            if j > 0 {
                assert(t[j - 1] == s[j]);
                assert(t[j] == s[j + 1]);
            }
        }
    }
}

/// Only one index is the first gap.
pub proof fn lemma_first_gap_is(s: Seq<char>, i: int)
    requires
        0 <= i <= s.len(),
        i < s.len() ==> i + 1 < s.len() && s[i] == ':' && s[i + 1] == ':',
        forall|j: int| 0 <= j < i && j + 1 < s.len() ==> !(#[trigger] s[j] == ':' && s[j + 1]
            == ':'),
    ensures
        first_gap(s) == i,
{
    lemma_first_gap(s);
    let k = first_gap(s);
    if k < i {
        assert(s[k] == ':');
    } else if i < k {
        assert(s[i] == ':');
    }
}

/// The characters that IP addresses are written in.
pub open spec fn is_ip_char(c: char) -> bool {
    digit_value(c) >= 0 || c == '.' || c == ':'
}

/// The characters that socket addresses are written in.
pub open spec fn is_address_char(c: char) -> bool {
    is_ip_char(c) || c == '[' || c == ']' || c == '%'
}

/// Whether all of a text is written in the characters of IP addresses.
pub open spec fn in_ip_chars(s: Seq<char>) -> bool {
    forall|i: int| 0 <= i < s.len() ==> is_ip_char(#[trigger] s[i])
}

/// Whether all of a text is written in the characters of socket addresses.
pub open spec fn in_address_chars(s: Seq<char>) -> bool {
    forall|i: int| 0 <= i < s.len() ==> is_address_char(#[trigger] s[i])
}

proof fn lemma_ipv4_chars(s: Seq<char>)
    requires
        ipv4(s) is Some,
    ensures
        in_ip_chars(s),
{
    let p = split(s, '.');
    let ok = |c: char| is_ip_char(c);
    assert forall|k: int, i: int| 0 <= k < p.len() && 0 <= i < p[k].len() implies ok(
        #[trigger] p[k][i],
    ) by {
        assert(k == 0 || k == 1 || k == 2 || k == 3);
        assert(octet(p[k]) is Some);
        assert(is_digits(p[k], 10));
    }
    lemma_split_covers(s, '.', ok);
    assert forall|i: int| 0 <= i < s.len() implies is_ip_char(#[trigger] s[i]) by {
        assert(ok(s[i]));
    }
}

proof fn lemma_groups_chars(s: Seq<char>, ipv4_allowed: bool)
    requires
        groups(s, ipv4_allowed) is Some,
    ensures
        in_ip_chars(s),
{
    if s.len() > 0 {
        let p = split(s, ':');
        let ok = |c: char| is_ip_char(c);
        assert forall|k: int, i: int| 0 <= k < p.len() && 0 <= i < p[k].len() implies ok(
            #[trigger] p[k][i],
        ) by {
            if hextet(p[k]) is Some {
                assert(is_digits(p[k], 16));
            } else {
                if k < p.len() - 1 {
                    assert(p.drop_last()[k] == p[k]);
                }
                lemma_ipv4_chars(p[k]);
                assert(is_ip_char(p[k][i]));
            }
        }
        lemma_split_covers(s, ':', ok);
        assert forall|i: int| 0 <= i < s.len() implies is_ip_char(#[trigger] s[i]) by {
            assert(ok(s[i]));
        }
    }
}

/// An IPv6 address is written in the characters of IP addresses.
pub proof fn lemma_ipv6_chars(s: Seq<char>)
    requires
        ipv6(s) is Some,
    ensures
        in_ip_chars(s),
{
    let gap = first_gap(s);
    lemma_first_gap(s);
    if gap < s.len() {
        let head = s.take(gap);
        let tail = s.skip(gap + 2);
        lemma_groups_chars(head, false);
        lemma_groups_chars(tail, true);
        assert forall|i: int| 0 <= i < s.len() implies is_ip_char(#[trigger] s[i]) by {
            if i < gap {
                assert(is_ip_char(head[i]));
            } else if i >= gap + 2 {
                assert(is_ip_char(tail[i - gap - 2]));
            }
        }
    } else {
        lemma_groups_chars(s, true);
    }
}

/// A socket address is written in digits, dots, colons, brackets and percent
/// signs alone.
pub proof fn address_text_is_plain(s: Seq<char>)
    requires
        socket_addr(s) is Some,
    ensures
        in_address_chars(s),
{
    if socket_addr_v4(s) is Some {
        let i = first_index(s, ':');
        lemma_first_index(s, ':');
        let head = s.take(i);
        let tail = s.skip(i + 1);
        lemma_ipv4_chars(head);
        assert forall|j: int| 0 <= j < s.len() implies is_address_char(#[trigger] s[j]) by {
            if j < i {
                assert(is_ip_char(head[j]));
            } else if j > i {
                assert(digit_value(tail[j - i - 1]) >= 0);
            }
        }
    } else {
        let i = first_index(s, ']');
        lemma_first_index(s, ']');
        let inside = s.subrange(1, i);
        let tail = s.skip(i + 2);
        let k = first_index(inside, '%');
        lemma_first_index(inside, '%');
        let ip = inside.take(k);
        lemma_ipv6_chars(ip);
        assert forall|j: int| 0 <= j < s.len() implies is_address_char(#[trigger] s[j]) by {
            if 0 < j < i {
                assert(inside[j - 1] == s[j]);
                if j - 1 < k {
                    assert(is_ip_char(ip[j - 1]));
                } else if j - 1 > k {
                    let scope = inside.skip(k + 1);
                    assert(digit_value(scope[j - 2 - k]) >= 0);
                }
            } else if j > i + 1 {
                assert(digit_value(tail[j - i - 2]) >= 0);
            }
        }
    }
}

/// The text of an IPv4 address.
pub open spec fn ipv4_text(a: u8, b: u8, c: u8, d: u8) -> Seq<char> {
    digits(a as nat, 10) + seq!['.'] + (digits(b as nat, 10) + seq!['.'] + (digits(c as nat, 10)
        + seq!['.'] + digits(d as nat, 10)))
}

/// The text of an IPv4 address with a port.
pub open spec fn v4_text(a: u8, b: u8, c: u8, d: u8, port: u16) -> Seq<char> {
    ipv4_text(a, b, c, d) + seq![':'] + digits(port as nat, 10)
}

/// Groups in hexadecimal, a colon between each two.
pub open spec fn groups_text(g: Seq<u16>) -> Seq<char> {
    join(g.map_values(|x: u16| digits(x as nat, 16)), ':')
}

/// The text of an IPv6 address with the groups from `from` up to `to` left out
/// for a `::`.
pub open spec fn compressed_text(g: Seq<u16>, from: int, to: int) -> Seq<char> {
    groups_text(g.take(from)) + seq![':', ':'] + groups_text(g.skip(to))
}

/// The text of an IPv4 address mapped into IPv6.
pub open spec fn mapped_text(a: u8, b: u8, c: u8, d: u8) -> Seq<char> {
    "::ffff:"@ + ipv4_text(a, b, c, d)
}

/// The text of an IPv6 address with a port, and with its scope where that is
/// not zero, given the text of the address.
pub open spec fn v6_text(ip: Seq<char>, port: u16, scope_id: u32) -> Seq<char> {
    seq!['['] + ip + (if scope_id == 0 {
        seq![]
    } else {
        seq!['%'] + digits(scope_id as nat, 10)
    }) + seq![']', ':'] + digits(port as nat, 10)
}

proof fn lemma_octet_reads_back(n: u8)
    ensures
        octet(digits(n as nat, 10)) == Some(n as int),
        !digits(n as nat, 10).contains('.'),
        !digits(n as nat, 10).contains(':'),
{
    lemma_digits_read_back(n as nat, 10);
    lemma_digits_len(n as nat, 10);
    lemma_digits_avoid(digits(n as nat, 10), 10, '.');
    lemma_digits_avoid(digits(n as nat, 10), 10, ':');
}

/// The text of an IPv4 address reads back.
pub proof fn lemma_ipv4_reads_back(a: u8, b: u8, c: u8, d: u8)
    ensures
        ipv4(ipv4_text(a, b, c, d)) == Some(
            (a * 0x100_0000 + b * 0x1_0000 + c * 0x100 + d) as u32,
        ),
        ipv4_text(a, b, c, d).contains('.'),
        !ipv4_text(a, b, c, d).contains(':'),
{
    lemma_octet_reads_back(a);
    lemma_octet_reads_back(b);
    lemma_octet_reads_back(c);
    lemma_octet_reads_back(d);
    let ta = digits(a as nat, 10);
    let tb = digits(b as nat, 10);
    let tc = digits(c as nat, 10);
    let td = digits(d as nat, 10);
    let cd = tc + seq!['.'] + td;
    let bcd = tb + seq!['.'] + cd;
    let ip = ta + seq!['.'] + bcd;
    lemma_first_index(td, '.');
    assert(split(td, '.') =~= seq![td]);
    lemma_split_once(tc, '.', td);
    lemma_split_once(tb, '.', cd);
    lemma_split_once(ta, '.', bcd);
    assert(split(ip, '.') =~= seq![ta, tb, tc, td]);
    assert(ip[ta.len() as int] == '.');
    lemma_concatenation_avoids(tc, td, ':');
    lemma_concatenation_avoids(tb, cd, ':');
    lemma_concatenation_avoids(ta, bcd, ':');
}

proof fn lemma_concatenation_avoids(a: Seq<char>, b: Seq<char>, c: char)
    requires
        !a.contains(c),
        !b.contains(c),
        c != '.',
    ensures
        !(a + seq!['.'] + b).contains(c),
{
    let s = a + seq!['.'] + b;
    assert forall|j: int| 0 <= j < s.len() implies s[j] != c by {
        if j < a.len() {
            assert(a.contains(a[j]));
        } else if j > a.len() {
            assert(b.contains(b[j - a.len() - 1]));
        }
    }
}

/// Every IPv4 address and port has a text, and the text reads back as the
/// address and the port.
pub proof fn every_ipv4_address_reads_back(a: u8, b: u8, c: u8, d: u8, port: u16)
    ensures
        socket_addr(v4_text(a, b, c, d, port)) == Some(
            SocketAddr::V4 {
                ip: (a * 0x100_0000 + b * 0x1_0000 + c * 0x100 + d) as u32,
                port,
            },
        ),
{
    let ip = ipv4_text(a, b, c, d);
    let tp = digits(port as nat, 10);
    let s = v4_text(a, b, c, d, port);
    lemma_ipv4_reads_back(a, b, c, d);
    lemma_digits_read_back(port as nat, 10);
    lemma_split_once(ip, ':', tp);
    assert(s.take(ip.len() as int) =~= ip);
    assert(s.skip(ip.len() as int + 1) =~= tp);
}

proof fn lemma_joined_groups_have_no_gap(p: Seq<Seq<char>>)
    requires
        p.len() > 0,
        forall|k: int| 0 <= k < p.len() ==> is_digits(#[trigger] p[k], 16),
    ensures
        join(p, ':').len() > 0,
        join(p, ':')[0] != ':',
        join(p, ':').last() != ':',
        forall|j: int|
            0 <= j && j + 1 < join(p, ':').len() ==> !(#[trigger] join(p, ':')[j] == ':' && join(
                p,
                ':',
            )[j + 1] == ':'),
    decreases p.len(),
{
    let s = join(p, ':');
    let h = p[0];
    assert forall|j: int| 0 <= j < h.len() implies s[j] != ':' by {
        assert(s[j] == h[j]);
        assert(digit_value(h[j]) >= 0);
    }
    if p.len() > 1 {
        let rest = p.skip(1);
        assert forall|k: int| 0 <= k < rest.len() implies is_digits(#[trigger] rest[k], 16) by {
            assert(rest[k] == p[k + 1]);
        }
        lemma_joined_groups_have_no_gap(rest);
        let t = join(rest, ':');
        let n = h.len() as int + 1;
        assert forall|j: int| n <= j < s.len() implies s[j] == t[j - n] by {}
        assert(s.last() == t.last());
        assert forall|j: int| 0 <= j && j + 1 < s.len() implies !(#[trigger] s[j] == ':' && s[j
            + 1] == ':') by {
            if j >= n {
                assert(t[j - n] == s[j]);
                assert(t[j - n + 1] == s[j + 1]);
            } else if j == n - 1 {
                assert(s[j + 1] == t[0]);
            }
        }
    }
}

proof fn lemma_groups_read_back(g: Seq<u16>, ipv4_allowed: bool)
    ensures
        groups(groups_text(g), ipv4_allowed) == Some(g),
        g.len() > 0 ==> groups_text(g).len() > 0 && groups_text(g)[0] != ':'
            && groups_text(g).last() != ':',
        g.len() == 0 ==> groups_text(g).len() == 0,
        forall|j: int|
            0 <= j && j + 1 < groups_text(g).len() ==> !(#[trigger] groups_text(g)[j] == ':'
                && groups_text(g)[j + 1] == ':'),
{
    let p = g.map_values(|x: u16| digits(x as nat, 16));
    assert forall|k: int| 0 <= k < p.len() implies is_digits(#[trigger] p[k], 16) && hextet(p[k])
        == Some(g[k]) && !p[k].contains(':') by {
        lemma_digits_read_back(g[k] as nat, 16);
        lemma_digits_len(g[k] as nat, 16);
        lemma_digits_avoid(p[k], 16, ':');
    }
    if g.len() > 0 {
        lemma_split_join(p, ':');
        lemma_joined_groups_have_no_gap(p);
        assert(hextet_values(p) =~= g);
    } else {
        assert(g =~= seq![]);
    }
}

/// A text of an IPv6 address in brackets, with a port and with its scope where
/// that is not zero, reads back as the address, the port and the scope.
pub proof fn every_ipv6_text_reads_back(ip: Seq<char>, g: Seq<u16>, port: u16, scope_id: u32)
    requires
        ipv6(ip) == Some(g),
    ensures
        socket_addr(v6_text(ip, port, scope_id)) == Some(
            SocketAddr::V6 { ip: group_bits(g), port, scope_id },
        ),
{
    lemma_ipv6_chars(ip);
    let ts = digits(scope_id as nat, 10);
    let tp = digits(port as nat, 10);
    lemma_digits_read_back(scope_id as nat, 10);
    lemma_digits_read_back(port as nat, 10);
    lemma_digits_avoid(ts, 10, ']');
    let suffix = if scope_id == 0 {
        seq![]
    } else {
        seq!['%'] + ts
    };
    let inside = ip + suffix;
    assert forall|j: int| 0 <= j < ip.len() implies inside[j] != '%' && inside[j] != ']' by {
        assert(is_ip_char(ip[j]));
    }
    lemma_first_index_is(inside, '%', ip.len() as int);
    assert(inside.take(ip.len() as int) =~= ip);
    if scope_id != 0 {
        assert(inside.skip(ip.len() as int + 1) =~= ts);
    }
    assert(scoped_ipv6(inside) == Some((g, scope_id)));

    let s = v6_text(ip, port, scope_id);
    let i = inside.len() as int + 1;
    assert(s =~= seq!['['] + inside + seq![']', ':'] + tp);
    assert forall|j: int| 0 <= j < i implies s[j] != ']' by {
        if j > 0 {
            assert(s[j] == inside[j - 1]);
            if j - 1 > ip.len() {
                assert(inside[j - 1] == ts[j - 2 - ip.len()]);
                assert(ts.contains(ts[j - 2 - ip.len()]));
            }
        }
    }
    lemma_first_index_is(s, ']', i);
    assert(s.subrange(1, i) =~= inside);
    assert(s.skip(i + 2) =~= tp);
    lemma_first_index(s, ':');
    lemma_bracket_is_no_ipv4(s.take(first_index(s, ':')));
}

/// Every IPv6 address, port and scope has a text of eight groups, and the text
/// reads back as the address, the port and the scope.
pub proof fn every_ipv6_address_reads_back(g: Seq<u16>, port: u16, scope_id: u32)
    requires
        g.len() == 8,
    ensures
        socket_addr(v6_text(groups_text(g), port, scope_id)) == Some(
            SocketAddr::V6 { ip: group_bits(g), port, scope_id },
        ),
{
    lemma_groups_read_back(g, true);
    lemma_first_gap_is(groups_text(g), groups_text(g).len() as int);
    every_ipv6_text_reads_back(groups_text(g), g, port, scope_id);
}

/// Any run of zero groups may be left out for a `::`, and the shorter text
/// reads back as the same address.
pub proof fn every_compressed_ipv6_address_reads_back(
    g: Seq<u16>,
    from: int,
    to: int,
    port: u16,
    scope_id: u32,
)
    requires
        g.len() == 8,
        0 <= from < to <= 8,
        forall|k: int| from <= k < to ==> g[k] == 0,
    ensures
        socket_addr(v6_text(compressed_text(g, from, to), port, scope_id)) == Some(
            SocketAddr::V6 { ip: group_bits(g), port, scope_id },
        ),
{
    let head = groups_text(g.take(from));
    let tail = groups_text(g.skip(to));
    let ip = compressed_text(g, from, to);
    let n = head.len() as int;
    lemma_groups_read_back(g.take(from), false);
    lemma_groups_read_back(g.skip(to), true);
    assert forall|j: int| 0 <= j < n && j + 1 < ip.len() implies !(#[trigger] ip[j] == ':' && ip[j
        + 1] == ':') by {
        assert(ip[j] == head[j]);
        if j + 1 < n {
            assert(ip[j + 1] == head[j + 1]);
        } else {
            assert(head.last() == head[j]);
        }
    }
    lemma_first_gap_is(ip, n);
    assert(ip.take(n) =~= head);
    assert(ip.skip(n + 2) =~= tail);
    assert(g.take(from) + zero_groups(to - from) + g.skip(to) =~= g);
    every_ipv6_text_reads_back(ip, g, port, scope_id);
}

proof fn lemma_ffff()
    ensures
        hextet(seq!['f', 'f', 'f', 'f']) == Some(0xffffu16),
        !seq!['f', 'f', 'f', 'f'].contains(':'),
{
    let s = seq!['f', 'f', 'f', 'f'];
    assert(is_digits(s, 16));
    assert(s.drop_last() =~= seq!['f', 'f', 'f']);
    assert(seq!['f', 'f', 'f'].drop_last() =~= seq!['f', 'f']);
    assert(seq!['f', 'f'].drop_last() =~= seq!['f']);
    assert(seq!['f'].drop_last() =~= seq![]);
    assert(positional(seq![], 16) == 0);
    assert(positional(seq!['f'], 16) == 0xf);
    assert(positional(seq!['f', 'f'], 16) == 0xff);
    assert(positional(seq!['f', 'f', 'f'], 16) == 0xfff);
    assert(positional(s, 16) == 0xffff);
}

proof fn lemma_mapped_groups(a: u8, b: u8, c: u8, d: u8)
    ensures
        groups(seq!['f', 'f', 'f', 'f'] + seq![':'] + ipv4_text(a, b, c, d), true) == Some(
            seq![0xffffu16, (a * 0x100 + b) as u16, (c * 0x100 + d) as u16],
        ),
{
    let v4 = ipv4_text(a, b, c, d);
    let ffff = seq!['f', 'f', 'f', 'f'];
    let tail = ffff + seq![':'] + v4;
    let p = split(tail, ':');
    lemma_ffff();
    lemma_ipv4_reads_back(a, b, c, d);
    lemma_split_once(ffff, ':', v4);
    lemma_first_index(v4, ':');
    assert(split(v4, ':') =~= seq![v4]);
    assert(p =~= seq![ffff, v4]);
    assert(hextet(p[1]) is None) by {
        let k = choose|k: int| 0 <= k < v4.len() && v4[k] == '.';
        assert(digit_value(v4[k]) < 0);
    }
    assert(!all_hextets(p));
    assert(p.drop_last() =~= seq![ffff]);
    assert(p.last() == v4);
    assert(all_hextets(p.drop_last()));
    assert(hextet_values(p.drop_last()) =~= seq![0xffffu16]);
    let low = ipv4(v4)->0;
    assert(low / 0x1_0000 == a * 0x100 + b && low % 0x1_0000 == c * 0x100 + d);
    assert(groups(tail, true)->0 =~= seq![
        0xffffu16,
        (a * 0x100 + b) as u16,
        (c * 0x100 + d) as u16,
    ]);
}

/// Every IPv4 address mapped into IPv6 has a text that ends in the IPv4
/// address, and the text reads back as the mapped address.
pub proof fn every_mapped_ipv4_address_reads_back(
    a: u8,
    b: u8,
    c: u8,
    d: u8,
    port: u16,
    scope_id: u32,
)
    ensures
        socket_addr(v6_text(mapped_text(a, b, c, d), port, scope_id)) == Some(
            SocketAddr::V6 {
                ip: group_bits(
                    zero_groups(5) + seq![
                        0xffffu16,
                        (a * 0x100 + b) as u16,
                        (c * 0x100 + d) as u16,
                    ],
                ),
                port,
                scope_id,
            },
        ),
{
    let ip = mapped_text(a, b, c, d);
    let tail = seq!['f', 'f', 'f', 'f'] + seq![':'] + ipv4_text(a, b, c, d);
    let low = seq![0xffffu16, (a * 0x100 + b) as u16, (c * 0x100 + d) as u16];
    reveal_strlit("::ffff:");
    lemma_mapped_groups(a, b, c, d);
    assert(ip =~= seq![':', ':'] + tail);
    lemma_first_gap_is(ip, 0);
    assert(ip.take(0) =~= seq![]);
    assert(ip.skip(2) =~= tail);
    assert(seq![] + zero_groups(5) + low =~= zero_groups(5) + low);
    every_ipv6_text_reads_back(ip, zero_groups(5) + low, port, scope_id);
}

/// No IPv4 address is empty or begins with a bracket.
pub proof fn lemma_bracket_is_no_ipv4(s: Seq<char>)
    requires
        s.len() == 0 || s[0] == '[',
    ensures
        ipv4(s) is None,
{
    let p = split(s, '.');
    lemma_first_index(s, '.');
    if octet(p[0]) is Some {
        assert(p[0].len() > 0);
        assert(p[0][0] == s[0]);
        assert(digit_value(p[0][0]) >= 0);
    }
}

/// Reads an octet.
fn read_octet(s: &[char]) -> (n: Option<u32>)
    ensures
        n is Some <==> octet(s@) is Some,
        n matches Some(v) ==> octet(s@) == Some(v as int) && v <= 255,
{
    let len: usize = s.len();
    if len > 3 {
        return None;
    }
    if len > 1 && s[0] == '0' {
        return None;
    }
    read_number(s, 10, 255)
}

/// Reads an IPv4 address.
fn read_ipv4(s: &[char]) -> (ip: Option<u32>)
    ensures
        ip == ipv4(s@),
{
    let p = pieces(s, '.');
    if p.len() != 4 {
        return None;
    }
    let a: u32 = match read_octet(p[0]) {
        Some(v) => v,
        None => return None,
    };
    let b: u32 = match read_octet(p[1]) {
        Some(v) => v,
        None => return None,
    };
    let c: u32 = match read_octet(p[2]) {
        Some(v) => v,
        None => return None,
    };
    let d: u32 = match read_octet(p[3]) {
        Some(v) => v,
        None => return None,
    };
    Some(a * 0x100_0000 + b * 0x1_0000 + c * 0x100 + d)
}

/// Reads a group.
fn read_hextet(s: &[char]) -> (g: Option<u16>)
    ensures
        g == hextet(s@),
{
    if s.len() > 4 {
        return None;
    }
    match read_number(s, 16, 0xffff) {
        Some(v) => Some(v as u16),
        None => None,
    }
}

/// Reads the groups between colons.
fn read_groups(s: &[char], ipv4_allowed: bool) -> (g: Option<Vec<u16>>)
    ensures
        g is Some <==> groups(s@, ipv4_allowed) is Some,
        g matches Some(v) ==> v@ == groups(s@, ipv4_allowed)->0,
{
    let mut out: Vec<u16> = Vec::new();
    if s.len() == 0 {
        assert(out@ =~= seq![]);
        return Some(out);
    }
    let p = pieces(s, ':');
    let ghost parts = split(s@, ':');
    proof {
        lemma_split_nonempty(s@, ':');
    }
    let n: usize = p.len();
    let mut i: usize = 0;
    while i < n
        invariant
            i <= n,
            n == p@.len(),
            n == parts.len(),
            n > 0,
            s@.len() > 0,
            parts == split(s@, ':'),
            forall|k: int| 0 <= k < n ==> (#[trigger] p@[k])@ == parts[k],
            out@.len() == i,
            forall|k: int|
                0 <= k < i ==> hextet(#[trigger] parts[k]) == Some(out@[k]),
        decreases n - i,
    {
        match read_hextet(p[i]) {
            Some(g) => {
                out.push(g);
            },
            None => {
                assert(!all_hextets(parts)) by {
                    assert(hextet(parts[i as int]) is None);
                }
                if !ipv4_allowed {
                    return None;
                }
                if i + 1 < n {
                    assert(!all_hextets(parts.drop_last())) by {
                        assert(parts.drop_last()[i as int] == parts[i as int]);
                    }
                    return None;
                }
                assert(parts.last() == p@[i as int]@);
                assert(all_hextets(parts.drop_last()));
                let low: u32 = match read_ipv4(p[i]) {
                    Some(ip) => ip,
                    None => return None,
                };
                assert(out@ =~= hextet_values(parts.drop_last()));
                assert(low / 0x1_0000 <= 0xffff && low % 0x1_0000 <= 0xffff);
                out.push((low / 0x1_0000) as u16);
                out.push((low % 0x1_0000) as u16);
                assert(out@ =~= groups(s@, ipv4_allowed)->0);
                return Some(out);
            },
        }
        i += 1;
    }
    assert(all_hextets(parts));
    assert(out@ =~= hextet_values(parts));
    Some(out)
}

/// Finds the first `::`.
fn find_gap(s: &[char]) -> (i: usize)
    ensures
        i == first_gap(s@),
        i <= s@.len(),
{
    let n: usize = s.len();
    let mut i: usize = 0;
    while i < n && !(i + 1 < n && s[i] == ':' && s[i + 1] == ':')
        invariant
            i <= n,
            n == s@.len(),
            forall|j: int| 0 <= j < i && j + 1 < n ==> !(#[trigger] s@[j] == ':' && s@[j + 1]
                == ':'),
        decreases n - i,
    {
        i += 1;
    }
    proof {
        lemma_first_gap_is(s@, i as int);
    }
    i
}

/// Reads an IPv6 address.
fn read_ipv6(s: &[char]) -> (g: Option<Vec<u16>>)
    ensures
        g is Some <==> ipv6(s@) is Some,
        g matches Some(v) ==> v@ == ipv6(s@)->0 && v@.len() == 8,
{
    let n: usize = s.len();
    let gap: usize = find_gap(s);
    if gap == n {
        return match read_groups(s, true) {
            Some(g) => if g.len() == 8 {
                Some(g)
            } else {
                None
            },
            None => None,
        };
    }
    proof {
        lemma_first_gap(s@);
        assert(s@.subrange(0, gap as int) =~= s@.take(gap as int));
        assert(s@.subrange(gap + 2, n as int) =~= s@.skip(gap + 2));
    }
    let head = match read_groups(slice_subrange(s, 0, gap), false) {
        Some(g) => g,
        None => return None,
    };
    let tail = match read_groups(slice_subrange(s, gap + 2, n), true) {
        Some(g) => g,
        None => return None,
    };
    if head.len() > 7 || tail.len() > 7 - head.len() {
        return None;
    }
    let zeros: usize = 8 - head.len() - tail.len();
    let ghost h = head@;
    let mut out = head;
    let mut i: usize = 0;
    assert(out@ =~= h + zero_groups(0));
    while i < zeros
        invariant
            i <= zeros,
            out@ == h + zero_groups(i as int),
        decreases zeros - i,
    {
        out.push(0);
        i += 1;
        assert(out@ =~= h + zero_groups(i as int));
    }
    let m: usize = tail.len();
    let mut k: usize = 0;
    assert(out@ =~= h + zero_groups(zeros as int) + tail@.take(0));
    while k < m
        invariant
            k <= m,
            m == tail@.len(),
            out@ == h + zero_groups(zeros as int) + tail@.take(k as int),
        decreases m - k,
    {
        out.push(tail[k]);
        k += 1;
        assert(out@ =~= h + zero_groups(zeros as int) + tail@.take(k as int));
    }
    assert(tail@.take(m as int) =~= tail@);
    Some(out)
}

/// Reads an IPv6 address with its scope.
fn read_scoped_ipv6(s: &[char]) -> (r: Option<(Vec<u16>, u32)>)
    ensures
        r is Some <==> scoped_ipv6(s@) is Some,
        r matches Some((g, scope_id)) ==> g@.len() == 8 && scoped_ipv6(s@) == Some((g@, scope_id)),
{
    let n: usize = s.len();
    let i: usize = find(s, '%');
    assert(s@.subrange(0, i as int) =~= s@.take(i as int));
    let g = match read_ipv6(slice_subrange(s, 0, i)) {
        Some(g) => g,
        None => return None,
    };
    if i == n {
        return Some((g, 0));
    }
    assert(s@.subrange(i + 1, n as int) =~= s@.skip(i + 1));
    match read_number(slice_subrange(s, i + 1, n), 10, 0xffff_ffff) {
        Some(scope_id) => Some((g, scope_id)),
        None => None,
    }
}

/// Puts eight groups together.
fn join_groups(g: &Vec<u16>) -> (ip: u128)
    requires
        g@.len() == 8,
    ensures
        ip == group_bits(g@),
{
    (g[0] as u128) * 0x1_0000_0000_0000_0000_0000_0000_0000 + (g[1] as u128)
        * 0x1_0000_0000_0000_0000_0000_0000 + (g[2] as u128) * 0x1_0000_0000_0000_0000_0000 + (
    g[3] as u128) * 0x1_0000_0000_0000_0000 + (g[4] as u128) * 0x1_0000_0000_0000 + (g[5] as u128)
        * 0x1_0000_0000 + (g[6] as u128) * 0x1_0000 + (g[7] as u128)
}

/// Reads an IPv4 address with a port.
fn read_socket_addr_v4(s: &[char]) -> (addr: Option<SocketAddr>)
    ensures
        addr == socket_addr_v4(s@),
{
    let n: usize = s.len();
    let i: usize = find(s, ':');
    if i == n {
        return None;
    }
    assert(s@.subrange(0, i as int) =~= s@.take(i as int));
    assert(s@.subrange(i + 1, n as int) =~= s@.skip(i + 1));
    let ip: u32 = match read_ipv4(slice_subrange(s, 0, i)) {
        Some(ip) => ip,
        None => return None,
    };
    match read_number(slice_subrange(s, i + 1, n), 10, 0xffff) {
        Some(port) => Some(SocketAddr::V4 { ip, port: port as u16 }),
        None => None,
    }
}

/// Reads an IPv6 address with a port.
fn read_socket_addr_v6(s: &[char]) -> (addr: Option<SocketAddr>)
    ensures
        addr == socket_addr_v6(s@),
{
    let n: usize = s.len();
    if n == 0 || s[0] != '[' {
        return None;
    }
    let i: usize = find(s, ']');
    proof {
        lemma_first_index(s@, ']');
    }
    if i >= n - 1 || s[i + 1] != ':' {
        return None;
    }
    assert(i > 0);
    assert(s@.subrange(i + 2, n as int) =~= s@.skip(i + 2));
    let (g, scope_id) = match read_scoped_ipv6(slice_subrange(s, 1, i)) {
        Some(r) => r,
        None => return None,
    };
    match read_number(slice_subrange(s, i + 2, n), 10, 0xffff) {
        Some(port) => Some(SocketAddr::V6 { ip: join_groups(&g), port: port as u16, scope_id }),
        None => None,
    }
}

impl SocketAddr {
    /// Reads a socket address from its text.
    pub fn from_text(text: &str) -> (addr: Option<SocketAddr>)
        ensures
            addr == socket_addr(text@),
    {
        let chars = chars_of(text);
        match read_socket_addr_v4(chars.as_slice()) {
            Some(addr) => Some(addr),
            None => read_socket_addr_v6(chars.as_slice()),
        }
    }
}

impl std::str::FromStr for SocketAddr {
    type Err = SocketAddrParseError;

    fn from_str(s: &str) -> (addr: Result<Self, Self::Err>)
        ensures
            addr is Ok <==> socket_addr(s@) is Some,
            addr matches Ok(a) ==> socket_addr(s@) == Some(a),
    {
        match SocketAddr::from_text(s) {
            Some(addr) => Ok(addr),
            None => Err(SocketAddrParseError),
        }
    }
}

} // verus!
