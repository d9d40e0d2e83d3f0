//! Which texts are socket addresses, and of which address: all that are, and no
//! others.
#[allow(unused_imports)]
use vstd::arithmetic::div_mod::lemma_fundamental_div_mod_converse;
use vstd::prelude::*;

#[allow(unused_imports)]
use crate::number::{
    digit_value, digits, is_digits, lemma_digits_read_back, lemma_positional_grows, number,
    lemma_digits_len, numbers_are_runs_of_digits, positional, the_shortest_text_is_unique,
};
#[allow(unused_imports)]
use crate::socket_addr::{
    all_hextets, first_gap, group_bits, groups, hextet, hextet_values, ipv4, ipv6, is_ip_char,
    lemma_bracket_is_no_ipv4, lemma_first_gap, lemma_first_gap_is, lemma_ipv4_reads_back,
    lemma_ipv6_chars, octet, scoped_ipv6, socket_addr, zero_groups, SocketAddr,
};
#[allow(unused_imports)]
use crate::text::{
    first_index, join, lemma_first_index, lemma_first_index_is, lemma_split_join,
    lemma_split_once, split, splitting_undoes_joining,
};

verus! {

/// Whether pieces of text write groups, one each.
pub open spec fn write_groups(p: Seq<Seq<char>>, g: Seq<u16>) -> bool {
    &&& p.len() == g.len()
    &&& forall|k: int| 0 <= k < p.len() ==> hextet(#[trigger] p[k]) == Some(g[k])
}

/// An octet is the shortest decimal text of a number up to 255, and nothing
/// else is.
pub proof fn octets_are_shortest_texts(s: Seq<char>, v: int)
    ensures
        octet(s) == Some(v) <==> 0 <= v <= 255 && s == digits(v as nat, 10),
{
    if octet(s) == Some(v) {
        numbers_are_runs_of_digits(s, 255, v);
        lemma_positional_grows(s, 10, 0);
        the_shortest_text_is_unique(s, v as nat);
    }
    if 0 <= v <= 255 && s == digits(v as nat, 10) {
        lemma_digits_read_back(v as nat, 10);
        the_shortest_text_is_unique(s, v as nat);
        numbers_are_runs_of_digits(s, 255, v);
        lemma_digits_len(v as nat, 10);
    }
}

/// A group is any run of one to four hexadecimal digits, in either case and
/// with leading zeros or without, and nothing else is. Its value is that of
/// its digits.
pub proof fn groups_are_runs_of_hexadecimal_digits(s: Seq<char>, v: u16)
    ensures
        hextet(s) == Some(v) <==> {
            &&& 1 <= s.len() <= 4
            &&& forall|i: int|
                0 <= i < s.len() ==> "0123456789abcdefABCDEF"@.contains(#[trigger] s[i])
            &&& positional(s, 16) == v
        },
{
    numbers_are_runs_of_digits(s, 0xffff, v as int);
    numbers_are_runs_of_digits(s, 0xffff, positional(s, 16));
    if is_digits(s, 16) && s.len() <= 4 {
        lemma_small_hexadecimal(s);
    }
    if hextet(s) == Some(v) {
        assert(is_digits(s, 16));
    }
}

proof fn lemma_small_hexadecimal(s: Seq<char>)
    requires
        forall|i: int| 0 <= i < s.len() ==> 0 <= digit_value(#[trigger] s[i]) < 16,
        s.len() <= 4,
    ensures
        0 <= positional(s, 16),
        s.len() == 0 ==> positional(s, 16) <= 0,
        s.len() == 1 ==> positional(s, 16) <= 0xf,
        s.len() == 2 ==> positional(s, 16) <= 0xff,
        s.len() == 3 ==> positional(s, 16) <= 0xfff,
        s.len() == 4 ==> positional(s, 16) <= 0xffff,
    decreases s.len(),
{
    if s.len() > 0 {
        let t = s.drop_last();
        assert forall|i: int| 0 <= i < t.len() implies 0 <= digit_value(#[trigger] t[i]) < 16 by {
            assert(t[i] == s[i]);
        }
        lemma_small_hexadecimal(t);
        assert(0 <= digit_value(s[s.len() - 1]) < 16);
    }
}

/// Whether a text is these octets with a dot between each two, and a number
/// has them as its bytes, the first the highest.
pub open spec fn made_of_octets(s: Seq<char>, ip: u32, a: u8, b: u8, c: u8, d: u8) -> bool {
    &&& s == digits(a as nat, 10) + seq!['.'] + digits(b as nat, 10) + seq!['.'] + digits(
        c as nat,
        10,
    ) + seq!['.'] + digits(d as nat, 10)
    &&& ip == a * 0x100_0000 + b * 0x1_0000 + c * 0x100 + d
}

/// An IPv4 address is four octets with a dot between each two, and nothing
/// else is. The octets are its bytes, the first the highest.
pub proof fn ipv4_addresses_are_four_octets(s: Seq<char>, ip: u32)
    ensures
        ipv4(s) == Some(ip) <==> exists|a: u8, b: u8, c: u8, d: u8|
            made_of_octets(s, ip, a, b, c, d),
{
    if ipv4(s) == Some(ip) {
        lemma_octets_found(s);
    }
    if exists|a: u8, b: u8, c: u8, d: u8| made_of_octets(s, ip, a, b, c, d) {
        let (a, b, c, d) = choose|a: u8, b: u8, c: u8, d: u8| made_of_octets(s, ip, a, b, c, d);
        lemma_ipv4_reads_back(a, b, c, d);
        lemma_dots_associate(
            digits(a as nat, 10),
            digits(b as nat, 10),
            digits(c as nat, 10),
            digits(d as nat, 10),
        );
    }
}

proof fn lemma_octets_found(s: Seq<char>)
    requires
        ipv4(s) is Some,
    ensures
        exists|a: u8, b: u8, c: u8, d: u8| made_of_octets(s, ipv4(s)->0, a, b, c, d),
{
    let p = split(s, '.');
    splitting_undoes_joining(s, '.', p);
    let a = octet(p[0])->0;
    let b = octet(p[1])->0;
    let c = octet(p[2])->0;
    let d = octet(p[3])->0;
    octets_are_shortest_texts(p[0], a);
    octets_are_shortest_texts(p[1], b);
    octets_are_shortest_texts(p[2], c);
    octets_are_shortest_texts(p[3], d);
    lemma_join_of_four(p, '.');
    lemma_dots_associate(p[0], p[1], p[2], p[3]);
    assert(made_of_octets(s, ipv4(s)->0, a as u8, b as u8, c as u8, d as u8));
}

proof fn lemma_dots_associate(a: Seq<char>, b: Seq<char>, c: Seq<char>, d: Seq<char>)
    ensures
        a + seq!['.'] + (b + seq!['.'] + (c + seq!['.'] + d)) == a + seq!['.'] + b + seq!['.'] + c
            + seq!['.'] + d,
{
    let dot = seq!['.'];
    assert(b + dot + (c + dot + d) =~= b + dot + c + dot + d);
    let t = b + dot + c + dot + d;
    assert(a + dot + t =~= a + dot + b + dot + c + dot + d);
}

proof fn lemma_join_of_four(p: Seq<Seq<char>>, c: char)
    requires
        p.len() == 4,
    ensures
        join(p, c) == p[0] + seq![c] + (p[1] + seq![c] + (p[2] + seq![c] + p[3])),
{
    let q = p.skip(1);
    let r = q.skip(1);
    let t = r.skip(1);
    assert(t.len() == 1 && t[0] == p[3]);
    assert(r.len() == 2 && r[0] == p[2]);
    assert(q.len() == 3 && q[0] == p[1]);
    assert(join(t, c) == p[3]);
    assert(join(r, c) == p[2] + seq![c] + p[3]);
    assert(join(q, c) == p[1] + seq![c] + (p[2] + seq![c] + p[3]));
}

/// An IPv4 socket address is an IPv4 address, a colon and a port, and nothing
/// else is.
pub proof fn ipv4_socket_addresses_are_these(s: Seq<char>, ip: u32, port: u16)
    ensures
        socket_addr(s) == Some(SocketAddr::V4 { ip, port }) <==> exists|h: Seq<char>, p: Seq<char>|
            #![trigger ipv4(h), number(p, 10, 0xffff)]
            s == h + seq![':'] + p && ipv4(h) == Some(ip) && number(p, 10, 0xffff) == Some(
                port as int,
            ),
{
    if socket_addr(s) == Some(SocketAddr::V4 { ip, port }) {
        let i = first_index(s, ':');
        lemma_first_index(s, ':');
        let h = s.take(i);
        let p = s.skip(i + 1);
        numbers_are_runs_of_digits(p, 0xffff, number(p, 10, 0xffff)->0);
        lemma_positional_grows(p, 10, 0);
        assert(s =~= h + seq![':'] + p);
        assert(ipv4(h) == Some(ip) && number(p, 10, 0xffff) == Some(port as int));
    }
    if exists|h: Seq<char>, p: Seq<char>|
        #![trigger ipv4(h), number(p, 10, 0xffff)]
        s == h + seq![':'] + p && ipv4(h) == Some(ip) && number(p, 10, 0xffff) == Some(
            port as int,
        ) {
        let (h, p) = choose|h: Seq<char>, p: Seq<char>|
            #![trigger ipv4(h), number(p, 10, 0xffff)]
            s == h + seq![':'] + p && ipv4(h) == Some(ip) && number(p, 10, 0xffff) == Some(
                port as int,
            );
        lemma_ipv4_has_dots_no_colons(h);
        lemma_split_once(h, ':', p);
        assert(s.take(h.len() as int) =~= h);
        assert(s.skip(h.len() as int + 1) =~= p);
    }
}

proof fn lemma_ipv4_has_dots_no_colons(s: Seq<char>)
    requires
        ipv4(s) is Some,
    ensures
        s.contains('.'),
        !s.contains(':'),
        s.len() > 0,
{
    let ip = ipv4(s)->0;
    ipv4_addresses_are_four_octets(s, ip);
    let (a, b, c, d) = choose|a: u8, b: u8, c: u8, d: u8| made_of_octets(s, ip, a, b, c, d);
    lemma_ipv4_reads_back(a, b, c, d);
    lemma_dots_associate(
        digits(a as nat, 10),
        digits(b as nat, 10),
        digits(c as nat, 10),
        digits(d as nat, 10),
    );
}

/// Whether a text is another in brackets, a colon and a port, and what stands
/// in the brackets is this address with this scope.
pub open spec fn made_of_brackets(
    s: Seq<char>,
    addr: SocketAddr,
    t: Seq<char>,
    g: Seq<u16>,
    p: Seq<char>,
) -> bool {
    &&& addr is V6
    &&& s == seq!['['] + t + seq![']', ':'] + p
    &&& scoped_ipv6(t) == Some((g, addr->scope_id))
    &&& addr->V6_ip == group_bits(g)
    &&& number(p, 10, 0xffff) == Some(addr->V6_port as int)
}

/// An IPv6 socket address is an IPv6 address in brackets, with or without a
/// scope, a colon and a port, and nothing else is.
pub proof fn ipv6_socket_addresses_are_these(s: Seq<char>, ip: u128, port: u16, scope_id: u32)
    ensures
        socket_addr(s) == Some(SocketAddr::V6 { ip, port, scope_id }) <==> exists|
            t: Seq<char>,
            g: Seq<u16>,
            p: Seq<char>,
        | made_of_brackets(s, SocketAddr::V6 { ip, port, scope_id }, t, g, p),
{
    let addr = SocketAddr::V6 { ip, port, scope_id };
    if socket_addr(s) == Some(addr) {
        lemma_brackets_found(s, addr);
    }
    if exists|t: Seq<char>, g: Seq<u16>, p: Seq<char>| made_of_brackets(s, addr, t, g, p) {
        let (t, g, p) = choose|t: Seq<char>, g: Seq<u16>, p: Seq<char>|
            made_of_brackets(s, addr, t, g, p);
        lemma_brackets_read(s, addr, t, g, p);
    }
}

proof fn lemma_brackets_found(s: Seq<char>, addr: SocketAddr)
    requires
        socket_addr(s) == Some(addr),
        addr is V6,
    ensures
        exists|t: Seq<char>, g: Seq<u16>, p: Seq<char>| made_of_brackets(s, addr, t, g, p),
{
    let i = first_index(s, ']');
    lemma_first_index(s, ']');
    let t = s.subrange(1, i);
    let p = s.skip(i + 2);
    let (g, _) = scoped_ipv6(t)->0;
    numbers_are_runs_of_digits(p, 0xffff, number(p, 10, 0xffff)->0);
    lemma_positional_grows(p, 10, 0);
    assert(s =~= seq!['['] + t + seq![']', ':'] + p);
    assert(made_of_brackets(s, addr, t, g, p));
}

proof fn lemma_brackets_read(
    s: Seq<char>,
    addr: SocketAddr,
    t: Seq<char>,
    g: Seq<u16>,
    p: Seq<char>,
)
    requires
        made_of_brackets(s, addr, t, g, p),
    ensures
        socket_addr(s) == Some(addr),
{
    lemma_scoped_has_no_bracket(t);
    let i = t.len() as int + 1;
    assert forall|j: int| 0 <= j < i implies s[j] != ']' by {
        if j > 0 {
            assert(s[j] == t[j - 1]);
            assert(t.contains(t[j - 1]));
        }
    }
    lemma_first_index_is(s, ']', i);
    assert(s.subrange(1, i) =~= t);
    assert(s.skip(i + 2) =~= p);
    lemma_first_index(s, ':');
    lemma_bracket_is_no_ipv4(s.take(first_index(s, ':')));
}

/// What stands in the brackets is an IPv6 address alone, whose scope is then
/// zero, or one with a percent sign and the number of its scope behind it, and
/// nothing else does.
pub proof fn scoped_addresses_are_these(t: Seq<char>, g: Seq<u16>, scope_id: u32)
    ensures
        scoped_ipv6(t) == Some((g, scope_id)) <==> (ipv6(t) == Some(g) && scope_id == 0) || exists|
            h: Seq<char>,
            n: Seq<char>,
        |
            #![trigger ipv6(h), number(n, 10, 0xffff_ffff)]
            t == h + seq!['%'] + n && ipv6(h) == Some(g) && number(n, 10, 0xffff_ffff) == Some(
                scope_id as int,
            ),
{
    let i = first_index(t, '%');
    lemma_first_index(t, '%');
    if scoped_ipv6(t) == Some((g, scope_id)) {
        let h = t.take(i);
        let n = t.skip(i + 1);
        if i == t.len() {
            assert(h =~= t);
        } else {
            numbers_are_runs_of_digits(n, 0xffff_ffff, number(n, 10, 0xffff_ffff)->0);
            lemma_positional_grows(n, 10, 0);
            assert(t =~= h + seq!['%'] + n);
            assert(ipv6(h) == Some(g) && number(n, 10, 0xffff_ffff) == Some(scope_id as int));
        }
    }
    if ipv6(t) == Some(g) && scope_id == 0 {
        lemma_ipv6_chars(t);
        if i < t.len() {
            assert(is_ip_char(t[i]));
        }
        assert(t.take(i) =~= t);
    }
    if exists|h: Seq<char>, n: Seq<char>|
        #![trigger ipv6(h), number(n, 10, 0xffff_ffff)]
        t == h + seq!['%'] + n && ipv6(h) == Some(g) && number(n, 10, 0xffff_ffff) == Some(
            scope_id as int,
        ) {
        let (h, n) = choose|h: Seq<char>, n: Seq<char>|
            #![trigger ipv6(h), number(n, 10, 0xffff_ffff)]
            t == h + seq!['%'] + n && ipv6(h) == Some(g) && number(n, 10, 0xffff_ffff) == Some(
                scope_id as int,
            );
        lemma_ipv6_chars(h);
        assert forall|j: int| 0 <= j < h.len() implies h[j] != '%' by {
            assert(is_ip_char(h[j]));
        }
        lemma_split_once(h, '%', n);
        assert(t.take(h.len() as int) =~= h);
        assert(t.skip(h.len() as int + 1) =~= n);
    }
}

proof fn lemma_scoped_has_no_bracket(t: Seq<char>)
    requires
        scoped_ipv6(t) is Some,
    ensures
        !t.contains(']'),
{
    let i = first_index(t, '%');
    lemma_first_index(t, '%');
    let h = t.take(i);
    let n = t.skip(i + 1);
    lemma_ipv6_chars(h);
    assert forall|j: int| 0 <= j < t.len() implies t[j] != ']' by {
        if j < i {
            assert(is_ip_char(h[j]));
        } else if j > i {
            assert(digit_value(n[j - i - 1]) >= 0);
        }
    }
}

/// Groups are written each by itself with a colon between each two, the last
/// two also as an IPv4 address where that is allowed, and in no other way. No
/// text writes no groups.
pub proof fn runs_of_groups_are_these(s: Seq<char>, ipv4_allowed: bool, g: Seq<u16>)
    ensures
        groups(s, ipv4_allowed) == Some(g) <==> {
            ||| s.len() == 0 && g.len() == 0
            ||| exists|p: Seq<Seq<char>>| #[trigger]
                write_groups(p, g) && p.len() > 0 && s == join(p, ':')
            ||| ipv4_allowed && g.len() >= 2 && exists|p: Seq<Seq<char>>, v4: Seq<char>|
                #![trigger write_groups(p, g.take(g.len() - 2)), ipv4(v4)]
                write_groups(p, g.take(g.len() - 2)) && s == join(p.push(v4), ':') && ipv4(v4)
                    == Some((g[g.len() - 2] * 0x1_0000 + g[g.len() - 1]) as u32)
        },
{
    if groups(s, ipv4_allowed) == Some(g) {
        let p = split(s, ':');
        splitting_undoes_joining(s, ':', p);
        if s.len() == 0 {
        } else if all_hextets(p) {
            assert(write_groups(p, g));
        } else {
            let v4 = p.last();
            let low = ipv4(v4)->0;
            assert(p.drop_last().push(v4) =~= p);
            assert(g.take(g.len() - 2) =~= hextet_values(p.drop_last()));
            assert(write_groups(p.drop_last(), g.take(g.len() - 2)));
            assert(low / 0x1_0000 <= 0xffff);
            assert(low == g[g.len() - 2] * 0x1_0000 + g[g.len() - 1]);
        }
    }
    if s.len() == 0 && g.len() == 0 {
        assert(g =~= seq![]);
    }
    if exists|p: Seq<Seq<char>>| #[trigger]
        write_groups(p, g) && p.len() > 0 && s == join(p, ':') {
        let p = choose|p: Seq<Seq<char>>| #[trigger]
            write_groups(p, g) && p.len() > 0 && s == join(p, ':');
        lemma_written_groups(p, g);
        lemma_split_join(p, ':');
        lemma_no_gap(p);
        assert(all_hextets(p));
        assert(hextet_values(p) =~= g);
    }
    if ipv4_allowed && g.len() >= 2 && exists|p: Seq<Seq<char>>, v4: Seq<char>|
        #![trigger write_groups(p, g.take(g.len() - 2)), ipv4(v4)]
        write_groups(p, g.take(g.len() - 2)) && s == join(p.push(v4), ':') && ipv4(v4) == Some(
            (g[g.len() - 2] * 0x1_0000 + g[g.len() - 1]) as u32,
        ) {
        let (p, v4) = choose|p: Seq<Seq<char>>, v4: Seq<char>|
            #![trigger write_groups(p, g.take(g.len() - 2)), ipv4(v4)]
            write_groups(p, g.take(g.len() - 2)) && s == join(p.push(v4), ':') && ipv4(v4) == Some(
                (g[g.len() - 2] * 0x1_0000 + g[g.len() - 1]) as u32,
            );
        let q = p.push(v4);
        lemma_written_groups(p, g.take(g.len() - 2));
        lemma_ipv4_has_dots_no_colons(v4);
        assert forall|k: int| 0 <= k < q.len() implies (#[trigger] q[k]).len() > 0
            && !q[k].contains(':') by {
            if k < p.len() {
                assert(q[k] == p[k]);
            }
        }
        lemma_split_join(q, ':');
        lemma_no_gap(q);
        assert(hextet(q[p.len() as int]) is None) by {
            let k = choose|k: int| 0 <= k < v4.len() && v4[k] == '.';
            assert(digit_value(v4[k]) < 0);
        }
        assert(!all_hextets(q));
        assert(q.drop_last() =~= p);
        assert(all_hextets(p));
        let low = ipv4(v4)->0;
        assert(low == g[g.len() - 2] * 0x1_0000 + g[g.len() - 1]);
        assert(low / 0x1_0000 == g[g.len() - 2] && low % 0x1_0000 == g[g.len() - 1]);
        assert(hextet_values(p) + seq![(low / 0x1_0000) as u16, (low % 0x1_0000) as u16] =~= g);
    }
}

proof fn lemma_written_groups(p: Seq<Seq<char>>, g: Seq<u16>)
    requires
        write_groups(p, g),
    ensures
        forall|k: int|
            0 <= k < p.len() ==> (#[trigger] p[k]).len() > 0 && !p[k].contains(':'),
{
    assert forall|k: int| 0 <= k < p.len() implies (#[trigger] p[k]).len() > 0 && !p[k].contains(
        ':',
    ) by {
        assert(hextet(p[k]) == Some(g[k]));
        assert(is_digits(p[k], 16));
    }
}

proof fn lemma_no_gap(p: Seq<Seq<char>>)
    requires
        p.len() > 0,
        forall|k: int| 0 <= k < p.len() ==> (#[trigger] p[k]).len() > 0 && !p[k].contains(':'),
    ensures
        join(p, ':').len() > 0,
        join(p, ':')[0] != ':',
        join(p, ':').last() != ':',
        forall|j: int|
            0 <= j && j + 1 < join(p, ':').len() ==> !(#[trigger] join(p, ':')[j] == ':' && join(
                p,
                ':',
            )[j + 1] == ':'),
    decreases p.len(),
{
    let s = join(p, ':');
    let h = p[0];
    assert forall|j: int| 0 <= j < h.len() implies s[j] != ':' by {
        assert(s[j] == h[j]);
        assert(h.contains(h[j]));
    }
    if p.len() > 1 {
        let rest = p.skip(1);
        assert forall|k: int| 0 <= k < rest.len() implies (#[trigger] rest[k]).len() > 0
            && !rest[k].contains(':') by {
            assert(rest[k] == p[k + 1]);
        }
        lemma_no_gap(rest);
        let t = join(rest, ':');
        let n = h.len() as int + 1;
        assert forall|j: int| n <= j < s.len() implies s[j] == t[j - n] by {}
        assert(s.last() == t.last());
        assert forall|j: int| 0 <= j && j + 1 < s.len() implies !(#[trigger] s[j] == ':' && s[j
            + 1] == ':') by {
            if j >= n {
                assert(t[j - n] == s[j]);
                assert(t[j - n + 1] == s[j + 1]);
            } else if j == n - 1 {
                assert(s[j + 1] == t[0]);
            }
        }
    }
}

proof fn lemma_groups_have_no_gap(s: Seq<char>, ipv4_allowed: bool, g: Seq<u16>)
    requires
        groups(s, ipv4_allowed) == Some(g),
    ensures
        s.len() > 0 ==> s[0] != ':' && s.last() != ':',
        forall|j: int|
            0 <= j && j + 1 < s.len() ==> !(#[trigger] s[j] == ':' && s[j + 1] == ':'),
{
    if s.len() > 0 {
        let p = split(s, ':');
        splitting_undoes_joining(s, ':', p);
        assert forall|k: int| 0 <= k < p.len() implies (#[trigger] p[k]).len() > 0
            && !p[k].contains(':') by {
            if hextet(p[k]) is Some {
                assert(is_digits(p[k], 16));
            } else {
                if k < p.len() - 1 {
                    assert(p.drop_last()[k] == p[k]);
                }
                lemma_ipv4_has_dots_no_colons(p[k]);
            }
        }
        lemma_no_gap(p);
    }
}

/// Whether a text is two runs of groups with a `::` between them, and an
/// address has the first at its beginning, the second at its end, and zeros in
/// between, at least one.
pub open spec fn made_around_gap(
    s: Seq<char>,
    g: Seq<u16>,
    h: Seq<char>,
    a: Seq<u16>,
    t: Seq<char>,
    b: Seq<u16>,
) -> bool {
    &&& s == h + seq![':', ':'] + t
    &&& groups(h, false) == Some(a)
    &&& groups(t, true) == Some(b)
    &&& g.len() == 8
    &&& a.len() + b.len() < 8
    &&& g.take(a.len() as int) == a
    &&& g.skip(8 - b.len()) == b
    &&& forall|k: int| a.len() <= k < 8 - b.len() ==> #[trigger] g[k] == 0
}

/// An IPv6 address is eight groups, or fewer with one `::` among them that
/// stands for the missing ones, at least one, all zero. Nothing else is.
pub proof fn ipv6_addresses_are_these(s: Seq<char>, g: Seq<u16>)
    ensures
        ipv6(s) == Some(g) <==> (g.len() == 8 && groups(s, true) == Some(g)) || exists|
            h: Seq<char>,
            a: Seq<u16>,
            t: Seq<char>,
            b: Seq<u16>,
        | made_around_gap(s, g, h, a, t, b),
{
    lemma_first_gap(s);
    if ipv6(s) == Some(g) && first_gap(s) < s.len() {
        lemma_gap_found(s, g);
    }
    if g.len() == 8 && groups(s, true) == Some(g) {
        let gap = first_gap(s);
        lemma_groups_have_no_gap(s, true, g);
        if gap < s.len() {
            assert(s[gap] == ':' && s[gap + 1] == ':');
        }
    }
    if exists|h: Seq<char>, a: Seq<u16>, t: Seq<char>, b: Seq<u16>|
        made_around_gap(s, g, h, a, t, b) {
        let (h, a, t, b) = choose|h: Seq<char>, a: Seq<u16>, t: Seq<char>, b: Seq<u16>|
            made_around_gap(s, g, h, a, t, b);
        lemma_gap_read(s, g, h, a, t, b);
    }
}

proof fn lemma_gap_found(s: Seq<char>, g: Seq<u16>)
    requires
        ipv6(s) == Some(g),
        first_gap(s) < s.len(),
    ensures
        exists|h: Seq<char>, a: Seq<u16>, t: Seq<char>, b: Seq<u16>|
            made_around_gap(s, g, h, a, t, b),
{
    let gap = first_gap(s);
    lemma_first_gap(s);
    let h = s.take(gap);
    let t = s.skip(gap + 2);
    let a = groups(h, false)->0;
    let b = groups(t, true)->0;
    assert(s =~= h + seq![':', ':'] + t);
    assert(g.take(a.len() as int) =~= a);
    assert(g.skip(8 - b.len()) =~= b);
    assert(made_around_gap(s, g, h, a, t, b));
}

proof fn lemma_gap_read(
    s: Seq<char>,
    g: Seq<u16>,
    h: Seq<char>,
    a: Seq<u16>,
    t: Seq<char>,
    b: Seq<u16>,
)
    requires
        made_around_gap(s, g, h, a, t, b),
    ensures
        ipv6(s) == Some(g),
{
    let n = h.len() as int;
    lemma_groups_have_no_gap(h, false, a);
    assert forall|j: int| 0 <= j < n && j + 1 < s.len() implies !(#[trigger] s[j] == ':' && s[j + 1]
        == ':') by {
        assert(s[j] == h[j]);
        if j + 1 < n {
            assert(s[j + 1] == h[j + 1]);
        }
    }
    lemma_first_gap_is(s, n);
    assert(s.take(n) =~= h);
    assert(s.skip(n + 2) =~= t);
    let all = a + zero_groups(8 - a.len() - b.len()) + b;
    assert forall|k: int| 0 <= k < 8 implies #[trigger] all[k] == g[k] by {
        if k < a.len() {
            assert(g.take(a.len() as int)[k] == g[k]);
        } else if k >= 8 - b.len() {
            assert(g.skip(8 - b.len())[k - (8 - b.len())] == g[k]);
        }
    }
    assert(all =~= g);
}

/// Each group is sixteen bits of the address, the first the highest.
pub proof fn groups_are_the_bits_of_the_address(g: Seq<u16>)
    ensures
        group_bits(g) / 0x1_0000_0000_0000_0000_0000_0000_0000 == g[0],
        group_bits(g) / 0x1_0000_0000_0000_0000_0000_0000 % 0x1_0000 == g[1],
        group_bits(g) / 0x1_0000_0000_0000_0000_0000 % 0x1_0000 == g[2],
        group_bits(g) / 0x1_0000_0000_0000_0000 % 0x1_0000 == g[3],
        group_bits(g) / 0x1_0000_0000_0000 % 0x1_0000 == g[4],
        group_bits(g) / 0x1_0000_0000 % 0x1_0000 == g[5],
        group_bits(g) / 0x1_0000 % 0x1_0000 == g[6],
        group_bits(g) % 0x1_0000 == g[7],
{
    let x = group_bits(g) as int;
    let v1 = g[0] * 0x1_0000 + g[1];
    let v2 = v1 * 0x1_0000 + g[2];
    let v3 = v2 * 0x1_0000 + g[3];
    let v4 = v3 * 0x1_0000 + g[4];
    let v5 = v4 * 0x1_0000 + g[5];
    let v6 = v5 * 0x1_0000 + g[6];
    let r1 = g[2] * 0x1_0000_0000_0000_0000_0000 + g[3] * 0x1_0000_0000_0000_0000 + g[4]
        * 0x1_0000_0000_0000 + g[5] * 0x1_0000_0000 + g[6] * 0x1_0000 + g[7];
    let r2 = g[3] * 0x1_0000_0000_0000_0000 + g[4] * 0x1_0000_0000_0000 + g[5] * 0x1_0000_0000
        + g[6] * 0x1_0000 + g[7];
    let r3 = g[4] * 0x1_0000_0000_0000 + g[5] * 0x1_0000_0000 + g[6] * 0x1_0000 + g[7];
    let r4 = g[5] * 0x1_0000_0000 + g[6] * 0x1_0000 + g[7];
    let r5 = g[6] * 0x1_0000 + g[7];
    let r0 = g[1] * 0x1_0000_0000_0000_0000_0000_0000 + r1;
    lemma_fundamental_div_mod_converse(
        x,
        0x1_0000_0000_0000_0000_0000_0000_0000,
        g[0] as int,
        r0,
    );
    lemma_fundamental_div_mod_converse(x, 0x1_0000_0000_0000_0000_0000_0000, v1, r1);
    lemma_fundamental_div_mod_converse(x, 0x1_0000_0000_0000_0000_0000, v2, r2);
    lemma_fundamental_div_mod_converse(x, 0x1_0000_0000_0000_0000, v3, r3);
    lemma_fundamental_div_mod_converse(x, 0x1_0000_0000_0000, v4, r4);
    lemma_fundamental_div_mod_converse(x, 0x1_0000_0000, v5, r5);
    lemma_fundamental_div_mod_converse(x, 0x1_0000, v6, g[7] as int);
    lemma_fundamental_div_mod_converse(v1, 0x1_0000, g[0] as int, g[1] as int);
    lemma_fundamental_div_mod_converse(v2, 0x1_0000, v1, g[2] as int);
    lemma_fundamental_div_mod_converse(v3, 0x1_0000, v2, g[3] as int);
    lemma_fundamental_div_mod_converse(v4, 0x1_0000, v3, g[4] as int);
    lemma_fundamental_div_mod_converse(v5, 0x1_0000, v4, g[5] as int);
    lemma_fundamental_div_mod_converse(v6, 0x1_0000, v5, g[6] as int);
}

} // verus!
