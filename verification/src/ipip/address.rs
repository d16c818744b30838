//! IPv4 addresses: parsing, subnet comparison and the prefix of the local
//! address in the output of `ip -o -4 addr show`.
use crate::ipip::text;
use vstd::prelude::*;

verus! {

/// An ASCII decimal digit.
pub open spec fn is_digit(c: char) -> bool {
    '0' <= c && c <= '9'
}

pub open spec fn digit_value(c: char) -> nat {
    ((c as u32) - ('0' as u32)) as nat
}

pub open spec fn all_digits(s: Seq<char>) -> bool {
    forall|i: int| 0 <= i < s.len() ==> is_digit(#[trigger] s[i])
}

/// The number that the decimal digits `s` denote; leading zeros add nothing.
pub open spec fn decimal_value(s: Seq<char>) -> nat
    decreases s.len(),
{
    if s.len() == 0 {
        0
    } else {
        decimal_value(s.drop_last()) * 10 + digit_value(s.last())
    }
}

/// `u8::from_str`: an optional `+` followed by at least one decimal digit,
/// denoting at most 255.
pub open spec fn u8_value(s: Seq<char>) -> Option<u8> {
    let digits = if s.len() > 0 && s[0] == '+' {
        s.drop_first()
    } else {
        s
    };
    if digits.len() > 0 && all_digits(digits) && decimal_value(digits) <= 255 {
        Some(decimal_value(digits) as u8)
    } else {
        None
    }
}

/// One octet of a dotted-decimal IPv4 address: decimal digits without a
/// leading zero (but `0` itself), denoting at most 255.
pub open spec fn octet_value(s: Seq<char>) -> Option<u8> {
    if s.len() > 0 && all_digits(s) && (s.len() == 1 || s[0] != '0') && decimal_value(s) <= 255 {
        Some(decimal_value(s) as u8)
    } else {
        None
    }
}

/// `Ipv4Addr::from_str` followed by `u32::from`: exactly four octets
/// separated by dots, the first octet in the most significant byte.
pub open spec fn ipv4_value(s: Seq<char>) -> Option<u32> {
    let parts = text::split_char(s, '.');
    if parts.len() == 4 {
        match (
            octet_value(parts[0]),
            octet_value(parts[1]),
            octet_value(parts[2]),
            octet_value(parts[3]),
        ) {
            (Some(a), Some(b), Some(c), Some(d)) => Some(
                (a * 0x1000000 + b * 0x10000 + c * 0x100 + d) as u32,
            ),
            _ => None,
        }
    } else {
        None
    }
}

pub proof fn lemma_decimal_monotone(s: Seq<char>, k: int)
    requires
        0 <= k <= s.len(),
        all_digits(s),
    ensures
        decimal_value(s.take(k)) <= decimal_value(s),
    decreases s.len() - k,
{
    if k < s.len() {
        let t = s.take(k + 1);
        assert(t.drop_last() =~= s.take(k));
        assert(all_digits(s.take(k + 1)));
        lemma_decimal_monotone(s, k + 1);
    } else {
        assert(s.take(k) =~= s);
    }
}

/// The value of the digits `s[from..to]`, when they are all digits and denote
/// at most 255.
fn small_decimal(s: &Vec<char>, from: usize, to: usize) -> (r: Option<u8>)
    requires
        from <= to <= s.len(),
    ensures
        r == (if all_digits(s@.subrange(from as int, to as int)) && decimal_value(
            s@.subrange(from as int, to as int),
        ) <= 255 {
            Some(decimal_value(s@.subrange(from as int, to as int)) as u8)
        } else {
            None
        }),
{
    let ghost sub = s@.subrange(from as int, to as int);
    let mut acc: u32 = 0;
    let mut i = from;
    while i < to
        invariant
            from <= i <= to <= s.len(),
            sub == s@.subrange(from as int, to as int),
            all_digits(s@.subrange(from as int, i as int)),
            acc == decimal_value(s@.subrange(from as int, i as int)),
            acc <= 255,
        decreases to - i,
    {
        let c = s[i];
        if !('0' <= c && c <= '9') {
            assert(sub[i - from] == c);
            return None;
        }
        let d = (c as u32) - ('0' as u32);
        let next = acc * 10 + d;
        proof {
            let t = s@.subrange(from as int, i + 1);
            assert(t.drop_last() =~= s@.subrange(from as int, i as int));
            assert(t.last() == c);
            assert(all_digits(t));
            assert(next == decimal_value(t));
        }
        if next > 255 {
            proof {
                if all_digits(sub) {
                    assert(sub.take(i + 1 - from) =~= s@.subrange(from as int, i + 1));
                    lemma_decimal_monotone(sub, i + 1 - from);
                }
            }
            return None;
        }
        acc = next;
        i = i + 1;
    }
    Some(acc as u8)
}

/// `u8::from_str` on `s[from..to]`.
pub fn parse_u8(s: &Vec<char>, from: usize, to: usize) -> (r: Option<u8>)
    requires
        from <= to <= s.len(),
    ensures
        r == u8_value(s@.subrange(from as int, to as int)),
{
    let ghost sub = s@.subrange(from as int, to as int);
    let start = if from < to && s[from] == '+' {
        from + 1
    } else {
        from
    };
    assert(s@.subrange(start as int, to as int) =~= (if sub.len() > 0 && sub[0] == '+' {
        sub.drop_first()
    } else {
        sub
    }));
    if start == to {
        return None;
    }
    small_decimal(s, start, to)
}

/// One octet on `s[from..to]`.
fn parse_octet(s: &Vec<char>, from: usize, to: usize) -> (r: Option<u8>)
    requires
        from <= to <= s.len(),
    ensures
        r == octet_value(s@.subrange(from as int, to as int)),
{
    if from == to {
        return None;
    }
    if to - from > 1 && s[from] == '0' {
        return None;
    }
    small_decimal(s, from, to)
}

proof fn lemma_split_at(s: Seq<char>, from: int, d: int, to: int)
    requires
        0 <= from <= d < to <= s.len(),
        text::char_index(s.subrange(from, to), '.') == d - from,
    ensures
        text::split_char(s.subrange(from, to), '.') == seq![s.subrange(from, d)]
            + text::split_char(s.subrange(d + 1, to), '.'),
{
    let sub = s.subrange(from, to);
    assert(sub.take(d - from) =~= s.subrange(from, d));
    assert(sub.skip(d - from + 1) =~= s.subrange(d + 1, to));
}

proof fn lemma_split_none(s: Seq<char>)
    requires
        text::char_index(s, '.') == s.len(),
    ensures
        text::split_char(s, '.') == seq![s],
{
}

proof fn lemma_split_nonempty(s: Seq<char>)
    ensures
        text::split_char(s, '.').len() >= 1,
    decreases s.len(),
{
    text::lemma_char_index(s, '.');
    let k = text::char_index(s, '.');
    if k < s.len() {
        lemma_split_nonempty(s.skip(k + 1 as int));
    }
}

/// `Ipv4Addr::from_str` on `s[from..to]`, as a `u32`.
pub fn parse_ipv4(s: &Vec<char>, from: usize, to: usize) -> (r: Option<u32>)
    requires
        from <= to <= s.len(),
    ensures
        r == ipv4_value(s@.subrange(from as int, to as int)),
{
    let ghost sub = s@.subrange(from as int, to as int);
    let d0 = find_dot(s, from, to);
    if d0 == to {
        proof { lemma_split_none(sub); }
        return None;
    }
    proof { lemma_split_at(s@, from as int, d0 as int, to as int); }
    let d1 = find_dot(s, d0 + 1, to);
    if d1 == to {
        proof { lemma_split_none(s@.subrange(d0 + 1, to as int)); }
        return None;
    }
    proof { lemma_split_at(s@, d0 + 1, d1 as int, to as int); }
    let d2 = find_dot(s, d1 + 1, to);
    if d2 == to {
        proof { lemma_split_none(s@.subrange(d1 + 1, to as int)); }
        return None;
    }
    proof { lemma_split_at(s@, d1 + 1, d2 as int, to as int); }
    let d3 = find_dot(s, d2 + 1, to);
    if d3 != to {
        proof {
            lemma_split_at(s@, d2 + 1, d3 as int, to as int);
            lemma_split_nonempty(s@.subrange(d3 + 1, to as int));
            assert(text::split_char(sub, '.').len() > 4);
        }
        return None;
    }
    proof {
        lemma_split_none(s@.subrange(d2 + 1, to as int));
        assert(text::split_char(sub, '.') =~= seq![
            s@.subrange(from as int, d0 as int),
            s@.subrange(d0 + 1, d1 as int),
            s@.subrange(d1 + 1, d2 as int),
            s@.subrange(d2 + 1, to as int),
        ]);
    }
    let a = parse_octet(s, from, d0);
    let b = parse_octet(s, d0 + 1, d1);
    let c = parse_octet(s, d1 + 1, d2);
    let d = parse_octet(s, d2 + 1, to);
    match (a, b, c, d) {
        (Some(a), Some(b), Some(c), Some(d)) => {
            Some((a as u32) * 0x1000000 + (b as u32) * 0x10000 + (c as u32) * 0x100 + (d as u32))
        },
        _ => None,
    }
}

/// The first dot in `s[from..to]`, or `to`.
fn find_dot(s: &Vec<char>, from: usize, to: usize) -> (r: usize)
    requires
        from <= to <= s.len(),
    ensures
        from <= r <= to,
        r - from == text::char_index(s@.subrange(from as int, to as int), '.'),
{
    text::find_char(s, from, to, '.')
}

/// The netmask of a prefix length at most 32.
pub open spec fn subnet_mask(prefix: u8) -> u32 {
    if prefix == 0 {
        0
    } else {
        (u32::MAX << ((32 - prefix) as u32)) as u32
    }
}

/// Two addresses lie in one subnet of the given prefix length.
pub open spec fn same_subnet(a: u32, b: u32, prefix: u8) -> bool {
    prefix <= 32 && a & subnet_mask(prefix) == b & subnet_mask(prefix)
}

/// Whether both texts are IPv4 addresses in one subnet of the given prefix.
pub open spec fn same_ipv4_subnet(local_ip: Seq<char>, remote_ip: Seq<char>, prefix: u8) -> bool {
    match (ipv4_value(local_ip), ipv4_value(remote_ip)) {
        (Some(a), Some(b)) => same_subnet(a, b, prefix),
        _ => false,
    }
}

/// Whether `local_ip` and `remote_ip` are IPv4 addresses whose first `prefix`
/// bits agree; an address that does not parse, or a prefix above 32, gives
/// `false`.
pub fn is_same_ipv4_subnet(local_ip: &str, remote_ip: &str, prefix: u8) -> (r: bool)
    ensures
        r == same_ipv4_subnet(local_ip@, remote_ip@, prefix),
{
    let l = text::chars_of(local_ip);
    let rm = text::chars_of(remote_ip);
    let a = parse_ipv4(&l, 0, l.len());
    let b = parse_ipv4(&rm, 0, rm.len());
    assert(l@.subrange(0, l@.len() as int) =~= local_ip@);
    assert(rm@.subrange(0, rm@.len() as int) =~= remote_ip@);
    match (a, b) {
        (Some(a), Some(b)) => {
            if prefix > 32 {
                return false;
            }
            let mask: u32 = if prefix == 0 {
                0
            } else {
                u32::MAX << ((32 - prefix) as u32)
            };
            a & mask == b & mask
        },
        _ => false,
    }
}

/// The prefix that two consecutive fields give: `inet` followed by
/// `<address>/<prefix>`, where the address is `local` and the prefix at most 32.
pub open spec fn inet_pair_prefix(first: Seq<char>, second: Seq<char>, local: u32) -> Option<u8> {
    if first == "inet"@ {
        let k = text::char_index(second, '/');
        if k < second.len() {
            match (ipv4_value(second.take(k as int)), u8_value(second.skip(k + 1 as int))) {
                (Some(a), Some(p)) => if a == local && p <= 32 {
                    Some(p)
                } else {
                    None
                },
                _ => None,
            }
        } else {
            None
        }
    } else {
        None
    }
}

/// The prefix of the first pair of consecutive fields that gives one.
pub open spec fn prefix_in_fields(f: Seq<Seq<char>>, local: u32) -> Option<u8>
    decreases f.len(),
{
    if f.len() < 2 {
        None
    } else {
        match inet_pair_prefix(f[0], f[1], local) {
            Some(p) => Some(p),
            None => prefix_in_fields(f.drop_first(), local),
        }
    }
}

/// The prefix of the first line whose fields give one.
pub open spec fn prefix_in_lines(ls: Seq<Seq<char>>, local: u32) -> Option<u8>
    decreases ls.len(),
{
    if ls.len() == 0 {
        None
    } else {
        match prefix_in_fields(text::fields(ls[0]), local) {
            Some(p) => Some(p),
            None => prefix_in_lines(ls.drop_first(), local),
        }
    }
}

/// The prefix length of `local_ip` in the text of `ip -o -4 addr show`.
pub open spec fn local_ipv4_prefix(text: Seq<char>, local_ip: Seq<char>) -> Option<u8> {
    match ipv4_value(local_ip) {
        Some(l) => prefix_in_lines(text::lines(text), l),
        None => None,
    }
}

/// The texts of index ranges into `s`.
pub open spec fn ranges_text(s: Seq<char>, r: Seq<(usize, usize)>) -> Seq<Seq<char>> {
    r.map_values(|p: (usize, usize)| s.subrange(p.0 as int, p.1 as int))
}

/// The fields of `s[from..to]`, as index ranges into `s`.
fn field_ranges(s: &Vec<char>, from: usize, to: usize) -> (r: Vec<(usize, usize)>)
    requires
        from <= to <= s.len(),
    ensures
        forall|i: int| 0 <= i < r.len() ==> from <= (#[trigger] r@[i]).0 <= r@[i].1 <= to,
        ranges_text(s@, r@) == text::fields(
            s@.subrange(from as int, to as int),
        ),
{
    let mut r: Vec<(usize, usize)> = Vec::new();
    let mut i = from;
    while i < to
        invariant
            from <= i <= to <= s.len(),
            forall|k: int| 0 <= k < r.len() ==> from <= (#[trigger] r@[k]).0 <= r@[k].1 <= i,
            text::fields(s@.subrange(from as int, to as int)) == ranges_text(s@, r@) + text::fields(s@.subrange(i as int, to as int)),
        decreases to - i,
    {
        let ghost rest = s@.subrange(i as int, to as int);
        let c = s[i];
        if c == ' ' || c == '\t' || c == '\n' || c == '\x0C' || c == '\r' {
            assert(rest.drop_first() =~= s@.subrange(i + 1, to as int));
            i = i + 1;
        } else {
            let mut j = i + 1;
            while j < to && !(s[j] == ' ' || s[j] == '\t' || s[j] == '\n' || s[j] == '\x0C'
                || s[j] == '\r')
                invariant
                    i < j <= to <= s.len(),
                    forall|k: int| i <= k < j ==> !text::is_ascii_whitespace(#[trigger] s@[k]),
                decreases to - j,
            {
                j = j + 1;
            }
            proof {
                assert forall|k: int| 0 <= k < j - i implies !text::is_ascii_whitespace(
                    #[trigger] rest[k],
                ) by {
                    assert(rest[k] == s@[i + k]);
                }
                text::lemma_token_len_is(rest, j - i);
                assert(rest.take(j - i) =~= s@.subrange(i as int, j as int));
                assert(rest.skip(j - i) =~= s@.subrange(j as int, to as int));
            }
            let ghost old_r = r@;
            r.push((i, j));
            assert(ranges_text(s@, r@)
                =~= ranges_text(s@, old_r)
                + seq![s@.subrange(i as int, j as int)]);
            i = j;
        }
    }
    assert(s@.subrange(to as int, to as int) =~= Seq::<char>::empty());
    assert(text::fields(s@.subrange(to as int, to as int)) =~= Seq::<Seq<char>>::empty());
    r
}

/// Whether `s[from..to]` is `inet`.
fn is_inet(s: &Vec<char>, from: usize, to: usize) -> (r: bool)
    requires
        from <= to <= s.len(),
    ensures
        r == (s@.subrange(from as int, to as int) == "inet"@),
{
    proof {
        reveal_strlit("inet");
    }
    assert("inet"@.len() == 4);
    if to - from != 4 {
        return false;
    }
    let r = s[from] == 'i' && s[from + 1] == 'n' && s[from + 2] == 'e' && s[from + 3] == 't';
    if r {
        assert(s@.subrange(from as int, to as int) =~= "inet"@);
    } else {
        assert(s@.subrange(from as int, to as int) != "inet"@) by {
            let t = s@.subrange(from as int, to as int);
            if t == "inet"@ {
                assert(t[0] == 'i' && t[1] == 'n' && t[2] == 'e' && t[3] == 't');
            }
        }
    }
    r
}

/// `inet_pair_prefix` on the fields `s[a0..b0]` and `s[a1..b1]`.
fn pair_prefix(s: &Vec<char>, a0: usize, b0: usize, a1: usize, b1: usize, local: u32) -> (r:
    Option<u8>)
    requires
        a0 <= b0 <= s.len(),
        a1 <= b1 <= s.len(),
    ensures
        r == inet_pair_prefix(
            s@.subrange(a0 as int, b0 as int),
            s@.subrange(a1 as int, b1 as int),
            local,
        ),
{
    if !is_inet(s, a0, b0) {
        return None;
    }
    let ghost second = s@.subrange(a1 as int, b1 as int);
    let k = text::find_char(s, a1, b1, '/');
    if k == b1 {
        return None;
    }
    assert(second.take(k - a1) =~= s@.subrange(a1 as int, k as int));
    assert(second.skip(k - a1 + 1) =~= s@.subrange(k + 1, b1 as int));
    let address = parse_ipv4(s, a1, k);
    let prefix = parse_u8(s, k + 1, b1);
    match (address, prefix) {
        (Some(a), Some(p)) => if a == local && p <= 32 {
            Some(p)
        } else {
            None
        },
        _ => None,
    }
}

/// `prefix_in_fields` on the fields `s[from..to]`.
fn prefix_in_line(s: &Vec<char>, from: usize, to: usize, local: u32) -> (r: Option<u8>)
    requires
        from <= to <= s.len(),
    ensures
        r == prefix_in_fields(text::fields(s@.subrange(from as int, to as int)), local),
{
    let ranges = field_ranges(s, from, to);
    let ghost f = ranges_text(s@, ranges@);
    if ranges.len() < 2 {
        return None;
    }
    let mut j: usize = 0;
    assert(f.skip(0) =~= f);
    while j + 1 < ranges.len()
        invariant
            ranges.len() >= 2,
            j + 1 <= ranges.len(),
            f == ranges_text(s@, ranges@),
            f == text::fields(s@.subrange(from as int, to as int)),
            forall|i: int|
                0 <= i < ranges.len() ==> from <= (#[trigger] ranges@[i]).0 <= ranges@[i].1 <= to,
            to <= s.len(),
            prefix_in_fields(f, local) == prefix_in_fields(f.skip(j as int), local),
        decreases ranges.len() - j,
    {
        let (a0, b0) = ranges[j];
        let (a1, b1) = ranges[j + 1];
        let p = pair_prefix(s, a0, b0, a1, b1, local);
        let ghost g = f.skip(j as int);
        assert(g[0] == s@.subrange(a0 as int, b0 as int));
        assert(g[1] == s@.subrange(a1 as int, b1 as int));
        assert(g.len() >= 2);
        if p.is_some() {
            assert(prefix_in_fields(g, local) == p);
            return p;
        }
        assert(g.drop_first() =~= f.skip(j + 1));
        j = j + 1;
    }
    assert(f.skip(j as int).len() < 2);
    None
}

/// The prefix length of the address `local` in `s[from..]`, line by line.
fn prefix_in_text(s: &Vec<char>, local: u32) -> (r: Option<u8>)
    ensures
        r == prefix_in_lines(text::lines(s@), local),
{
    let mut start: usize = 0;
    assert(s@.subrange(0, s@.len() as int) =~= s@);
    while start < s.len()
        invariant
            start <= s.len(),
            prefix_in_lines(text::lines(s@), local) == prefix_in_lines(
                text::lines(s@.subrange(start as int, s@.len() as int)),
                local,
            ),
        decreases s.len() - start,
    {
        let ghost rest = s@.subrange(start as int, s@.len() as int);
        let end = text::find_char(s, start, s.len(), '\n');
        let p = prefix_in_line(s, start, end, local);
        proof {
            text::lemma_char_index(rest, '\n');
            if end < s.len() {
                assert(rest.take(end - start) =~= s@.subrange(start as int, end as int));
                assert(rest.skip(end - start + 1) =~= s@.subrange(end + 1, s@.len() as int));
                assert(text::lines(rest) == seq![s@.subrange(start as int, end as int)] + text::lines(
                    s@.subrange(end + 1, s@.len() as int),
                ));
            } else {
                assert(rest =~= s@.subrange(start as int, end as int));
                assert(text::lines(rest) == seq![s@.subrange(start as int, end as int)]);
                assert(text::lines(rest).drop_first() =~= Seq::<Seq<char>>::empty());
            }
        }
        if p.is_some() {
            return p;
        }
        if end == s.len() {
            assert(prefix_in_lines(text::lines(rest).drop_first(), local) == None::<u8>);
            return None;
        }
        assert(text::lines(rest).drop_first() =~= text::lines(s@.subrange(end + 1, s@.len() as int)));
        start = end + 1;
    }
    assert(s@.subrange(start as int, s@.len() as int) =~= Seq::<char>::empty());
    None
}

/// The prefix length that `text` (the output of `ip -o -4 addr show`) gives
/// for the address `local_ip`: the first line with a field `inet` followed by
/// `<local_ip>/<prefix>`, where the prefix is at most 32.
pub fn find_local_ipv4_prefix(text: &str, local_ip: &str) -> (r: Option<u8>)
    ensures
        r == local_ipv4_prefix(text@, local_ip@),
        r matches Some(p) ==> p <= 32,
{
    let l = text::chars_of(local_ip);
    assert(l@.subrange(0, l@.len() as int) =~= local_ip@);
    let local = match parse_ipv4(&l, 0, l.len()) {
        Some(v) => v,
        None => return None,
    };
    let t = text::chars_of(text);
    let r = prefix_in_text(&t, local);
    proof {
        lemma_prefix_in_lines_bound(text::lines(t@), local);
    }
    r
}

pub proof fn lemma_prefix_in_fields_bound(f: Seq<Seq<char>>, local: u32)
    ensures
        prefix_in_fields(f, local) matches Some(p) ==> p <= 32,
    decreases f.len(),
{
    if f.len() >= 2 {
        lemma_prefix_in_fields_bound(f.drop_first(), local);
    }
}

pub proof fn lemma_prefix_in_lines_bound(ls: Seq<Seq<char>>, local: u32)
    ensures
        prefix_in_lines(ls, local) matches Some(p) ==> p <= 32,
    decreases ls.len(),
{
    if ls.len() > 0 {
        lemma_prefix_in_fields_bound(text::fields(ls[0]), local);
        lemma_prefix_in_lines_bound(ls.drop_first(), local);
    }
}

} // verus!
