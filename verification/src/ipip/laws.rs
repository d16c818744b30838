//! Properties of route selection, address comparison and the command protocol
//! that hold for every input.
use crate::ipip::address;
use crate::ipip::executor;
use crate::ipip::node::{self, NodeView};
use crate::ipip::protocol::{self, Exchange, IoErrorView, RouteMode};
use crate::ipip::text;
use crate::ipip::tunnel;
use vstd::prelude::*;

verus! {

/// Without a configured group label every remote Node gets an IPIP route, and
/// choosing it issues no command.
pub proof fn law_unset_label_always_ipip(
    local: NodeView,
    remote: NodeView,
    log: Seq<Exchange>,
    s: int,
)
    ensures
        protocol::route_mode_protocol(local, remote, None, log, s) == Some((RouteMode::Ipip, s)),
{
}

/// Nodes in different groups always get an IPIP route, chosen without any
/// command. One Node with the label and one without are in different groups.
pub proof fn law_different_groups_use_ipip(
    local: NodeView,
    remote: NodeView,
    key: Seq<char>,
    log: Seq<Exchange>,
    s: int,
)
    requires
        !node::same_group(node::node_group(local, key), node::node_group(remote, key)),
    ensures
        protocol::route_mode_protocol(local, remote, Some(key), log, s) == Some(
            (RouteMode::Ipip, s),
        ),
{
}

/// A direct route needs all of: a configured label, one group for both Nodes,
/// an InternalIP on each, a successful address lookup that names the local
/// InternalIP with a prefix, and the remote InternalIP inside that subnet.
pub proof fn law_direct_requires_same_group_and_subnet(
    local: NodeView,
    remote: NodeView,
    label: Option<Seq<char>>,
    log: Seq<Exchange>,
    s: int,
    e: int,
)
    requires
        protocol::route_mode_protocol(local, remote, label, log, s) == Some((RouteMode::Direct, e)),
    ensures
        label matches Some(key) && node::same_group(
            node::node_group(local, key),
            node::node_group(remote, key),
        ),
        node::internal_ip(local) is Some,
        node::internal_ip(remote) is Some,
        e == s + 1,
        protocol::ran(log, s, protocol::addr_show_cmd()) matches Some(Ok(o)) && o.success && ({
            let lip = node::internal_ip(local)->0;
            let rip = node::internal_ip(remote)->0;
            let text = protocol::lossy_utf8(o.stdout);
            address::local_ipv4_prefix(text, lip) matches Some(p) && address::same_ipv4_subnet(
                lip,
                rip,
                p,
            )
        }),
{
}

/// The converse: with a configured label, one group for both Nodes, an
/// InternalIP on each, and a successful lookup that gives the local
/// InternalIP a prefix whose subnet holds the remote InternalIP, the route is
/// direct, whatever the prefix length.
pub proof fn law_same_group_and_subnet_is_direct(
    local: NodeView,
    remote: NodeView,
    key: Seq<char>,
    log: Seq<Exchange>,
    s: int,
    lip: Seq<char>,
    rip: Seq<char>,
    p: u8,
)
    requires
        node::same_group(node::node_group(local, key), node::node_group(remote, key)),
        node::internal_ip(local) == Some(lip),
        node::internal_ip(remote) == Some(rip),
        protocol::ran(log, s, protocol::addr_show_cmd()) matches Some(Ok(o)) && o.success
            && address::local_ipv4_prefix(protocol::lossy_utf8(o.stdout), lip) == Some(p),
        address::same_ipv4_subnet(lip, rip, p),
    ensures
        protocol::route_mode_protocol(local, remote, Some(key), log, s) == Some((RouteMode::Direct, s + 1)),
{
}

/// A failed address lookup, or one that does not report success, forces IPIP
/// even when the group matches.
pub proof fn law_failed_lookup_forces_ipip(
    local_ip: Seq<char>,
    remote_ip: Seq<char>,
    reply: Result<protocol::OutputView, IoErrorView>,
)
    requires
        reply matches Ok(o) ==> !o.success,
    ensures
        protocol::lookup_route_mode(local_ip, remote_ip, reply) == RouteMode::Ipip,
{
}

/// A lookup that does not name the local InternalIP with a prefix forces IPIP.
pub proof fn law_missing_prefix_forces_ipip(
    local_ip: Seq<char>,
    remote_ip: Seq<char>,
    addresses: Seq<char>,
)
    requires
        address::local_ipv4_prefix(addresses, local_ip) is None,
    ensures
        protocol::addresses_route_mode(local_ip, remote_ip, addresses) == RouteMode::Ipip,
{
}

/// The address `first_address` picks is that of the first entry of the type:
/// an entry of the type with none of the type before it gives its address,
/// and without an entry of the type there is none.
pub proof fn law_first_address_is_first_of_type(addrs: Seq<node::NodeAddressView>, ty: Seq<char>, i: int)
    ensures
        (0 <= i < addrs.len() && addrs[i].type_ == ty && forall|j: int|
            0 <= j < i ==> (#[trigger] addrs[j]).type_ != ty) ==> node::first_address(addrs, ty) == Some(
            addrs[i].address,
        ),
        (forall|j: int| 0 <= j < addrs.len() ==> (#[trigger] addrs[j]).type_ != ty) ==> node::first_address(
            addrs,
            ty,
        ) is None,
    decreases addrs.len(),
{
    if addrs.len() > 0 {
        let t = addrs.drop_first();
        law_first_address_is_first_of_type(t, ty, i - 1);
        if 0 <= i < addrs.len() && addrs[i].type_ == ty && forall|j: int|
            0 <= j < i ==> (#[trigger] addrs[j]).type_ != ty {
            if i > 0 {
                assert(addrs[0].type_ != ty);
                assert(t[i - 1] == addrs[i]);
                assert forall|j: int| 0 <= j < i - 1 implies (#[trigger] t[j]).type_ != ty by {
                    assert(t[j] == addrs[j + 1]);
                }
            }
        }
        if forall|j: int| 0 <= j < addrs.len() ==> (#[trigger] addrs[j]).type_ != ty {
            assert(addrs[0].type_ != ty);
            assert forall|j: int| 0 <= j < t.len() implies (#[trigger] t[j]).type_ != ty by {
                assert(t[j] == addrs[j + 1]);
            }
        }
    }
}

/// A Node's address for routing is its first InternalIP; only a Node without
/// any InternalIP uses its first ExternalIP, and a Node with neither has none.
pub proof fn law_node_ip_is_first_internal_else_first_external(n: NodeView, i: int)
    requires
        n.addresses is Some,
    ensures
        ({
            let a = n.addresses->0;
            &&& (0 <= i < a.len() && a[i].type_ == "InternalIP"@ && forall|j: int|
                0 <= j < i ==> (#[trigger] a[j]).type_ != "InternalIP"@) ==> node::node_ip(n) == Some(
                a[i].address,
            )
            &&& ((forall|j: int| 0 <= j < a.len() ==> (#[trigger] a[j]).type_ != "InternalIP"@) && 0
                <= i < a.len() && a[i].type_ == "ExternalIP"@ && forall|j: int|
                0 <= j < i ==> (#[trigger] a[j]).type_ != "ExternalIP"@) ==> node::node_ip(n) == Some(
                a[i].address,
            )
            &&& (forall|j: int|
                0 <= j < a.len() ==> (#[trigger] a[j]).type_ != "InternalIP"@ && a[j].type_
                    != "ExternalIP"@) ==> node::node_ip(n) is None
        }),
{
    let a = n.addresses->0;
    law_first_address_is_first_of_type(a, "InternalIP"@, i);
    law_first_address_is_first_of_type(a, "ExternalIP"@, i);
}

/// Whether the route to a PodCIDR goes through a tunnel is read from the
/// successful output of `ip route show to <cidr>`, and only from whether that
/// output mentions the tunnel's name; a failed command means no.
pub proof fn law_route_exists_reads_tunnel_name(cidr: Seq<char>, name: Seq<char>, log: Seq<Exchange>, s: int)
    ensures
        protocol::ran(log, s, protocol::route_show_cmd(cidr)) matches Some(reply) ==> protocol::route_exists_protocol(
            cidr,
            name,
            log,
            s,
        ) == Some(
            (
                match reply {
                    Ok(o) => o.success && text::contains_seq(protocol::lossy_utf8(o.stdout), name),
                    Err(_) => false,
                },
                s + 1,
            ),
        ),
        protocol::ran(log, s, protocol::route_show_cmd(cidr)) matches Some(Ok(o)) && !text::contains_seq(
            protocol::lossy_utf8(o.stdout),
            name,
        ) ==> protocol::route_exists_protocol(cidr, name, log, s) == Some((false, s + 1)),
{
}

/// Grouping is symmetric: whether two Nodes share a group does not depend on
/// which one is local.
pub proof fn law_same_group_symmetric(a: Option<Seq<char>>, b: Option<Seq<char>>)
    ensures
        node::same_group(a, b) == node::same_group(b, a),
{
}

/// An empty label value puts a Node in the default group, with the Nodes that
/// have no label.
pub proof fn law_empty_label_is_default_group(n: NodeView, key: Seq<char>)
    requires
        node::label_value(n.labels, key) matches Some(v) ==> v.len() == 0,
    ensures
        node::node_group(n, key) is None,
{
}

/// Two addresses in one subnet are in one subnet either way round.
pub proof fn law_same_subnet_symmetric(a: u32, b: u32, prefix: u8)
    ensures
        address::same_subnet(a, b, prefix) == address::same_subnet(b, a, prefix),
{
}

/// Every address is in its own subnet for every prefix length up to 32.
pub proof fn law_same_subnet_reflexive(a: u32, prefix: u8)
    requires
        prefix <= 32,
    ensures
        address::same_subnet(a, a, prefix),
{
}

/// Prefix length 0 holds every address; above 32 no prefix length holds any.
pub proof fn law_subnet_prefix_bounds(a: u32, b: u32, prefix: u8)
    ensures
        address::same_subnet(a, b, 0),
        prefix > 32 ==> !address::same_subnet(a, b, prefix),
{
    assert(a & 0u32 == 0u32 && b & 0u32 == 0u32) by (bit_vector);
}

/// At prefix length 32 a subnet holds a single address.
pub proof fn law_full_prefix_is_equality(a: u32, b: u32)
    ensures
        address::same_subnet(a, b, 32) == (a == b),
{
    assert((u32::MAX << 0u32) == 0xffff_ffffu32) by (bit_vector);
    assert(a & 0xffff_ffffu32 == a && b & 0xffff_ffffu32 == b) by (bit_vector);
}

/// A subnet lies inside every shorter-prefix subnet of its addresses.
pub proof fn law_subnet_monotone(a: u32, b: u32, p: u8, q: u8)
    requires
        q <= p,
        address::same_subnet(a, b, p),
    ensures
        address::same_subnet(a, b, q),
{
    if q == 0 {
        assert(a & 0u32 == 0u32 && b & 0u32 == 0u32) by (bit_vector);
    } else {
        let sp = (32 - p) as u32;
        let sq = (32 - q) as u32;
        assert(address::subnet_mask(p) == u32::MAX << sp);
        assert(address::subnet_mask(q) == u32::MAX << sq);
        assert((a & (u32::MAX << sp)) == (b & (u32::MAX << sp)) && sp <= sq && sq < 32 ==> (a & (
        u32::MAX << sq)) == (b & (u32::MAX << sq))) by (bit_vector);
    }
}

/// Subnet membership of two address texts: symmetric; false for a prefix
/// above 32 or a text that is not a dotted IPv4 address; true at prefix 0 and
/// for an address with itself; kept at every shorter prefix; and for prefixes
/// 1 to 32 the same as equal values after shifting out the host bits.
pub proof fn law_ipv4_subnet_texts(a: Seq<char>, b: Seq<char>, p: u8, q: u8)
    ensures
        address::same_ipv4_subnet(a, b, p) == address::same_ipv4_subnet(b, a, p),
        (p > 32 || address::ipv4_value(a) is None || address::ipv4_value(b) is None)
            ==> !address::same_ipv4_subnet(a, b, p),
        (address::ipv4_value(a) is Some && address::ipv4_value(b) is Some) ==> address::same_ipv4_subnet(
            a,
            b,
            0,
        ),
        (address::ipv4_value(a) is Some && p <= 32) ==> address::same_ipv4_subnet(a, a, p),
        (address::same_ipv4_subnet(a, b, p) && q <= p) ==> address::same_ipv4_subnet(a, b, q),
        (address::ipv4_value(a) is Some && address::ipv4_value(b) is Some && 1 <= p <= 32)
            ==> address::same_ipv4_subnet(a, b, p) == ((address::ipv4_value(a)->0) >> ((32 - p) as u32)
            == (address::ipv4_value(b)->0) >> ((32 - p) as u32)),
{
    if let (Some(x), Some(y)) = (address::ipv4_value(a), address::ipv4_value(b)) {
        law_subnet_prefix_bounds(x, y, p);
        if p <= 32 {
            law_same_subnet_reflexive(x, p);
        }
        if address::same_subnet(x, y, p) && q <= p {
            law_subnet_monotone(x, y, p, q);
        }
        if 1 <= p <= 32 {
            let sh = (32 - p) as u32;
            assert(address::subnet_mask(p) == u32::MAX << sh);
            assert(sh < 32 ==> (((x & (u32::MAX << sh)) == (y & (u32::MAX << sh))) == ((x >> sh)
                == (y >> sh)))) by (bit_vector);
        }
    }
    if let Some(x) = address::ipv4_value(a) {
        if p <= 32 {
            law_same_subnet_reflexive(x, p);
        }
    }
}

/// The prefix found for an address is at most 32.
pub proof fn law_found_prefix_at_most_32(text: Seq<char>, local_ip: Seq<char>)
    ensures
        address::local_ipv4_prefix(text, local_ip) matches Some(p) ==> p <= 32,
{
    if let Some(l) = address::ipv4_value(local_ip) {
        address::lemma_prefix_in_lines_bound(text::lines(text), l);
    }
}

/// An address that does not parse has no prefix, whatever the lookup printed.
pub proof fn law_unparsable_local_address_has_no_prefix(text: Seq<char>, local_ip: Seq<char>)
    requires
        address::ipv4_value(local_ip) is None,
    ensures
        address::local_ipv4_prefix(text, local_ip) is None,
        forall|r: Seq<char>, p: u8| !address::same_ipv4_subnet(local_ip, r, p),
{
}

/// A configured label key is never empty and neither starts nor ends with
/// whitespace, and it is stable: configuring it again changes nothing. An
/// unset value gives no key.
pub proof fn law_configured_label_idempotent(value: Seq<char>)
    ensures
        executor::configured_label(Some(value)) matches Some(k) ==> {
            &&& k.len() > 0
            &&& !text::is_white_space(k[0])
            &&& !text::is_white_space(k.last())
            &&& executor::configured_label(Some(k)) == Some(k)
        },
        executor::configured_label(None) is None,
{
    lemma_trim_idempotent(value);
    let a = text::trim_start(value);
    lemma_trim_start_idempotent(value);
    lemma_trim_end_keeps_start(a);
    lemma_trim_end_idempotent(a);
}

proof fn lemma_trim_start_idempotent(s: Seq<char>)
    ensures
        text::trim_start(text::trim_start(s)) == text::trim_start(s),
        text::trim_start(s).len() > 0 ==> !text::is_white_space(text::trim_start(s)[0]),
    decreases s.len(),
{
    if s.len() > 0 && text::is_white_space(s[0]) {
        lemma_trim_start_idempotent(s.drop_first());
    }
}

proof fn lemma_trim_end_idempotent(s: Seq<char>)
    ensures
        text::trim_end(text::trim_end(s)) == text::trim_end(s),
        text::trim_end(s).len() > 0 ==> !text::is_white_space(text::trim_end(s).last()),
    decreases s.len(),
{
    if s.len() > 0 && text::is_white_space(s.last()) {
        lemma_trim_end_idempotent(s.drop_last());
    }
}

proof fn lemma_trim_end_keeps_start(s: Seq<char>)
    requires
        s.len() > 0 ==> !text::is_white_space(s[0]),
    ensures
        text::trim_end(s).len() > 0 ==> !text::is_white_space(text::trim_end(s)[0]),
        text::trim_end(s).len() == 0 || text::trim_end(s)[0] == s[0],
    decreases s.len(),
{
    if s.len() > 0 && text::is_white_space(s.last()) {
        let d = s.drop_last();
        if d.len() > 0 {
            assert(d[0] == s[0]);
        }
        lemma_trim_end_keeps_start(d);
    }
}

proof fn lemma_trim_idempotent(s: Seq<char>)
    ensures
        text::trimmed(text::trimmed(s)) == text::trimmed(s),
{
    let a = text::trim_start(s);
    lemma_trim_start_idempotent(s);
    let b = text::trim_end(a);
    lemma_trim_end_keeps_start(a);
    lemma_trim_end_idempotent(a);
    // `b` starts and ends without whitespace, so trimming it again keeps it.
    assert(text::trim_start(b) == b);
}

/// A tunnel name is `tun-` followed by 11 lower-case hex digits of the Node's
/// MD5 digest (16 bytes), 15 characters in all, which Linux accepts as an
/// interface name.
pub proof fn law_tunnel_name_shape(digest: Seq<u8>)
    requires
        digest.len() == 16,
    ensures
        tunnel::tunnel_name_of_digest(digest).len() == 15,
        tunnel::tunnel_name_of_digest(digest).take(4) == "tun-"@,
        forall|i: int|
            4 <= i < 15 ==> "0123456789abcdef"@.contains(
                #[trigger] tunnel::tunnel_name_of_digest(digest)[i],
            ),
{
    reveal_strlit("tun-");
    reveal_strlit("0123456789abcdef");
    tunnel::lemma_lower_hex(digest);
    let name = tunnel::tunnel_name_of_digest(digest);
    assert(name.take(4) =~= "tun-"@);
    assert forall|i: int| 4 <= i < 15 implies "0123456789abcdef"@.contains(#[trigger] name[i]) by {
        let j = i - 4;
        let b = digest[j / 2];
        assert(name[i] == tunnel::lower_hex(digest)[j]);
        if j % 2 == 0 {
            assert(tunnel::lower_hex(digest)[2 * (j / 2)] == tunnel::hex_char(b / 16));
            assert("0123456789abcdef"@[(b / 16) as int] == name[i]);
        } else {
            assert(tunnel::lower_hex(digest)[2 * (j / 2) + 1] == tunnel::hex_char(b % 16));
            assert("0123456789abcdef"@[(b % 16) as int] == name[i]);
        }
    }
}

/// The local Node gets no route to itself: reconciling it issues no command.
pub proof fn law_no_route_to_self(
    local: NodeView,
    remote: NodeView,
    label: Option<Seq<char>>,
    log: Seq<Exchange>,
    s: int,
)
    requires
        node::name_any(local) == node::name_any(remote),
    ensures
        protocol::reconcile_protocol(local, remote, label, log, s) == Some((Ok::<(), IoErrorView>(()), s)),
{
}

/// A remote Node without PodCIDR or without address gets no route, and no
/// command is issued for it.
pub proof fn law_incomplete_node_gets_no_route(
    local: NodeView,
    remote: NodeView,
    label: Option<Seq<char>>,
    log: Seq<Exchange>,
    s: int,
)
    requires
        remote.pod_cidr is None || node::node_ip(remote) is None,
    ensures
        protocol::reconcile_protocol(local, remote, label, log, s) == Some((Ok::<(), IoErrorView>(()), s)),
{
}

} // verus!
