//! An isolated model of a host network for route lifecycle checks; it never
//! executes host commands. It answers the commands that routing issues as a
//! Linux host would, keeps the routes and tunnels that they leave, and refuses
//! a command that a correct routing sequence never issues.
use crate::ipip::executor::{self, CommandOutput, IoError, IpCommandExecutor, LoggedExecutor, RouteConfig};
use crate::ipip::node::{self, Node, NodeAddress, NodeView};
use crate::ipip::protocol::{self, Exchange, IoErrorKind, IoErrorView, OutputView, RouteMode};
use crate::ipip::text;
use vstd::prelude::*;

verus! {

/// The label key that the checks group Nodes by.
pub const GROUP: &'static str = "router.example.com/group";

/// A configuration that groups Nodes by `GROUP`.
pub fn config() -> (r: RouteConfig)
    ensures
        r@ == executor::configured_label(Some(GROUP@)),
{
    RouteConfig::new(Some(GROUP.to_owned()))
}

/// A Node with a name, one InternalIP, an optional PodCIDR and an optional
/// group under `GROUP`.
pub fn node(name: &str, ip: &str, cidr: Option<&str>, group: Option<&str>) -> (r: Node)
    ensures
        r@.name == Some(name@),
        r@.generate_name is None,
        r@.pod_cidr == match cidr {
            Some(c) => Some(c@),
            None => None::<Seq<char>>,
        },
        r@.addresses == Some(seq![node::NodeAddressView { type_: "InternalIP"@, address: ip@ }]),
        r@.labels == match group {
            Some(g) => seq![(GROUP@, g@)],
            None => Seq::<(Seq<char>, Seq<char>)>::empty(),
        },
        node::unique_label_keys(r@.labels),
{
    let mut labels: Vec<(String, String)> = Vec::new();
    if let Some(g) = group {
        labels.push((GROUP.to_owned(), g.to_owned()));
    }
    let mut addresses: Vec<NodeAddress> = Vec::new();
    addresses.push(NodeAddress { type_: "InternalIP".to_owned(), address: ip.to_owned() });
    let pod_cidr = match cidr {
        Some(c) => Some(c.to_owned()),
        None => None,
    };
    let r = Node {
        name: Some(name.to_owned()),
        generate_name: None,
        labels,
        pod_cidr,
        addresses: Some(addresses),
    };
    assert(node::labels_view(r.labels@) =~= match group {
        Some(g) => seq![(GROUP@, g@)],
        None => Seq::<(Seq<char>, Seq<char>)>::empty(),
    });
    assert(node::addresses_view(r.addresses->0@) =~= seq![
        node::NodeAddressView { type_: "InternalIP"@, address: ip@ },
    ]);
    r
}

/// A route: through a next hop, or through a tunnel device.
#[derive(Debug, PartialEq, Eq)]
pub enum Route {
    Direct(String),
    Tunnel(String),
}

pub ghost enum RouteView {
    Direct(Seq<char>),
    Tunnel(Seq<char>),
}

impl View for Route {
    type V = RouteView;

    open spec fn view(&self) -> RouteView {
        match self {
            Route::Direct(s) => RouteView::Direct(s@),
            Route::Tunnel(s) => RouteView::Tunnel(s@),
        }
    }
}

impl Clone for Route {
    fn clone(&self) -> (r: Self)
        ensures
            r@ == self@,
    {
        match self {
            Route::Direct(s) => Route::Direct(s.clone()),
            Route::Tunnel(s) => Route::Tunnel(s.clone()),
        }
    }
}

/// An IPIP tunnel device: its endpoints, whether it is up, and whether its
/// reverse-path filter is off.
#[derive(Debug, PartialEq, Eq)]
pub struct Tunnel {
    pub local: String,
    pub remote: String,
    pub up: bool,
    pub rp_filter_disabled: bool,
}

pub ghost struct TunnelView {
    pub local: Seq<char>,
    pub remote: Seq<char>,
    pub up: bool,
    pub rp_filter_disabled: bool,
}

impl View for Tunnel {
    type V = TunnelView;

    open spec fn view(&self) -> TunnelView {
        TunnelView {
            local: self.local@,
            remote: self.remote@,
            up: self.up,
            rp_filter_disabled: self.rp_filter_disabled,
        }
    }
}

impl Clone for Tunnel {
    fn clone(&self) -> (r: Self)
        ensures
            r@ == self@,
    {
        Tunnel {
            local: self.local.clone(),
            remote: self.remote.clone(),
            up: self.up,
            rp_filter_disabled: self.rp_filter_disabled,
        }
    }
}

/// The index of the first entry under `key`.
pub open spec fn entry_index<V>(entries: Seq<(Seq<char>, V)>, key: Seq<char>) -> Option<int>
    decreases entries.len(),
{
    if entries.len() == 0 {
        None
    } else if entries[0].0 == key {
        Some(0)
    } else {
        match entry_index(entries.drop_first(), key) {
            Some(i) => Some(i + 1),
            None => None,
        }
    }
}

/// The value under `key`.
pub open spec fn entry<V>(entries: Seq<(Seq<char>, V)>, key: Seq<char>) -> Option<V> {
    match entry_index(entries, key) {
        Some(i) => Some(entries[i].1),
        None => None,
    }
}

/// The entries with `value` under `key`, replacing the value there.
pub open spec fn with_entry<V>(entries: Seq<(Seq<char>, V)>, key: Seq<char>, value: V) -> Seq<
    (Seq<char>, V),
> {
    match entry_index(entries, key) {
        Some(i) => entries.update(i, (key, value)),
        None => entries.push((key, value)),
    }
}

pub proof fn lemma_entry_index<V>(entries: Seq<(Seq<char>, V)>, key: Seq<char>)
    ensures
        entry_index(entries, key) matches Some(i) ==> 0 <= i < entries.len() && entries[i].0
            == key && forall|j: int| 0 <= j < i ==> (#[trigger] entries[j]).0 != key,
        entry_index(entries, key) is None ==> forall|j: int|
            0 <= j < entries.len() ==> (#[trigger] entries[j]).0 != key,
    decreases entries.len(),
{
    if entries.len() > 0 {
        let t = entries.drop_first();
        lemma_entry_index(t, key);
        assert forall|j: int| 1 <= j < entries.len() implies (#[trigger] entries[j]) == t[j - 1] by {}
    }
}

pub proof fn lemma_filter_step<A>(s: Seq<A>, p: spec_fn(A) -> bool, e: A)
    ensures
        s.push(e).filter(p) == (if p(e) {
            s.filter(p).push(e)
        } else {
            s.filter(p)
        }),
{
    reveal(Seq::filter);
    assert(s.push(e).drop_last() =~= s);
}

/// The state of the model network.
pub ghost struct NetworkView {
    /// What `ip -o -4 addr show` prints.
    pub addresses: Seq<char>,
    /// A command that fails when issued.
    pub fail_on: Option<Seq<Seq<char>>>,
    pub routes: Seq<(Seq<char>, RouteView)>,
    pub tunnels: Seq<(Seq<char>, TunnelView)>,
    /// Every command issued, in order; disabling reverse-path filtering counts
    /// as `rp_filter <interface> 0`.
    pub calls: Seq<Seq<Seq<char>>>,
}

pub open spec fn injected_failure() -> IoErrorView {
    IoErrorView { kind: IoErrorKind::Other, message: "injected command failure"@ }
}

/// A command that a correct routing sequence never issues.
pub open spec fn refused(message: Seq<char>) -> IoErrorView {
    IoErrorView { kind: IoErrorKind::Other, message }
}

pub open spec fn done() -> Result<OutputView, IoErrorView> {
    Ok(OutputView { success: true, stdout: Seq::empty() })
}

pub open spec fn rp_filter_call(interface: Seq<char>) -> Seq<Seq<char>> {
    seq!["rp_filter"@, interface, "0"@]
}

/// The routes that survive deleting the tunnel `name`.
pub open spec fn route_kept(name: Seq<char>) -> spec_fn((Seq<char>, RouteView)) -> bool {
    |e: (Seq<char>, RouteView)| e.1 != RouteView::Tunnel(name)
}

/// What the model does with `ip` and `args` once recorded.
pub open spec fn net_apply(st: NetworkView, a: Seq<Seq<char>>) -> (
    NetworkView,
    Result<OutputView, IoErrorView>,
) {
    if a == protocol::addr_show_cmd() {
        (st, Ok(OutputView { success: true, stdout: vstd::utf8::encode_utf8(st.addresses) }))
    } else if a.len() == 4 && a == protocol::link_show_cmd(a[3]) {
        if entry_index(st.tunnels, a[3]) is Some {
            (st, done())
        } else {
            (st, Err(IoErrorView { kind: IoErrorKind::NotFound, message: "no such device"@ }))
        }
    } else if a.len() == 9 && a == protocol::tunnel_add_cmd(a[2], a[6], a[8]) {
        if entry_index(st.tunnels, a[2]) is Some {
            (st, Err(refused("duplicate tunnel creation"@)))
        } else {
            (
                NetworkView {
                    tunnels: st.tunnels.push(
                        (
                            a[2],
                            TunnelView {
                                local: a[6],
                                remote: a[8],
                                up: false,
                                rp_filter_disabled: false,
                            },
                        ),
                    ),
                    ..st
                },
                done(),
            )
        }
    } else if a.len() == 5 && a == protocol::link_up_cmd(a[3]) {
        match entry(st.tunnels, a[3]) {
            Some(t) => (
                NetworkView {
                    tunnels: with_entry(st.tunnels, a[3], TunnelView { up: true, ..t }),
                    ..st
                },
                done(),
            ),
            None => (st, Err(refused("missing tunnel"@))),
        }
    } else if a.len() == 5 && a == protocol::route_via_cmd(a[2], a[4]) {
        (NetworkView { routes: with_entry(st.routes, a[2], RouteView::Direct(a[4])), ..st }, done())
    } else if a.len() == 5 && a == protocol::route_dev_cmd(a[2], a[4]) {
        match entry(st.tunnels, a[4]) {
            Some(t) => if t.up && t.rp_filter_disabled {
                (
                    NetworkView {
                        routes: with_entry(st.routes, a[2], RouteView::Tunnel(a[4])),
                        ..st
                    },
                    done(),
                )
            } else {
                (st, Err(refused("tunnel must be ready before routing"@)))
            },
            None => (st, Err(refused("route installed before tunnel creation"@))),
        }
    } else if a.len() == 3 && a == protocol::route_del_cmd(a[2]) {
        match entry_index(st.routes, a[2]) {
            Some(i) => (NetworkView { routes: st.routes.remove(i), ..st }, done()),
            None => (st, Err(IoErrorView { kind: IoErrorKind::NotFound, message: "no such route"@ })),
        }
    } else if a.len() == 3 && a == protocol::tunnel_del_cmd(a[2]) {
        match entry_index(st.tunnels, a[2]) {
            Some(i) => (
                NetworkView {
                    tunnels: st.tunnels.remove(i),
                    routes: st.routes.filter(route_kept(a[2])),
                    ..st
                },
                done(),
            ),
            None => (st, Err(refused("missing tunnel"@))),
        }
    } else {
        (st, Err(refused("unexpected network command"@)))
    }
}

/// Running `ip` with `args` on the model: the command is recorded, fails when
/// it is the injected failure, and otherwise takes effect.
pub open spec fn net_run(st: NetworkView, args: Seq<Seq<char>>) -> (
    NetworkView,
    Result<OutputView, IoErrorView>,
) {
    let recorded = NetworkView { calls: st.calls.push(args), ..st };
    if st.fail_on == Some(args) {
        (recorded, Err(injected_failure()))
    } else {
        net_apply(recorded, args)
    }
}

/// Disabling reverse-path filtering on `interface` in the model.
pub open spec fn net_disable_rp_filter(st: NetworkView, interface: Seq<char>) -> (
    NetworkView,
    Result<(), IoErrorView>,
) {
    let call = rp_filter_call(interface);
    let recorded = NetworkView { calls: st.calls.push(call), ..st };
    if st.fail_on == Some(call) {
        (recorded, Err(injected_failure()))
    } else {
        match entry(recorded.tunnels, interface) {
            Some(t) => (
                NetworkView {
                    tunnels: with_entry(
                        recorded.tunnels,
                        interface,
                        TunnelView { rp_filter_disabled: true, ..t },
                    ),
                    ..recorded
                },
                Ok(()),
            ),
            None => (recorded, Err(refused("missing tunnel"@))),
        }
    }
}

/// A model host network.
pub struct Network {
    /// What `ip -o -4 addr show` prints.
    pub addresses: String,
    /// A command that fails, as `ip` arguments.
    pub fail_on: Option<Vec<String>>,
    routes: Vec<(String, Route)>,
    tunnels: Vec<(String, Tunnel)>,
    calls: Vec<Vec<String>>,
}

pub open spec fn strings_view(v: Seq<String>) -> Seq<Seq<char>> {
    v.map_values(|s: String| s@)
}

pub open spec fn routes_view(v: Seq<(String, Route)>) -> Seq<(Seq<char>, RouteView)> {
    v.map_values(|e: (String, Route)| (e.0@, e.1@))
}

pub open spec fn tunnels_view(v: Seq<(String, Tunnel)>) -> Seq<(Seq<char>, TunnelView)> {
    v.map_values(|e: (String, Tunnel)| (e.0@, e.1@))
}

pub open spec fn calls_view(v: Seq<Vec<String>>) -> Seq<Seq<Seq<char>>> {
    v.map_values(|c: Vec<String>| strings_view(c@))
}

impl View for Network {
    type V = NetworkView;

    closed spec fn view(&self) -> NetworkView {
        NetworkView {
            addresses: self.addresses@,
            fail_on: match self.fail_on {
                Some(f) => Some(strings_view(f@)),
                None => None,
            },
            routes: routes_view(self.routes@),
            tunnels: tunnels_view(self.tunnels@),
            calls: calls_view(self.calls@),
        }
    }
}

fn to_strings(args: &[&str]) -> (r: Vec<String>)
    ensures
        strings_view(r@) == executor::args_view(args@),
{
    let mut r: Vec<String> = Vec::new();
    for i in 0..args.len()
        invariant
            r@.len() == i,
            forall|k: int| 0 <= k < i ==> (#[trigger] r@[k])@ == args@[k]@,
    {
        r.push(args[i].to_owned());
    }
    assert(strings_view(r@) =~= executor::args_view(args@));
    r
}

fn strings_eq(a: &Vec<String>, b: &Vec<String>) -> (r: bool)
    ensures
        r == (strings_view(a@) == strings_view(b@)),
{
    if a.len() != b.len() {
        assert(strings_view(a@).len() != strings_view(b@).len());
        return false;
    }
    for i in 0..a.len()
        invariant
            a.len() == b.len(),
            forall|k: int| 0 <= k < i ==> (#[trigger] a@[k])@ == b@[k]@,
    {
        if !text::str_eq(a[i].as_str(), b[i].as_str()) {
            assert(strings_view(a@)[i as int] != strings_view(b@)[i as int]);
            return false;
        }
    }
    assert(strings_view(a@) =~= strings_view(b@));
    true
}

/// Whether `args[i]` is `w`.
fn word(args: &[&str], i: usize, w: &str) -> (r: bool)
    ensures
        r == (i < args@.len() && args@[i as int]@ == w@),
{
    i < args.len() && text::str_eq(args[i], w)
}

fn route_index(routes: &Vec<(String, Route)>, key: &str) -> (r: Option<usize>)
    ensures
        match r {
            Some(i) => i < routes@.len() && entry_index(routes_view(routes@), key@) == Some(i as int),
            None => entry_index(routes_view(routes@), key@) is None,
        },
{
    let ghost all = routes_view(routes@);
    proof {
        lemma_entry_index(all, key@);
    }
    for i in 0..routes.len()
        invariant
            all == routes_view(routes@),
            forall|j: int| 0 <= j < i ==> (#[trigger] all[j]).0 != key@,
            entry_index(all, key@) matches Some(k) ==> k >= i,
    {
        proof {
            lemma_entry_index(all, key@);
        }
        assert(all[i as int].0 == routes@[i as int].0@);
        if text::str_eq(routes[i].0.as_str(), key) {
            proof {
                lemma_entry_index(all, key@);
            }
            return Some(i);
        }
    }
    proof {
        lemma_entry_index(all, key@);
    }
    None
}

fn tunnel_index(tunnels: &Vec<(String, Tunnel)>, key: &str) -> (r: Option<usize>)
    ensures
        match r {
            Some(i) => i < tunnels@.len() && entry_index(tunnels_view(tunnels@), key@) == Some(i as int),
            None => entry_index(tunnels_view(tunnels@), key@) is None,
        },
{
    let ghost all = tunnels_view(tunnels@);
    proof {
        lemma_entry_index(all, key@);
    }
    for i in 0..tunnels.len()
        invariant
            all == tunnels_view(tunnels@),
            forall|j: int| 0 <= j < i ==> (#[trigger] all[j]).0 != key@,
            entry_index(all, key@) matches Some(k) ==> k >= i,
    {
        proof {
            lemma_entry_index(all, key@);
        }
        assert(all[i as int].0 == tunnels@[i as int].0@);
        if text::str_eq(tunnels[i].0.as_str(), key) {
            proof {
                lemma_entry_index(all, key@);
            }
            return Some(i);
        }
    }
    proof {
        lemma_entry_index(all, key@);
    }
    None
}

fn failure(message: &str) -> (r: Result<CommandOutput, IoError>)
    ensures
        executor::output_reply(r) == Err::<OutputView, IoErrorView>(refused(message@)),
{
    Err(IoError::new(IoErrorKind::Other, message))
}

fn done_output() -> (r: Result<CommandOutput, IoError>)
    ensures
        executor::output_reply(r) == done(),
{
    let r = Ok(CommandOutput { success: true, stdout: Vec::new() });
    assert(executor::output_reply(r) == done());
    r
}

impl Default for Network {
    fn default() -> (r: Self)
        ensures
            r@.addresses == "2: eth0 inet 192.0.2.1/24 brd 192.0.2.255 scope global eth0\n"@,
            r@.fail_on is None,
            r.wf(),
            r@.routes.len() == 0,
            r@.tunnels.len() == 0,
            r@.calls.len() == 0,
    {
        let r = Network {
            addresses: "2: eth0 inet 192.0.2.1/24 brd 192.0.2.255 scope global eth0\n".to_owned(),
            fail_on: None,
            routes: Vec::new(),
            tunnels: Vec::new(),
            calls: Vec::new(),
        };
        assert(r@.routes =~= Seq::<(Seq<char>, RouteView)>::empty());
        assert(r@.tunnels =~= Seq::<(Seq<char>, TunnelView)>::empty());
        assert(r@.calls =~= Seq::<Seq<Seq<char>>>::empty());
        r
    }
}

impl Network {
    /// No two routes share a destination, and no two tunnels a name.
    pub open spec fn wf(&self) -> bool {
        keys_unique(self@)
    }

    /// The route to `cidr`.
    pub fn route(&self, cidr: &str) -> (r: Option<Route>)
        ensures
            match r {
                Some(x) => entry(self@.routes, cidr@) == Some(x@),
                None => entry(self@.routes, cidr@) is None,
            },
    {
        match route_index(&self.routes, cidr) {
            Some(i) => Some(self.routes[i].1.clone()),
            None => None,
        }
    }

    /// The tunnel named `name`.
    pub fn tunnel(&self, name: &str) -> (r: Option<Tunnel>)
        ensures
            match r {
                Some(x) => entry(self@.tunnels, name@) == Some(x@),
                None => entry(self@.tunnels, name@) is None,
            },
    {
        match tunnel_index(&self.tunnels, name) {
            Some(i) => Some(self.tunnels[i].1.clone()),
            None => None,
        }
    }

    /// How many routes there are.
    pub fn route_count(&self) -> (r: usize)
        ensures
            r == self@.routes.len(),
    {
        self.routes.len()
    }

    /// How many tunnels there are.
    pub fn tunnel_count(&self) -> (r: usize)
        ensures
            r == self@.tunnels.len(),
    {
        self.tunnels.len()
    }

    /// The commands issued so far.
    pub fn calls(&self) -> (r: &Vec<Vec<String>>)
        ensures
            calls_view(r@) == self@.calls,
    {
        &self.calls
    }

    /// Forgets the commands issued so far.
    pub fn clear_calls(&mut self)
        ensures
            final(self)@ == (NetworkView { calls: Seq::empty(), ..old(self)@ }),
            old(self).wf() ==> final(self).wf(),
    {
        self.calls = Vec::new();
        assert(calls_view(self.calls@) =~= Seq::<Seq<Seq<char>>>::empty());
    }

    /// Sets the route to `cidr`, as if another program had.
    pub fn insert_route(&mut self, cidr: String, route: Route)
        ensures
            final(self)@ == (NetworkView {
                routes: with_entry(old(self)@.routes, cidr@, route@),
                ..old(self)@
            }),
            old(self).wf() ==> final(self).wf(),
    {
        proof {
            lemma_with_entry(old(self)@.routes, cidr@, route@, cidr@);
        }
        let ghost key = cidr@;
        let ghost value = route@;
        match route_index(&self.routes, cidr.as_str()) {
            Some(i) => {
                self.routes.set(i, (cidr, route));
            },
            None => {
                self.routes.push((cidr, route));
            },
        }
        assert(routes_view(self.routes@) =~= with_entry(old(self)@.routes, key, value));
    }

    /// Removes every route, as if another program had.
    pub fn clear_routes(&mut self)
        ensures
            final(self)@ == (NetworkView { routes: Seq::empty(), ..old(self)@ }),
            old(self).wf() ==> final(self).wf(),
    {
        self.routes = Vec::new();
        assert(routes_view(self.routes@) =~= Seq::<(Seq<char>, RouteView)>::empty());
    }

    fn set_route(&mut self, cidr: &str, route: Route)
        ensures
            final(self)@ == (NetworkView {
                routes: with_entry(old(self)@.routes, cidr@, route@),
                ..old(self)@
            }),
    {
        self.insert_route(cidr.to_owned(), route);
    }

    /// Records a command; it fails when it is the injected failure.
    fn record(&mut self, call: Vec<String>) -> (r: bool)
        ensures
            final(self)@ == (NetworkView {
                calls: old(self)@.calls.push(strings_view(call@)),
                ..old(self)@
            }),
            r == (old(self)@.fail_on == Some(strings_view(call@))),
    {
        let failed = match &self.fail_on {
            Some(f) => strings_eq(f, &call),
            None => false,
        };
        let ghost c = strings_view(call@);
        self.calls.push(call);
        assert(calls_view(self.calls@) =~= calls_view(old(self).calls@).push(c));
        failed
    }

    /// The effect of `ip` with `args` once recorded.
    fn apply(&mut self, args: &[&str]) -> (r: Result<CommandOutput, IoError>)
        ensures
            (final(self)@, executor::output_reply(r)) == net_apply(
                old(self)@,
                executor::args_view(args@),
            ),
    {
        let ghost a = executor::args_view(args@);
        let ghost st = self@;
        if args.len() == 4 && word(args, 0, "-o") && word(args, 1, "-4") && word(args, 2, "addr")
            && word(args, 3, "show") {
            assert(a =~= protocol::addr_show_cmd());
            let stdout = self.addresses.as_str().as_bytes_vec();
            return Ok(CommandOutput { success: true, stdout });
        }
        assert(a.len() == 4 && a[0] == "-o"@ && a[1] == "-4"@ && a[2] == "addr"@ && a[3]
            == "show"@ ==> a =~= protocol::addr_show_cmd());
        if args.len() == 4 && word(args, 0, "link") && word(args, 1, "show") && word(args, 2, "dev") {
            assert(a =~= protocol::link_show_cmd(a[3]));
            if tunnel_index(&self.tunnels, args[3]).is_some() {
                return done_output();
            }
            return Err(IoError::new(IoErrorKind::NotFound, "no such device"));
        }
        if args.len() == 9 && word(args, 0, "tunnel") && word(args, 1, "add") && word(args, 3, "mode")
            && word(args, 4, "ipip") && word(args, 5, "local") && word(args, 7, "remote") {
            assert(a =~= protocol::tunnel_add_cmd(a[2], a[6], a[8]));
            if tunnel_index(&self.tunnels, args[2]).is_some() {
                return failure("duplicate tunnel creation");
            }
            let t = Tunnel {
                local: args[6].to_owned(),
                remote: args[8].to_owned(),
                up: false,
                rp_filter_disabled: false,
            };
            self.tunnels.push((args[2].to_owned(), t));
            assert(tunnels_view(self.tunnels@) =~= st.tunnels.push(
                (a[2], TunnelView { local: a[6], remote: a[8], up: false, rp_filter_disabled: false }),
            ));
            return done_output();
        }
        if args.len() == 5 && word(args, 0, "link") && word(args, 1, "set") && word(args, 2, "dev")
            && word(args, 4, "up") {
            assert(a =~= protocol::link_up_cmd(a[3]));
            match tunnel_index(&self.tunnels, args[3]) {
                Some(i) => {
                    let mut t = self.tunnels[i].1.clone();
                    t.up = true;
                    let ghost tv = t@;
                    self.tunnels.set(i, (args[3].to_owned(), t));
                    assert(tunnels_view(self.tunnels@) =~= with_entry(st.tunnels, a[3], tv));
                    return done_output();
                },
                None => return failure("missing tunnel"),
            }
        }
        if args.len() == 5 && word(args, 0, "route") && word(args, 1, "replace") && word(args, 3, "via") {
            assert(a =~= protocol::route_via_cmd(a[2], a[4]));
            self.set_route(args[2], Route::Direct(args[4].to_owned()));
            return done_output();
        }
        if args.len() == 5 && word(args, 0, "route") && word(args, 1, "replace") && word(args, 3, "dev") {
            assert(a =~= protocol::route_dev_cmd(a[2], a[4]));
            match tunnel_index(&self.tunnels, args[4]) {
                Some(i) => {
                    if self.tunnels[i].1.up && self.tunnels[i].1.rp_filter_disabled {
                        self.set_route(args[2], Route::Tunnel(args[4].to_owned()));
                        return done_output();
                    }
                    return failure("tunnel must be ready before routing");
                },
                None => return failure("route installed before tunnel creation"),
            }
        }
        if args.len() == 3 && word(args, 0, "route") && word(args, 1, "del") {
            assert(a =~= protocol::route_del_cmd(a[2]));
            match route_index(&self.routes, args[2]) {
                Some(i) => {
                    self.routes.remove(i);
                    assert(routes_view(self.routes@) =~= st.routes.remove(i as int));
                    return done_output();
                },
                None => return Err(IoError::new(IoErrorKind::NotFound, "no such route")),
            }
        }
        if args.len() == 3 && word(args, 0, "tunnel") && word(args, 1, "del") {
            assert(a =~= protocol::tunnel_del_cmd(a[2]));
            match tunnel_index(&self.tunnels, args[2]) {
                Some(i) => {
                    self.tunnels.remove(i);
                    assert(tunnels_view(self.tunnels@) =~= st.tunnels.remove(i as int));
                    self.drop_tunnel_routes(args[2]);
                    return done_output();
                },
                None => return failure("missing tunnel"),
            }
        }
        failure("unexpected network command")
    }

    /// Drops the routes through the tunnel `name`.
    fn drop_tunnel_routes(&mut self, name: &str)
        ensures
            final(self)@ == (NetworkView {
                routes: old(self)@.routes.filter(route_kept(name@)),
                ..old(self)@
            }),
    {
        let ghost pred = route_kept(name@);
        let ghost all = old(self)@.routes;
        let mut kept: Vec<(String, Route)> = Vec::new();
        let mut old_routes: Vec<(String, Route)> = Vec::new();
        std::mem::swap(&mut old_routes, &mut self.routes);
        assert(routes_view(old_routes@) == all);
        let mut i: usize = 0;
        let n = old_routes.len();
        assert(all.take(0) =~= Seq::<(Seq<char>, RouteView)>::empty());
        while i < n
            invariant
                i <= n,
                n == old_routes.len(),
                routes_view(old_routes@) == all,
                routes_view(kept@) == all.take(i as int).filter(pred),
                pred == route_kept(name@),
            decreases n - i,
        {
            let through = match &old_routes[i].1 {
                Route::Tunnel(t) => text::str_eq(t.as_str(), name),
                Route::Direct(_) => false,
            };
            let ghost e = all[i as int];
            assert(e == (old_routes@[i as int].0@, old_routes@[i as int].1@));
            assert(through == (e.1 == RouteView::Tunnel(name@)));
            assert(through == !pred(e));
            assert(all.take(i + 1).drop_last() =~= all.take(i as int));
            proof {
                lemma_filter_step(all.take(i as int), pred, e);
                assert(all.take(i as int).push(e) =~= all.take(i + 1));
            }
            if !through {
                let entry = (old_routes[i].0.clone(), old_routes[i].1.clone());
                kept.push(entry);
                assert(routes_view(kept@) =~= all.take(i as int).filter(pred).push(e));
            }
            i = i + 1;
        }
        assert(all.take(n as int) =~= all);
        self.routes = kept;
    }
}

impl IpCommandExecutor for Network {
    /// A call takes the model from one state to the next exactly as the
    /// model answers it.
    open spec fn answers(before: Self, after: Self, call: Exchange) -> bool {
        net_step(before@, call) == Some(after@)
    }

    fn run(&mut self, args: &[&str]) -> (r: Result<CommandOutput, IoError>)
        ensures
            (final(self)@, executor::output_reply(r)) == net_run(
                old(self)@,
                executor::args_view(args@),
            ),
            old(self).wf() ==> final(self).wf(),
    {
        proof {
            if old(self).wf() {
                lemma_calls_keep_keys_unique(old(self)@, executor::args_view(args@), Seq::empty());
            }
        }
        let call = to_strings(args);
        let failed = self.record(call);
        let r = if failed {
            Err(IoError::new(IoErrorKind::Other, "injected command failure"))
        } else {
            self.apply(args)
        };
        r
    }

    fn disable_reverse_path_filter(&mut self, interface: &str) -> (r: Result<(), IoError>)
        ensures
            (final(self)@, executor::unit_reply(r)) == net_disable_rp_filter(
                old(self)@,
                interface@,
            ),
            old(self).wf() ==> final(self).wf(),
    {
        proof {
            if old(self).wf() {
                lemma_calls_keep_keys_unique(old(self)@, Seq::empty(), interface@);
            }
        }
        let mut call: Vec<String> = Vec::new();
        call.push("rp_filter".to_owned());
        call.push(interface.to_owned());
        call.push("0".to_owned());
        assert(strings_view(call@) =~= rp_filter_call(interface@));
        let failed = self.record(call);
        let r = if failed {
            Err(IoError::new(IoErrorKind::Other, "injected command failure"))
        } else {
            match tunnel_index(&self.tunnels, interface) {
                Some(i) => {
                    let ghost st = self@;
                    let mut t = self.tunnels[i].1.clone();
                    t.rp_filter_disabled = true;
                    let ghost tv = t@;
                    self.tunnels.set(i, (interface.to_owned(), t));
                    assert(tunnels_view(self.tunnels@) =~= with_entry(st.tunnels, interface@, tv));
                    Ok(())
                },
                None => Err(IoError::new(IoErrorKind::Other, "missing tunnel")),
            }
        };
        r
    }
}

proof fn lemma_distinct_words()
    ensures
        "link"@ != "-o"@,
        "route"@ != "link"@,
        "dev"@ != "via"@,
        "tunnel"@ != "route"@,
{
    reveal_strlit("link");
    reveal_strlit("-o");
    reveal_strlit("route");
    reveal_strlit("dev");
    reveal_strlit("via");
    reveal_strlit("tunnel");
    assert("link"@[0] != "-o"@[0]);
    assert("route"@[0] != "link"@[0]);
    assert("dev"@[0] != "via"@[0]);
    assert("tunnel"@[0] != "route"@[0]);
}

/// `ip link show dev <name>` on the model: success when the tunnel exists.
pub proof fn lemma_apply_link_show(st: NetworkView, name: Seq<char>)
    ensures
        net_apply(st, protocol::link_show_cmd(name)) == (if entry_index(st.tunnels, name) is Some {
            (st, done())
        } else {
            (st, Err(IoErrorView { kind: IoErrorKind::NotFound, message: "no such device"@ }))
        }),
{
    lemma_distinct_words();
    assert(protocol::link_show_cmd(name)[0] != protocol::addr_show_cmd()[0]);
}

pub proof fn lemma_apply_tunnel_add(st: NetworkView, name: Seq<char>, l: Seq<char>, r: Seq<char>)
    ensures
        net_apply(st, protocol::tunnel_add_cmd(name, l, r)) == (if entry_index(st.tunnels, name) is Some {
            (st, Err::<OutputView, IoErrorView>(refused("duplicate tunnel creation"@)))
        } else {
            (
                NetworkView {
                    tunnels: st.tunnels.push(
                        (name, TunnelView { local: l, remote: r, up: false, rp_filter_disabled: false }),
                    ),
                    ..st
                },
                done(),
            )
        }),
{
    let a = protocol::tunnel_add_cmd(name, l, r);
    assert(a.len() == 9);
    assert(a =~= protocol::tunnel_add_cmd(a[2], a[6], a[8]));
}

pub proof fn lemma_apply_link_up(st: NetworkView, name: Seq<char>)
    ensures
        net_apply(st, protocol::link_up_cmd(name)) == (match entry(st.tunnels, name) {
            Some(t) => (
                NetworkView {
                    tunnels: with_entry(st.tunnels, name, TunnelView { up: true, ..t }),
                    ..st
                },
                done(),
            ),
            None => (st, Err(refused("missing tunnel"@))),
        }),
{
    let a = protocol::link_up_cmd(name);
    assert(a =~= protocol::link_up_cmd(a[3]));
}

pub proof fn lemma_apply_route_via(st: NetworkView, cidr: Seq<char>, ip: Seq<char>)
    ensures
        net_apply(st, protocol::route_via_cmd(cidr, ip)) == (
            NetworkView { routes: with_entry(st.routes, cidr, RouteView::Direct(ip)), ..st },
            done(),
        ),
{
    lemma_distinct_words();
    let a = protocol::route_via_cmd(cidr, ip);
    assert(a[0] != protocol::link_up_cmd(a[3])[0]);
    assert(a =~= protocol::route_via_cmd(a[2], a[4]));
}

pub proof fn lemma_apply_route_dev(st: NetworkView, cidr: Seq<char>, name: Seq<char>)
    ensures
        net_apply(st, protocol::route_dev_cmd(cidr, name)) == (match entry(st.tunnels, name) {
            Some(t) => if t.up && t.rp_filter_disabled {
                (
                    NetworkView { routes: with_entry(st.routes, cidr, RouteView::Tunnel(name)), ..st },
                    done(),
                )
            } else {
                (st, Err(refused("tunnel must be ready before routing"@)))
            },
            None => (st, Err(refused("route installed before tunnel creation"@))),
        }),
{
    lemma_distinct_words();
    let a = protocol::route_dev_cmd(cidr, name);
    assert(a[0] != protocol::link_up_cmd(a[3])[0]);
    assert(a[3] != protocol::route_via_cmd(a[2], a[4])[3]);
    assert(a =~= protocol::route_dev_cmd(a[2], a[4]));
}

pub proof fn lemma_apply_route_del(st: NetworkView, cidr: Seq<char>)
    ensures
        net_apply(st, protocol::route_del_cmd(cidr)) == (match entry_index(st.routes, cidr) {
            Some(i) => (NetworkView { routes: st.routes.remove(i), ..st }, done()),
            None => (st, Err(IoErrorView { kind: IoErrorKind::NotFound, message: "no such route"@ })),
        }),
{
    let a = protocol::route_del_cmd(cidr);
    assert(a =~= protocol::route_del_cmd(a[2]));
}

pub proof fn lemma_apply_tunnel_del(st: NetworkView, name: Seq<char>)
    ensures
        net_apply(st, protocol::tunnel_del_cmd(name)) == (match entry_index(st.tunnels, name) {
            Some(i) => (
                NetworkView {
                    tunnels: st.tunnels.remove(i),
                    routes: st.routes.filter(route_kept(name)),
                    ..st
                },
                done(),
            ),
            None => (st, Err(refused("missing tunnel"@))),
        }),
{
    lemma_distinct_words();
    let a = protocol::tunnel_del_cmd(name);
    assert(a[0] != protocol::route_del_cmd(a[2])[0]);
    assert(a =~= protocol::tunnel_del_cmd(a[2]));
}

/// What one exchange does to the model, when its reply is the one the model
/// gives.
pub open spec fn net_step(st: NetworkView, x: Exchange) -> Option<NetworkView> {
    match x {
        Exchange::Run { args, reply } => {
            let (st2, r) = net_run(st, args);
            if r == reply {
                Some(st2)
            } else {
                None
            }
        },
        Exchange::DisableRpFilter { interface, outcome } => {
            let (st2, r) = net_disable_rp_filter(st, interface);
            if r == outcome {
                Some(st2)
            } else {
                None
            }
        },
    }
}

/// The model's state after the exchanges `log[s..e]`, when each of them got
/// the reply that the model gives.
pub open spec fn replay(st: NetworkView, log: Seq<Exchange>, s: int, e: int) -> Option<NetworkView>
    decreases e - s,
{
    if s >= e {
        Some(st)
    } else if 0 <= s < log.len() {
        match net_step(st, log[s]) {
            Some(st2) => replay(st2, log, s + 1, e),
            None => None,
        }
    } else {
        None
    }
}

pub proof fn lemma_replay_split(st: NetworkView, log: Seq<Exchange>, s: int, m: int, e: int)
    requires
        s <= m <= e,
    ensures
        replay(st, log, s, e) == match replay(st, log, s, m) {
            Some(x) => replay(x, log, m, e),
            None => None,
        },
    decreases m - s,
{
    if s < m {
        if 0 <= s < log.len() {
            if let Some(st2) = net_step(st, log[s]) {
                lemma_replay_split(st2, log, s + 1, m, e);
            }
        }
    }
}

/// No two entries share a key.
pub open spec fn unique_keys<V>(entries: Seq<(Seq<char>, V)>) -> bool {
    forall|i: int, j: int|
        0 <= i < j < entries.len() ==> (#[trigger] entries[i]).0 != (#[trigger] entries[j]).0
}

pub proof fn lemma_with_entry<V>(entries: Seq<(Seq<char>, V)>, key: Seq<char>, value: V, other: Seq<char>)
    ensures
        entry(with_entry(entries, key, value), key) == Some(value),
        other != key ==> entry(with_entry(entries, key, value), other) == entry(entries, other),
        unique_keys(entries) ==> unique_keys(with_entry(entries, key, value)),
{
    let w = with_entry(entries, key, value);
    lemma_entry_index(entries, key);
    lemma_entry_index(entries, other);
    lemma_entry_index(w, key);
    lemma_entry_index(w, other);
    match entry_index(entries, key) {
        Some(i) => {
            assert(w[i].0 == key);
            if let Some(k) = entry_index(w, key) {
                if k < i {
                    assert(w[k] == entries[k]);
                }
            }
            if other != key {
                match entry_index(entries, other) {
                    Some(j) => {
                        assert(w[j] == entries[j]);
                        if let Some(k) = entry_index(w, other) {
                            if k < j {
                                assert(w[k] == entries[k] || k == i);
                            }
                        }
                    },
                    None => {
                        if let Some(k) = entry_index(w, other) {
                            assert(w[k] == entries[k] || k == i);
                        }
                    },
                }
            }
            if unique_keys(entries) {
                assert forall|a: int, b: int| 0 <= a < b < w.len() implies (#[trigger] w[a]).0 != (
                #[trigger] w[b]).0 by {
                    assert(w[a].0 == entries[a].0 && w[b].0 == entries[b].0);
                }
            }
        },
        None => {
            assert(w[entries.len() as int].0 == key);
            if let Some(k) = entry_index(w, key) {
                if k < entries.len() {
                    assert(w[k] == entries[k]);
                }
            }
            if other != key {
                match entry_index(entries, other) {
                    Some(j) => {
                        assert(w[j] == entries[j]);
                        if let Some(k) = entry_index(w, other) {
                            if k < entries.len() {
                                assert(w[k] == entries[k]);
                            }
                        }
                    },
                    None => {
                        if let Some(k) = entry_index(w, other) {
                            if k < entries.len() {
                                assert(w[k] == entries[k]);
                            }
                        }
                    },
                }
            }
            if unique_keys(entries) {
                assert forall|a: int, b: int| 0 <= a < b < w.len() implies (#[trigger] w[a]).0 != (
                #[trigger] w[b]).0 by {
                    if b < entries.len() {
                        assert(w[a] == entries[a] && w[b] == entries[b]);
                    } else {
                        assert(w[a] == entries[a]);
                    }
                }
            }
        },
    }
}

pub proof fn lemma_remove_unique<V>(entries: Seq<(Seq<char>, V)>, key: Seq<char>, i: int)
    requires
        unique_keys(entries),
        entry_index(entries, key) == Some(i),
    ensures
        entry_index(entries.remove(i), key) is None,
        unique_keys(entries.remove(i)),
{
    lemma_entry_index(entries, key);
    let r = entries.remove(i);
    lemma_entry_index(r, key);
    if let Some(k) = entry_index(r, key) {
        if k < i {
            assert(r[k] == entries[k]);
        } else {
            assert(r[k] == entries[k + 1]);
        }
    }
    assert forall|a: int, b: int| 0 <= a < b < r.len() implies (#[trigger] r[a]).0 != (
    #[trigger] r[b]).0 by {
        let x = if a < i {
            a
        } else {
            a + 1
        };
        let y = if b < i {
            b
        } else {
            b + 1
        };
        assert(r[a] == entries[x] && r[b] == entries[y]);
    }
}

pub proof fn lemma_entry_index_push<V>(entries: Seq<(Seq<char>, V)>, x: (Seq<char>, V), key: Seq<char>)
    ensures
        entry_index(entries.push(x), key) == match entry_index(entries, key) {
            Some(i) => Some(i),
            None => if x.0 == key {
                Some(entries.len() as int)
            } else {
                None
            },
        },
{
    let p = entries.push(x);
    lemma_entry_index(entries, key);
    lemma_entry_index(p, key);
    match entry_index(p, key) {
        Some(k) => {
            if k < entries.len() {
                assert(p[k] == entries[k]);
            }
            if let Some(i) = entry_index(entries, key) {
                assert(p[i] == entries[i]);
            }
        },
        None => {
            if let Some(i) = entry_index(entries, key) {
                assert(p[i] == entries[i]);
            }
            assert(p[entries.len() as int] == x);
        },
    }
}

/// Filtering adds no key.
pub proof fn lemma_filter_no_key<V>(
    entries: Seq<(Seq<char>, V)>,
    p: spec_fn((Seq<char>, V)) -> bool,
    key: Seq<char>,
)
    requires
        entry_index(entries, key) is None,
    ensures
        entry_index(entries.filter(p), key) is None,
    decreases entries.len(),
{
    if entries.len() == 0 {
        reveal(Seq::filter);
    } else {
        let init = entries.drop_last();
        let x = entries.last();
        assert(entries =~= init.push(x));
        lemma_entry_index_push(init, x, key);
        lemma_filter_no_key(init, p, key);
        lemma_filter_step(init, p, x);
        lemma_entry_index_push(init.filter(p), x, key);
    }
}

/// Filtering keeps the entry under a key when that entry passes the filter.
pub proof fn lemma_entry_filter<V>(
    entries: Seq<(Seq<char>, V)>,
    p: spec_fn((Seq<char>, V)) -> bool,
    key: Seq<char>,
)
    requires
        entry(entries, key) matches Some(v) && p((key, v)),
    ensures
        entry(entries.filter(p), key) == entry(entries, key),
    decreases entries.len(),
{
    let init = entries.drop_last();
    let x = entries.last();
    assert(entries =~= init.push(x));
    lemma_filter_step(init, p, x);
    lemma_entry_index_push(init, x, key);
    let f = init.filter(p);
    match entry_index(init, key) {
        Some(i) => {
            lemma_entry_index(init, key);
            assert(entries[i] == init[i]);
            lemma_entry_filter(init, p, key);
            lemma_entry_index(f, key);
            let j = entry_index(f, key)->0;
            if p(x) {
                lemma_entry_index_push(f, x, key);
                assert(f.push(x)[j] == f[j]);
            }
        },
        None => {
            lemma_entry_index(init, key);
            lemma_entry_index(entries, key);
            assert(x.0 == key);
            assert(entries[init.len() as int] == x);
            lemma_filter_no_key(init, p, key);
            lemma_entry_index_push(f, x, key);
            assert(f.push(x)[f.len() as int] == x);
        },
    }
}

/// Adding an entry under a key that is not there keeps keys unique.
pub proof fn lemma_push_absent_unique<V>(entries: Seq<(Seq<char>, V)>, x: (Seq<char>, V))
    requires
        unique_keys(entries),
        entry_index(entries, x.0) is None,
    ensures
        unique_keys(entries.push(x)),
{
    lemma_entry_index(entries, x.0);
    let p = entries.push(x);
    assert forall|i: int, j: int| 0 <= i < j < p.len() implies (#[trigger] p[i]).0 != (#[trigger] p[j]).0 by {
        assert(p[i] == entries[i]);
        if j < entries.len() {
            assert(p[j] == entries[j]);
        }
    }
}

/// Filtering keeps keys unique.
pub proof fn lemma_filter_unique<V>(entries: Seq<(Seq<char>, V)>, p: spec_fn((Seq<char>, V)) -> bool)
    requires
        unique_keys(entries),
    ensures
        unique_keys(entries.filter(p)),
    decreases entries.len(),
{
    if entries.len() == 0 {
        reveal(Seq::filter);
    } else {
        let init = entries.drop_last();
        let x = entries.last();
        assert(entries =~= init.push(x));
        assert(unique_keys(init)) by {
            assert forall|i: int, j: int| 0 <= i < j < init.len() implies (#[trigger] init[i]).0 != (
            #[trigger] init[j]).0 by {
                assert(init[i] == entries[i] && init[j] == entries[j]);
            }
        }
        lemma_filter_unique(init, p);
        lemma_filter_step(init, p, x);
        lemma_entry_index(init, x.0);
        if let Some(k) = entry_index(init, x.0) {
            assert(init[k] == entries[k]);
            assert(entries[init.len() as int] == x);
        }
        lemma_filter_no_key(init, p, x.0);
        if p(x) {
            lemma_push_absent_unique(init.filter(p), x);
        }
    }
}

/// Neither routes nor tunnels share a key.
pub open spec fn keys_unique(st: NetworkView) -> bool {
    unique_keys(st.routes) && unique_keys(st.tunnels)
}

/// Every command the model answers keeps its keys unique.
pub proof fn lemma_apply_keeps_keys_unique(st: NetworkView, a: Seq<Seq<char>>)
    requires
        keys_unique(st),
    ensures
        keys_unique(net_apply(st, a).0),
{
    if a == protocol::addr_show_cmd() {
    } else if a.len() == 4 && a == protocol::link_show_cmd(a[3]) {
    } else if a.len() == 9 && a == protocol::tunnel_add_cmd(a[2], a[6], a[8]) {
        if entry_index(st.tunnels, a[2]) is None {
            lemma_push_absent_unique(
                st.tunnels,
                (a[2], TunnelView { local: a[6], remote: a[8], up: false, rp_filter_disabled: false }),
            );
        }
    } else if a.len() == 5 && a == protocol::link_up_cmd(a[3]) {
        if let Some(t) = entry(st.tunnels, a[3]) {
            lemma_with_entry(st.tunnels, a[3], TunnelView { up: true, ..t }, a[3]);
        }
    } else if a.len() == 5 && a == protocol::route_via_cmd(a[2], a[4]) {
        lemma_with_entry(st.routes, a[2], RouteView::Direct(a[4]), a[2]);
    } else if a.len() == 5 && a == protocol::route_dev_cmd(a[2], a[4]) {
        lemma_with_entry(st.routes, a[2], RouteView::Tunnel(a[4]), a[2]);
    } else if a.len() == 3 && a == protocol::route_del_cmd(a[2]) {
        if let Some(i) = entry_index(st.routes, a[2]) {
            lemma_remove_unique(st.routes, a[2], i);
        }
    } else if a.len() == 3 && a == protocol::tunnel_del_cmd(a[2]) {
        if let Some(i) = entry_index(st.tunnels, a[2]) {
            lemma_remove_unique(st.tunnels, a[2], i);
            lemma_filter_unique(st.routes, route_kept(a[2]));
        }
    }
}

/// Every call the model answers keeps its keys unique.
pub proof fn lemma_calls_keep_keys_unique(st: NetworkView, args: Seq<Seq<char>>, interface: Seq<char>)
    requires
        keys_unique(st),
    ensures
        keys_unique(net_run(st, args).0),
        keys_unique(net_disable_rp_filter(st, interface).0),
{
    lemma_apply_keeps_keys_unique(NetworkView { calls: st.calls.push(args), ..st }, args);
    let rec = NetworkView { calls: st.calls.push(rp_filter_call(interface)), ..st };
    if let Some(t) = entry(rec.tunnels, interface) {
        lemma_with_entry(rec.tunnels, interface, TunnelView { rp_filter_disabled: true, ..t }, interface);
    }
}

/// The model state with the same routes, tunnels, addresses and injected
/// failure; only the record of calls may differ.
pub open spec fn same_network(a: NetworkView, b: NetworkView) -> bool {
    &&& a.addresses == b.addresses
    &&& a.fail_on == b.fail_on
    &&& a.routes == b.routes
    &&& a.tunnels == b.tunnels
}

/// A single exchange at `s` that the model answered.
pub proof fn lemma_replay_one(st: NetworkView, log: Seq<Exchange>, s: int)
    requires
        replay(st, log, s, s + 1) is Some,
    ensures
        0 <= s < log.len(),
        net_step(st, log[s]) == replay(st, log, s, s + 1),
{
    if let Some(st2) = net_step(st, log[s]) {
        assert(replay(st2, log, s + 1, s + 1) == Some(st2));
    }
}

proof fn lemma_route_mode_model(
    local: NodeView,
    remote: NodeView,
    label: Option<Seq<char>>,
    st0: NetworkView,
    log: Seq<Exchange>,
    s: int,
    m: int,
)
    requires
        protocol::route_mode_protocol(local, remote, label, log, s) matches Some((_, x)) && x == m,
        replay(st0, log, s, m) is Some,
    ensures
        same_network(replay(st0, log, s, m)->0, st0),
{
    if m > s {
        lemma_replay_one(st0, log, s);
    }
}

proof fn lemma_tunnel_exists_model(name: Seq<char>, st0: NetworkView, log: Seq<Exchange>, s: int)
    requires
        protocol::tunnel_exists_protocol(name, log, s) is Some,
        replay(st0, log, s, s + 1) is Some,
    ensures
        same_network(replay(st0, log, s, s + 1)->0, st0),
        (protocol::tunnel_exists_protocol(name, log, s)->0).0 ==> entry_index(st0.tunnels, name) is Some,
        !(protocol::tunnel_exists_protocol(name, log, s)->0).0 && st0.fail_on != Some(
            protocol::link_show_cmd(name),
        ) ==> entry_index(st0.tunnels, name) is None,
{
    lemma_replay_one(st0, log, s);
    let rec = NetworkView { calls: st0.calls.push(protocol::link_show_cmd(name)), ..st0 };
    lemma_apply_link_show(rec, name);
}

/// Making a tunnel ready on the model: on success the tunnel is up with its
/// reverse-path filter off, and a new tunnel has the given endpoints; routes
/// stay; an error is the injected failure, unless the existence check itself
/// was the injected failure.
pub proof fn lemma_ensure_tunnel_model(
    name: Seq<char>,
    l: Seq<char>,
    r: Seq<char>,
    st0: NetworkView,
    log: Seq<Exchange>,
    s: int,
)
    requires
        protocol::ensure_tunnel_protocol(name, l, r, log, s) is Some,
        replay(st0, log, s, (protocol::ensure_tunnel_protocol(name, l, r, log, s)->0).1) is Some,
        unique_keys(st0.tunnels),
    ensures
        ({
            let (res, k) = protocol::ensure_tunnel_protocol(name, l, r, log, s)->0;
            let st1 = replay(st0, log, s, k)->0;
            &&& st1.routes == st0.routes
            &&& st1.addresses == st0.addresses
            &&& st1.fail_on == st0.fail_on
            &&& unique_keys(st1.tunnels)
            &&& res is Ok ==> (entry(st1.tunnels, name) matches Some(t) && t.up
                && t.rp_filter_disabled && (entry_index(st0.tunnels, name) is None ==> t.local == l
                && t.remote == r))
            &&& res matches Err(e) ==> (e == injected_failure() || st0.fail_on == Some(
                protocol::link_show_cmd(name),
            ))
        }),
{
    let (res, k) = protocol::ensure_tunnel_protocol(name, l, r, log, s)->0;
    lemma_replay_split(st0, log, s, s + 1, k);
    lemma_tunnel_exists_model(name, st0, log, s);
    let st_a = replay(st0, log, s, s + 1)->0;
    let (exists, a) = protocol::tunnel_exists_protocol(name, log, s)->0;
    // The tunnel after its creation, if any.
    let b = if exists {
        a
    } else {
        a + 1
    };
    if !exists {
        lemma_replay_split(st_a, log, a, a + 1, k);
        lemma_replay_one(st_a, log, a);
        let rec = NetworkView { calls: st_a.calls.push(protocol::tunnel_add_cmd(name, l, r)), ..st_a };
        lemma_apply_tunnel_add(rec, name, l, r);
        if let Some(Err(_)) = protocol::ran(log, a, protocol::tunnel_add_cmd(name, l, r)) {
            return;
        }
        lemma_entry_index(st_a.tunnels, name);
        lemma_entry_index_push(st_a.tunnels, (name, TunnelView { local: l, remote: r, up: false, rp_filter_disabled: false }), name);
        let st_b = replay(st_a, log, a, a + 1)->0;
        assert(unique_keys(st_b.tunnels)) by {
            let t = st_b.tunnels;
            assert forall|i: int, j: int| 0 <= i < j < t.len() implies (#[trigger] t[i]).0 != (
            #[trigger] t[j]).0 by {
                if j == st_a.tunnels.len() {
                    assert(t[i] == st_a.tunnels[i]);
                } else {
                    assert(t[i] == st_a.tunnels[i] && t[j] == st_a.tunnels[j]);
                }
            }
        }
    }
    lemma_replay_split(st0, log, s, a, b);
    lemma_replay_split(st0, log, s, b, k);
    let st_b = replay(st0, log, s, b)->0;
    assert(st_b.routes == st0.routes);
    assert(entry_index(st_b.tunnels, name) is Some || st0.fail_on == Some(protocol::link_show_cmd(name)));
    // Bring it up.
    lemma_replay_split(st_b, log, b, b + 1, k);
    lemma_replay_one(st_b, log, b);
    let rec_b = NetworkView { calls: st_b.calls.push(protocol::link_up_cmd(name)), ..st_b };
    lemma_apply_link_up(rec_b, name);
    if let Some(Err(_)) = protocol::ran(log, b, protocol::link_up_cmd(name)) {
        return;
    }
    let st_c = replay(st_b, log, b, b + 1)->0;
    let t0 = entry(st_b.tunnels, name)->0;
    lemma_with_entry(st_b.tunnels, name, TunnelView { up: true, ..t0 }, name);
    // Turn off its reverse-path filter.
    lemma_replay_one(st_c, log, b + 1);
    let t1 = entry(st_c.tunnels, name)->0;
    lemma_with_entry(st_c.tunnels, name, TunnelView { rp_filter_disabled: true, ..t1 }, name);
}

/// Deleting a tunnel on the model: on success the tunnel is gone, unless the
/// existence check was the injected failure, and routes other than those
/// through it stay; an error is the injected failure and changes nothing.
pub proof fn lemma_delete_tunnel_model(name: Seq<char>, st0: NetworkView, log: Seq<Exchange>, s: int)
    requires
        protocol::delete_tunnel_protocol(name, log, s) is Some,
        replay(st0, log, s, (protocol::delete_tunnel_protocol(name, log, s)->0).1) is Some,
        unique_keys(st0.tunnels),
    ensures
        ({
            let (res, k) = protocol::delete_tunnel_protocol(name, log, s)->0;
            let st1 = replay(st0, log, s, k)->0;
            &&& st1.addresses == st0.addresses
            &&& st1.fail_on == st0.fail_on
            &&& unique_keys(st1.tunnels)
            &&& res is Ok ==> (entry_index(st1.tunnels, name) is None || st0.fail_on == Some(
                protocol::link_show_cmd(name),
            ))
            &&& res is Ok ==> forall|c: Seq<char>|
                #![trigger entry(st1.routes, c)]
                entry(st0.routes, c) matches Some(v) && v != RouteView::Tunnel(name) ==> entry(
                    st1.routes,
                    c,
                ) == entry(st0.routes, c)
            &&& res is Ok ==> forall|c: Seq<char>|
                #![trigger entry_index(st1.routes, c)]
                entry_index(st0.routes, c) is None ==> entry_index(st1.routes, c) is None
            &&& res matches Err(e) ==> (e == injected_failure() && st1.routes == st0.routes
                && st1.tunnels == st0.tunnels && st0.fail_on == Some(protocol::tunnel_del_cmd(name)))
        }),
{
    let (res, k) = protocol::delete_tunnel_protocol(name, log, s)->0;
    lemma_replay_split(st0, log, s, s + 1, k);
    lemma_tunnel_exists_model(name, st0, log, s);
    let st_a = replay(st0, log, s, s + 1)->0;
    let (exists, a) = protocol::tunnel_exists_protocol(name, log, s)->0;
    if exists {
        lemma_replay_one(st_a, log, a);
        let rec = NetworkView { calls: st_a.calls.push(protocol::tunnel_del_cmd(name)), ..st_a };
        lemma_apply_tunnel_del(rec, name);
        let st1 = replay(st_a, log, a, a + 1)->0;
        if res is Ok {
            let i = entry_index(st_a.tunnels, name)->0;
            lemma_remove_unique(st_a.tunnels, name, i);
            assert forall|c: Seq<char>|
                #![trigger entry(st1.routes, c)]
                entry(st0.routes, c) matches Some(v) && v != RouteView::Tunnel(name) implies entry(
                st1.routes,
                c,
            ) == entry(st0.routes, c) by {
                lemma_entry_filter(st_a.routes, route_kept(name), c);
            }
            assert forall|c: Seq<char>|
                #![trigger entry_index(st1.routes, c)]
                entry_index(st0.routes, c) is None implies entry_index(st1.routes, c) is None by {
                lemma_filter_no_key(st_a.routes, route_kept(name), c);
            }
        }
    }
}

/// What reconciling leaves on the model, when it succeeds.
///
/// A direct route goes through the remote address, and the Node's tunnel is
/// gone unless looking it up was the injected failure. An IPIP route goes
/// through the Node's tunnel, which is up with its reverse-path filter off; a
/// tunnel that did not exist before connects the two Node addresses.
pub proof fn law_reconciled_route_on_model(
    local: NodeView,
    remote: NodeView,
    label: Option<Seq<char>>,
    st0: NetworkView,
    log: Seq<Exchange>,
    s: int,
)
    requires
        protocol::reconcile_protocol(local, remote, label, log, s) matches Some((Ok(()), _)),
        replay(st0, log, s, (protocol::reconcile_protocol(local, remote, label, log, s)->0).1) is Some,
        unique_keys(st0.tunnels),
        node::name_any(local) != node::name_any(remote),
        remote.pod_cidr is Some,
        node::node_ip(remote) is Some,
    ensures
        ({
            let e = (protocol::reconcile_protocol(local, remote, label, log, s)->0).1;
            let st1 = replay(st0, log, s, e)->0;
            let cidr = remote.pod_cidr->0;
            let rip = node::node_ip(remote)->0;
            let name = crate::ipip::tunnel::tunnel_name(node::name_any(remote));
            &&& protocol::route_mode_protocol(local, remote, label, log, s) matches Some(
                (RouteMode::Direct, _),
            ) ==> (entry(st1.routes, cidr) == Some(RouteView::Direct(rip)) && (entry_index(
                st1.tunnels,
                name,
            ) is None || st0.fail_on == Some(protocol::link_show_cmd(name))))
            &&& (protocol::route_mode_protocol(local, remote, label, log, s) matches Some(
                (RouteMode::Ipip, _),
            ) && node::node_ip(local) is Some) ==> (entry(st1.routes, cidr) == Some(
                RouteView::Tunnel(name),
            ) && (entry(st1.tunnels, name) matches Some(t) && t.up && t.rp_filter_disabled && (
            entry_index(st0.tunnels, name) is None ==> t.local == node::node_ip(local)->0
                && t.remote == rip)))
        }),
{
    let e = (protocol::reconcile_protocol(local, remote, label, log, s)->0).1;
    let cidr = remote.pod_cidr->0;
    let rip = node::node_ip(remote)->0;
    let name = crate::ipip::tunnel::tunnel_name(node::name_any(remote));
    let m = (protocol::route_mode_protocol(local, remote, label, log, s)->0).1;
    assert(m <= e);
    lemma_replay_split(st0, log, s, m, e);
    lemma_route_mode_model(local, remote, label, st0, log, s, m);
    let st_m = replay(st0, log, s, m)->0;
    match (protocol::route_mode_protocol(local, remote, label, log, s)->0).0 {
        RouteMode::Direct => {
            lemma_replay_split(st_m, log, m, m + 1, e);
            lemma_replay_one(st_m, log, m);
            let rec = NetworkView { calls: st_m.calls.push(protocol::route_via_cmd(cidr, rip)), ..st_m };
            lemma_apply_route_via(rec, cidr, rip);
            let st_r = replay(st_m, log, m, m + 1)->0;
            lemma_with_entry(st_m.routes, cidr, RouteView::Direct(rip), cidr);
            lemma_delete_tunnel_model(name, st_r, log, m + 1);
            let st1 = replay(st_r, log, m + 1, e)->0;
            assert(entry(st1.routes, cidr) == entry(st_r.routes, cidr));
        },
        RouteMode::Ipip => {
            if let Some(lip) = node::node_ip(local) {
                let k = (protocol::ensure_tunnel_protocol(name, lip, rip, log, m)->0).1;
                lemma_replay_split(st_m, log, m, k, e);
                lemma_ensure_tunnel_model(name, lip, rip, st_m, log, m);
                let st_k = replay(st_m, log, m, k)->0;
                lemma_replay_one(st_k, log, k);
                let rec = NetworkView { calls: st_k.calls.push(protocol::route_dev_cmd(cidr, name)), ..st_k };
                lemma_apply_route_dev(rec, cidr, name);
                lemma_with_entry(st_k.routes, cidr, RouteView::Tunnel(name), cidr);
            }
        },
    }
}

/// Writing the value that is already under a key changes nothing.
pub proof fn lemma_with_entry_same<V>(entries: Seq<(Seq<char>, V)>, key: Seq<char>, value: V)
    requires
        entry(entries, key) == Some(value),
    ensures
        with_entry(entries, key, value) == entries,
{
    lemma_entry_index(entries, key);
    let i = entry_index(entries, key)->0;
    assert(entries.update(i, (key, value)) =~= entries);
}

/// An exchange changes neither the addresses nor the injected failure.
proof fn lemma_step_keeps_setup(st: NetworkView, x: Exchange)
    ensures
        net_step(st, x) matches Some(st2) ==> st2.addresses == st.addresses && st2.fail_on
            == st.fail_on,
{
}

/// Commands change neither the addresses nor the injected failure.
pub proof fn lemma_replay_keeps_setup(st: NetworkView, log: Seq<Exchange>, s: int, e: int)
    requires
        replay(st, log, s, e) is Some,
    ensures
        (replay(st, log, s, e)->0).addresses == st.addresses,
        (replay(st, log, s, e)->0).fail_on == st.fail_on,
    decreases e - s,
{
    if s < e {
        lemma_step_keeps_setup(st, log[s]);
        lemma_replay_keeps_setup(net_step(st, log[s])->0, log, s + 1, e);
    }
}

/// On the model without an injected failure, the address lookup gives the same
/// route mode each time.
proof fn lemma_route_mode_again(
    local: NodeView,
    remote: NodeView,
    label: Option<Seq<char>>,
    st0: NetworkView,
    st1: NetworkView,
    log: Seq<Exchange>,
    s: int,
    m: int,
)
    requires
        st0.fail_on is None,
        st1.fail_on is None,
        st1.addresses == st0.addresses,
        protocol::route_mode_protocol(local, remote, label, log, s) matches Some((_, x)) && replay(
            st0,
            log,
            s,
            x,
        ) is Some,
        protocol::route_mode_protocol(local, remote, label, log, m) matches Some((_, y)) && replay(
            st1,
            log,
            m,
            y,
        ) is Some,
    ensures
        (protocol::route_mode_protocol(local, remote, label, log, s)->0).0 == (
        protocol::route_mode_protocol(local, remote, label, log, m)->0).0,
{
    if protocol::subnet_candidates(local, remote, label) is Some {
        lemma_replay_one(st0, log, s);
        lemma_replay_one(st1, log, m);
    }
}

/// Reconciling a Node again changes nothing on the model: after a successful
/// reconciliation, and without an injected failure, reconciling the same pair
/// once more succeeds, creates no second tunnel, and leaves every route and
/// tunnel as it was.
pub proof fn law_reconcile_again_changes_nothing_on_model(
    local: NodeView,
    remote: NodeView,
    label: Option<Seq<char>>,
    st0: NetworkView,
    log: Seq<Exchange>,
    s: int,
)
    requires
        st0.fail_on is None,
        protocol::reconcile_protocol(local, remote, label, log, s) matches Some((Ok(()), m)) && (
        protocol::reconcile_protocol(local, remote, label, log, m) matches Some((_, e)) && replay(
            st0,
            log,
            s,
            e,
        ) is Some),
        unique_keys(st0.tunnels),
    ensures
        ({
            let m = (protocol::reconcile_protocol(local, remote, label, log, s)->0).1;
            let (r2, e) = protocol::reconcile_protocol(local, remote, label, log, m)->0;
            let st1 = replay(st0, log, s, m)->0;
            let st2 = replay(st0, log, s, e)->0;
            &&& r2 is Ok
            &&& st2.routes == st1.routes
            &&& st2.tunnels == st1.tunnels
        }),
{
    let m = (protocol::reconcile_protocol(local, remote, label, log, s)->0).1;
    let e = (protocol::reconcile_protocol(local, remote, label, log, m)->0).1;
    protocol::lemma_reconcile_end(local, remote, label, log, m);
    lemma_replay_split(st0, log, s, m, e);
    let st1 = replay(st0, log, s, m)->0;
    lemma_replay_keeps_setup(st0, log, s, m);
    if node::name_any(local) == node::name_any(remote) || remote.pod_cidr is None || node::node_ip(
        remote,
    ) is None {
        return;
    }
    let cidr = remote.pod_cidr->0;
    let rip = node::node_ip(remote)->0;
    let name = crate::ipip::tunnel::tunnel_name(node::name_any(remote));
    law_reconciled_route_on_model(local, remote, label, st0, log, s);
    let (mode, x) = protocol::route_mode_protocol(local, remote, label, log, s)->0;
    let y = (protocol::route_mode_protocol(local, remote, label, log, m)->0).1;
    assert(x <= m);
    assert(y <= e);
    lemma_replay_split(st0, log, s, x, m);
    lemma_replay_split(st1, log, m, y, e);
    lemma_route_mode_again(local, remote, label, st0, st1, log, s, m);
    lemma_route_mode_model(local, remote, label, st1, log, m, y);
    let st_y = replay(st1, log, m, y)->0;
    match mode {
        RouteMode::Direct => {
            // The route is replaced by itself.
            lemma_replay_split(st_y, log, y, y + 1, e);
            lemma_replay_one(st_y, log, y);
            let rec = NetworkView { calls: st_y.calls.push(protocol::route_via_cmd(cidr, rip)), ..st_y };
            lemma_apply_route_via(rec, cidr, rip);
            lemma_with_entry_same(st_y.routes, cidr, RouteView::Direct(rip));
            let st_r = replay(st_y, log, y, y + 1)->0;
            assert(same_network(st_r, st1));
            // The tunnel is still absent.
            lemma_replay_split(st_r, log, y + 1, y + 2, e);
            lemma_tunnel_exists_model(name, st_r, log, y + 1);
            lemma_entry_index(st_r.tunnels, name);
        },
        RouteMode::Ipip => {
            if let Some(lip) = node::node_ip(local) {
                let t = entry(st1.tunnels, name)->0;
                // The tunnel exists, so it is not created again.
                lemma_replay_split(st_y, log, y, y + 1, e);
                lemma_tunnel_exists_model(name, st_y, log, y);
                lemma_entry_index(st_y.tunnels, name);
                let st_a = replay(st_y, log, y, y + 1)->0;
                assert(same_network(st_a, st1));
                let rec_a = NetworkView { calls: st_y.calls.push(protocol::link_show_cmd(name)), ..st_y };
                lemma_apply_link_show(rec_a, name);
                assert((protocol::tunnel_exists_protocol(name, log, y)->0).0);
                // Bringing it up leaves it as it is.
                lemma_replay_split(st_a, log, y + 1, y + 2, e);
                lemma_replay_one(st_a, log, y + 1);
                let rec_b = NetworkView { calls: st_a.calls.push(protocol::link_up_cmd(name)), ..st_a };
                lemma_apply_link_up(rec_b, name);
                assert(TunnelView { up: true, ..t } == t);
                lemma_with_entry_same(st_a.tunnels, name, t);
                let st_b = replay(st_a, log, y + 1, y + 2)->0;
                assert(same_network(st_b, st1));
                // So does turning off its reverse-path filter.
                lemma_replay_split(st_b, log, y + 2, y + 3, e);
                lemma_replay_one(st_b, log, y + 2);
                assert(TunnelView { rp_filter_disabled: true, ..t } == t);
                let st_c = replay(st_b, log, y + 2, y + 3)->0;
                assert(same_network(st_c, st1));
                assert(protocol::ensure_tunnel_protocol(name, lip, rip, log, y) == Some(
                    (Ok::<(), IoErrorView>(()), y + 3),
                ));
                // The route is replaced by itself.
                lemma_replay_one(st_c, log, y + 3);
                let rec_d = NetworkView { calls: st_c.calls.push(protocol::route_dev_cmd(cidr, name)), ..st_c };
                lemma_apply_route_dev(rec_d, cidr, name);
                lemma_with_entry_same(st_c.routes, cidr, RouteView::Tunnel(name));
            }
        },
    }
}

/// Replaying the first `k` logged calls leads to the state before call `k`.
proof fn lemma_logged_states(ex: LoggedExecutor<Network>, k: int)
    requires
        ex.tracks(),
        0 <= k <= ex.history().len(),
    ensures
        replay(ex.start()@, ex.history(), 0, k) == Some(ex.states()[k]@),
    decreases k,
{
    let log = ex.history();
    let states = ex.states();
    if k > 0 {
        lemma_logged_states(ex, k - 1);
        lemma_replay_split(ex.start()@, log, 0, k - 1, k);
        assert(Network::answers(states[k - 1], states[k], log[k - 1]));
        assert(replay(states[k]@, log, k, k) == Some(states[k]@));
    }
}

/// A logged model network is where replaying its log from its starting
/// state leads, and so is each state that the log passes through.
pub proof fn law_logged_network_replays(ex: LoggedExecutor<Network>, k: int)
    requires
        ex.tracks(),
        0 <= k <= ex.history().len(),
    ensures
        replay(ex.start()@, ex.history(), 0, k) == Some(ex.states()[k]@),
        replay(ex.start()@, ex.history(), 0, ex.history().len() as int) == Some(ex.inner_view()@),
{
    lemma_logged_states(ex, k);
    lemma_logged_states(ex, ex.history().len() as int);
}

/// What reconciling through a logged model network leaves on it, when it
/// succeeds: the conclusions of `law_reconciled_route_on_model`, from the
/// network as it was before the call to the network after it.
pub proof fn law_reconciled_route_on_logged_network(
    before: LoggedExecutor<Network>,
    after: LoggedExecutor<Network>,
    local: NodeView,
    remote: NodeView,
    label: Option<Seq<char>>,
)
    requires
        before.tracks(),
        after.continues(before),
        protocol::extends(after.history(), before.history()),
        protocol::reconcile_protocol(local, remote, label, after.history(), before.history().len() as int)
            == Some((Ok::<(), IoErrorView>(()), after.history().len() as int)),
        unique_keys(before.inner_view()@.tunnels),
        node::name_any(local) != node::name_any(remote),
        remote.pod_cidr is Some,
        node::node_ip(remote) is Some,
    ensures
        ({
            let st0 = before.inner_view()@;
            let st1 = after.inner_view()@;
            let cidr = remote.pod_cidr->0;
            let rip = node::node_ip(remote)->0;
            let name = crate::ipip::tunnel::tunnel_name(node::name_any(remote));
            &&& protocol::route_mode_protocol(local, remote, label, after.history(), before.history().len() as int)
                matches Some((RouteMode::Direct, _)) ==> (entry(st1.routes, cidr) == Some(
                RouteView::Direct(rip),
            ) && (entry_index(st1.tunnels, name) is None || st0.fail_on == Some(
                protocol::link_show_cmd(name),
            )))
            &&& (protocol::route_mode_protocol(local, remote, label, after.history(), before.history().len() as int)
                matches Some((RouteMode::Ipip, _)) && node::node_ip(local) is Some) ==> (entry(
                st1.routes,
                cidr,
            ) == Some(RouteView::Tunnel(name)) && (entry(st1.tunnels, name) matches Some(t) && t.up
                && t.rp_filter_disabled && (entry_index(st0.tunnels, name) is None ==> t.local
                == node::node_ip(local)->0 && t.remote == rip)))
        }),
{
    let s = before.history().len() as int;
    let log = after.history();
    let e = log.len() as int;
    law_logged_network_replays(before, s);
    law_logged_network_replays(after, s);
    lemma_replay_prefix(after.start()@, log, before.history(), 0, s);
    lemma_replay_split(after.start()@, log, 0, s, e);
    law_reconciled_route_on_model(local, remote, label, before.inner_view()@, log, s);
}

/// What removing a deleted Node's routing through a logged model network
/// leaves on it: the conclusions of `law_deleted_node_on_model`, from the
/// network as it was before the call to the network after it.
pub proof fn law_deleted_node_on_logged_network(before: LoggedExecutor<Network>, after: LoggedExecutor<Network>, n: NodeView)
    requires
        before.tracks(),
        after.continues(before),
        protocol::extends(after.history(), before.history()),
        protocol::delete_route_protocol(n, after.history(), before.history().len() as int) == Some(
            after.history().len() as int,
        ),
        unique_keys(before.inner_view()@.routes),
        unique_keys(before.inner_view()@.tunnels),
    ensures
        ({
            let st0 = before.inner_view()@;
            let st1 = after.inner_view()@;
            let name = crate::ipip::tunnel::tunnel_name(node::name_any(n));
            &&& (n.pod_cidr matches Some(c) && st0.fail_on != Some(protocol::route_del_cmd(c)))
                ==> entry_index(st1.routes, n.pod_cidr->0) is None
            &&& (st0.fail_on != Some(protocol::link_show_cmd(name)) && st0.fail_on != Some(
                protocol::tunnel_del_cmd(name),
            )) ==> entry_index(st1.tunnels, name) is None
        }),
{
    let s = before.history().len() as int;
    let log = after.history();
    let e = log.len() as int;
    law_logged_network_replays(before, s);
    law_logged_network_replays(after, s);
    lemma_replay_prefix(after.start()@, log, before.history(), 0, s);
    lemma_replay_split(after.start()@, log, 0, s, e);
    law_deleted_node_on_model(n, before.inner_view()@, log, s);
}

/// Replaying indices that two logs share gives the same state.
pub proof fn lemma_replay_prefix(st: NetworkView, long: Seq<Exchange>, short: Seq<Exchange>, s: int, e: int)
    requires
        protocol::extends(long, short),
        0 <= s <= e <= short.len(),
    ensures
        replay(st, long, s, e) == replay(st, short, s, e),
    decreases e - s,
{
    if s < e {
        assert(long[s] == short[s]);
        if let Some(st2) = net_step(st, long[s]) {
            lemma_replay_prefix(st2, long, short, s + 1, e);
        }
    }
}

/// What a failed reconciliation leaves on the model.
///
/// The error is the injected failure, unless the tunnel lookup was the
/// injected failure and the tunnel existed. An IPIP attempt leaves the route to
/// the PodCIDR as it was. A direct attempt leaves it as it was when replacing
/// the route failed, and direct when only the tunnel cleanup failed.
pub proof fn law_failed_reconcile_on_model(
    local: NodeView,
    remote: NodeView,
    label: Option<Seq<char>>,
    st0: NetworkView,
    log: Seq<Exchange>,
    s: int,
)
    requires
        protocol::reconcile_protocol(local, remote, label, log, s) matches Some((Err(_), _)),
        replay(st0, log, s, (protocol::reconcile_protocol(local, remote, label, log, s)->0).1) is Some,
        unique_keys(st0.tunnels),
    ensures
        ({
            let (res, e) = protocol::reconcile_protocol(local, remote, label, log, s)->0;
            let st1 = replay(st0, log, s, e)->0;
            let cidr = remote.pod_cidr->0;
            let rip = node::node_ip(remote)->0;
            let name = crate::ipip::tunnel::tunnel_name(node::name_any(remote));
            &&& res->Err_0 == injected_failure() || st0.fail_on == Some(protocol::link_show_cmd(name))
            &&& protocol::route_mode_protocol(local, remote, label, log, s) matches Some(
                (RouteMode::Ipip, _),
            ) ==> entry(st1.routes, cidr) == entry(st0.routes, cidr)
            &&& protocol::route_mode_protocol(local, remote, label, log, s) matches Some(
                (RouteMode::Direct, m),
            ) ==> entry(st1.routes, cidr) == (if protocol::ran(
                log,
                m,
                protocol::route_via_cmd(cidr, rip),
            ) matches Some(Err(_)) {
                entry(st0.routes, cidr)
            } else {
                Some(RouteView::Direct(rip))
            })
        }),
{
    let e = (protocol::reconcile_protocol(local, remote, label, log, s)->0).1;
    let cidr = remote.pod_cidr->0;
    let rip = node::node_ip(remote)->0;
    let name = crate::ipip::tunnel::tunnel_name(node::name_any(remote));
    let m = (protocol::route_mode_protocol(local, remote, label, log, s)->0).1;
    lemma_replay_split(st0, log, s, m, e);
    lemma_route_mode_model(local, remote, label, st0, log, s, m);
    let st_m = replay(st0, log, s, m)->0;
    match (protocol::route_mode_protocol(local, remote, label, log, s)->0).0 {
        RouteMode::Direct => {
            lemma_replay_split(st_m, log, m, m + 1, e);
            lemma_replay_one(st_m, log, m);
            let rec = NetworkView { calls: st_m.calls.push(protocol::route_via_cmd(cidr, rip)), ..st_m };
            lemma_apply_route_via(rec, cidr, rip);
            let st_r = replay(st_m, log, m, m + 1)->0;
            lemma_with_entry(st_m.routes, cidr, RouteView::Direct(rip), cidr);
            if let Some(Ok(_)) = protocol::ran(log, m, protocol::route_via_cmd(cidr, rip)) {
                lemma_delete_tunnel_model(name, st_r, log, m + 1);
            }
        },
        RouteMode::Ipip => {
            let lip = node::node_ip(local)->0;
            let k = (protocol::ensure_tunnel_protocol(name, lip, rip, log, m)->0).1;
            lemma_replay_split(st_m, log, m, k, e);
            lemma_ensure_tunnel_model(name, lip, rip, st_m, log, m);
            if let Some((Ok(()), _)) = protocol::ensure_tunnel_protocol(name, lip, rip, log, m) {
                let st_k = replay(st_m, log, m, k)->0;
                lemma_replay_one(st_k, log, k);
                let rec = NetworkView { calls: st_k.calls.push(protocol::route_dev_cmd(cidr, name)), ..st_k };
                lemma_apply_route_dev(rec, cidr, name);
            }
        },
    }
}

/// What removing a deleted Node's routing leaves on the model: no route to
/// its PodCIDR, unless deleting the route was the injected failure, and no
/// tunnel, unless looking it up or deleting it was the injected failure.
pub proof fn law_deleted_node_on_model(n: NodeView, st0: NetworkView, log: Seq<Exchange>, s: int)
    requires
        protocol::delete_route_protocol(n, log, s) is Some,
        replay(st0, log, s, protocol::delete_route_protocol(n, log, s)->0) is Some,
        unique_keys(st0.routes),
        unique_keys(st0.tunnels),
    ensures
        ({
            let st1 = replay(st0, log, s, protocol::delete_route_protocol(n, log, s)->0)->0;
            let name = crate::ipip::tunnel::tunnel_name(node::name_any(n));
            &&& (n.pod_cidr matches Some(c) && st0.fail_on != Some(protocol::route_del_cmd(c)))
                ==> entry_index(st1.routes, n.pod_cidr->0) is None
            &&& (st0.fail_on != Some(protocol::link_show_cmd(name)) && st0.fail_on != Some(
                protocol::tunnel_del_cmd(name),
            )) ==> entry_index(st1.tunnels, name) is None
        }),
{
    let e = protocol::delete_route_protocol(n, log, s)->0;
    let name = crate::ipip::tunnel::tunnel_name(node::name_any(n));
    let m = if n.pod_cidr is Some {
        s + 1
    } else {
        s
    };
    lemma_replay_split(st0, log, s, m, e);
    let st_m = replay(st0, log, s, m)->0;
    if let Some(c) = n.pod_cidr {
        lemma_replay_one(st0, log, s);
        let rec = NetworkView { calls: st0.calls.push(protocol::route_del_cmd(c)), ..st0 };
        lemma_apply_route_del(rec, c);
        if let Some(i) = entry_index(st0.routes, c) {
            lemma_remove_unique(st0.routes, c, i);
        }
        assert(st_m.tunnels == st0.tunnels);
    }
    lemma_delete_tunnel_model(name, st_m, log, m);
}

} // verus!
