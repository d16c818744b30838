//! Route selection and the host commands that install and remove routes.
use crate::ipip::address;
use crate::ipip::node::{self, get_node_cidr, get_node_internal_ip, get_node_ip, Node};
use crate::ipip::protocol::{self, Exchange, IoErrorKind, IoErrorView, OutputView, RouteMode};
use crate::ipip::text;
use crate::ipip::tunnel::{self, get_tunnel_name};
use vstd::prelude::*;
use vstd::string::StringExecFns;

verus! {

/// The name of the environment variable that holds the node group label key.
pub const NODE_GROUP_LABEL_ENV: &'static str = "NODE_GROUP_LABEL";

/// Controls how remote nodes are grouped for routing decisions.
///
/// When `node_group_label` is set, equal label values and a pair of missing
/// labels identify the same group. Direct routing also requires an on-link
/// remote InternalIP; all other cases use IPIP.
#[derive(Debug)]
pub struct RouteConfig {
    node_group_label: Option<String>,
}

impl View for RouteConfig {
    type V = Option<Seq<char>>;

    closed spec fn view(&self) -> Option<Seq<char>> {
        node::opt_view(self.node_group_label)
    }
}

/// The label key that a configured value gives: the value without surrounding
/// whitespace, when that is not empty.
pub open spec fn configured_label(value: Option<Seq<char>>) -> Option<Seq<char>> {
    match value {
        Some(v) => if text::trimmed(v).len() > 0 {
            Some(text::trimmed(v))
        } else {
            None
        },
        None => None,
    }
}

impl RouteConfig {
    /// A configuration from the value of `NODE_GROUP_LABEL`: surrounding
    /// whitespace is dropped, and an empty value counts as unset.
    pub fn new(node_group_label: Option<String>) -> (r: Self)
        ensures
            r@ == configured_label(node::opt_view(node_group_label)),
    {
        let label = match node_group_label {
            Some(l) => {
                let t = text::trim(l.as_str());
                if t.is_empty() {
                    None
                } else {
                    Some(t.to_owned())
                }
            },
            None => None,
        };
        RouteConfig { node_group_label: label }
    }

    /// The label key that identifies a Node's group, if one is configured.
    pub fn node_group_label(&self) -> (r: Option<&str>)
        ensures
            match r {
                Some(s) => self@ == Some(s@),
                None => self@ is None,
            },
    {
        match &self.node_group_label {
            Some(l) => Some(l.as_str()),
            None => None,
        }
    }

}

impl Clone for RouteConfig {
    fn clone(&self) -> (r: Self)
        ensures
            r@ == self@,
    {
        RouteConfig { node_group_label: node::clone_opt_string(&self.node_group_label) }
    }
}

impl PartialEq for RouteConfig {
    fn eq(&self, other: &Self) -> (r: bool) {
        match (&self.node_group_label, &other.node_group_label) {
            (Some(a), Some(b)) => text::str_eq(a.as_str(), b.as_str()),
            (None, None) => true,
            _ => false,
        }
    }
}

impl vstd::std_specs::cmp::PartialEqSpecImpl for RouteConfig {
    open spec fn obeys_eq_spec() -> bool {
        true
    }

    open spec fn eq_spec(&self, other: &Self) -> bool {
        self@ == other@
    }
}

impl Eq for RouteConfig {
}

impl Default for RouteConfig {
    fn default() -> (r: Self)
        ensures
            r@ is None,
    {
        RouteConfig { node_group_label: None }
    }
}

/// The local Node's name: `NODE_NAME` when it is set and not empty, else
/// `HOSTNAME`.
pub fn local_node_name_from(node_name: Option<String>, hostname: Option<String>) -> (r: Option<
    String,
>)
    ensures
        node::opt_view(r) == match node::opt_view(node_name) {
            Some(n) => if n.len() > 0 {
                Some(n)
            } else {
                node::opt_view(hostname)
            },
            None => node::opt_view(hostname),
        },
{
    match node_name {
        Some(n) => if n.as_str().is_empty() {
            hostname
        } else {
            Some(n)
        },
        None => hostname,
    }
}

/// What a finished `ip` command reports: whether it exited successfully, and
/// its standard output.
#[derive(Debug)]
pub struct CommandOutput {
    pub success: bool,
    pub stdout: Vec<u8>,
}

impl View for CommandOutput {
    type V = OutputView;

    open spec fn view(&self) -> OutputView {
        OutputView { success: self.success, stdout: self.stdout@ }
    }
}

/// A failed command: its kind and message.
#[derive(Debug)]
pub struct IoError {
    pub kind: IoErrorKind,
    pub message: String,
}

impl View for IoError {
    type V = IoErrorView;

    open spec fn view(&self) -> IoErrorView {
        IoErrorView { kind: self.kind, message: self.message@ }
    }
}

impl IoError {
    pub fn new(kind: IoErrorKind, message: &str) -> (r: Self)
        ensures
            r@ == (IoErrorView { kind, message: message@ }),
    {
        IoError { kind, message: message.to_owned() }
    }

    pub fn kind(&self) -> (r: IoErrorKind)
        ensures
            r == self.kind,
    {
        self.kind
    }

    /// The error's message, as its `Display` would print it.
    pub fn message(&self) -> (r: String)
        ensures
            r@ == self.message@,
    {
        self.message.clone()
    }
}

pub open spec fn args_view(args: Seq<&str>) -> Seq<Seq<char>> {
    args.map_values(|a: &str| a@)
}

pub open spec fn output_reply(r: Result<CommandOutput, IoError>) -> Result<OutputView, IoErrorView> {
    match r {
        Ok(o) => Ok(o@),
        Err(e) => Err(e@),
    }
}

pub open spec fn unit_reply(r: Result<(), IoError>) -> Result<(), IoErrorView> {
    match r {
        Ok(()) => Ok(()),
        Err(e) => Err(e@),
    }
}

/// Runs `ip` commands and changes interface settings on a host.
pub trait IpCommandExecutor: Sized {
    /// Whether a call that returned `call` may take the executor from `before`
    /// to `after`. An executor that models a host states here what each call
    /// does to it; by default nothing is claimed.
    open spec fn answers(before: Self, after: Self, call: Exchange) -> bool {
        true
    }

    /// Runs `ip` with `args`.
    fn run(&mut self, args: &[&str]) -> (r: Result<CommandOutput, IoError>)
        ensures
            Self::answers(*old(self), *final(self), Exchange::Run { args: args_view(args@), reply: output_reply(r) }),
    ;

    /// Turns off reverse-path filtering on `interface`.
    fn disable_reverse_path_filter(&mut self, interface: &str) -> (r: Result<(), IoError>)
        ensures
            Self::answers(
                *old(self),
                *final(self),
                Exchange::DisableRpFilter { interface: interface@, outcome: unit_reply(r) },
            ),
    ;
}

/// An executor together with the log of the calls made through it, each with
/// what it returned. Routing states the commands it issues, and what it
/// concludes, over this log.
pub struct LoggedExecutor<T> {
    executor: T,
    log: Ghost<Seq<Exchange>>,
    start: Ghost<T>,
    states: Ghost<Seq<T>>,
}

/// Whether `states` are the executor's states around the calls `log`: one
/// more state than calls, each call taking the state before it to the state
/// after it as `IpCommandExecutor::answers` allows.
pub open spec fn answered_in_turn<T: IpCommandExecutor>(states: Seq<T>, log: Seq<Exchange>) -> bool {
    &&& states.len() == log.len() + 1
    &&& forall|i: int| 0 <= i < log.len() ==> T::answers(#[trigger] states[i], states[i + 1], log[i])
}

impl<T: IpCommandExecutor> LoggedExecutor<T> {
    /// The calls made so far, in order.
    pub closed spec fn history(&self) -> Seq<Exchange> {
        self.log@
    }

    pub closed spec fn inner_view(&self) -> T {
        self.executor
    }

    /// The executor as it was when the log began.
    pub closed spec fn start(&self) -> T {
        self.start@
    }

    /// The executor's state before each logged call, and after the last one.
    pub closed spec fn states(&self) -> Seq<T> {
        self.states@
    }

    /// The executor is where the logged calls, answered in turn from its
    /// starting state, may leave it.
    pub open spec fn tracks(&self) -> bool {
        &&& answered_in_turn(self.states(), self.history())
        &&& self.states()[0] == self.start()
        &&& self.states().last() == self.inner_view()
    }

    /// Later than `earlier`: the same start, and still tracking the log if
    /// `earlier` did.
    pub open spec fn continues(self, earlier: Self) -> bool {
        &&& self.start() == earlier.start()
        &&& earlier.tracks() ==> self.tracks()
    }

    /// `executor` with an empty log.
    pub fn new(executor: T) -> (r: Self)
        ensures
            r.history() == Seq::<Exchange>::empty(),
            r.inner_view() == executor,
            r.start() == executor,
            r.tracks(),
    {
        let ghost states = seq![executor];
        let ghost start = executor;
        LoggedExecutor { executor, log: Ghost(Seq::empty()), start: Ghost(start), states: Ghost(states) }
    }

    /// The executor.
    pub fn inner(&self) -> (r: &T)
        ensures
            *r == self.inner_view(),
    {
        &self.executor
    }

    /// The executor, to change it between calls; the log stays.
    pub fn inner_mut(&mut self) -> (r: &mut T)
        ensures
            *r == old(self).inner_view(),
            final(self).history() == old(self).history(),
            final(self).start() == old(self).start(),
            final(self).inner_view() == *final(r),
    {
        &mut self.executor
    }

    /// The executor, without the log.
    pub fn into_inner(self) -> (r: T)
        ensures
            r == self.inner_view(),
    {
        self.executor
    }

    /// Runs `ip` with `args` and logs the call.
    pub fn run(&mut self, args: &[&str]) -> (r: Result<CommandOutput, IoError>)
        ensures
            final(self).history() == old(self).history().push(
                Exchange::Run { args: args_view(args@), reply: output_reply(r) },
            ),
            T::answers(
                old(self).inner_view(),
                final(self).inner_view(),
                Exchange::Run { args: args_view(args@), reply: output_reply(r) },
            ),
            final(self).continues(*old(self)),
    {
        let ghost before = self.executor;
        let r = self.executor.run(args);
        let ghost x = Exchange::Run { args: args_view(args@), reply: output_reply(r) };
        let ghost states = self.states@;
        let ghost after = self.executor;
        self.log = Ghost(self.log@.push(x));
        self.states = Ghost(states.push(after));
        proof {
            if old(self).tracks() {
                assert(self.states@[0] == states[0]);
                assert forall|i: int| 0 <= i < self.log@.len() implies T::answers(
                    #[trigger] self.states@[i],
                    self.states@[i + 1],
                    self.log@[i],
                ) by {
                    if i < self.log@.len() - 1 {
                        assert(self.states@[i] == states[i] && self.states@[i + 1] == states[i + 1]);
                        assert(self.log@[i] == old(self).history()[i]);
                        assert(T::answers(states[i], states[i + 1], old(self).history()[i]));
                    }
                }
            }
        }
        r
    }

    /// Turns off reverse-path filtering on `interface` and logs the call.
    pub fn disable_reverse_path_filter(&mut self, interface: &str) -> (r: Result<(), IoError>)
        ensures
            final(self).history() == old(self).history().push(
                Exchange::DisableRpFilter { interface: interface@, outcome: unit_reply(r) },
            ),
            T::answers(
                old(self).inner_view(),
                final(self).inner_view(),
                Exchange::DisableRpFilter { interface: interface@, outcome: unit_reply(r) },
            ),
            final(self).continues(*old(self)),
    {
        let ghost before = self.executor;
        let r = self.executor.disable_reverse_path_filter(interface);
        let ghost x = Exchange::DisableRpFilter { interface: interface@, outcome: unit_reply(r) };
        let ghost states = self.states@;
        let ghost after = self.executor;
        self.log = Ghost(self.log@.push(x));
        self.states = Ghost(states.push(after));
        proof {
            if old(self).tracks() {
                assert(self.states@[0] == states[0]);
                assert forall|i: int| 0 <= i < self.log@.len() implies T::answers(
                    #[trigger] self.states@[i],
                    self.states@[i + 1],
                    self.log@[i],
                ) by {
                    if i < self.log@.len() - 1 {
                        assert(self.states@[i] == states[i] && self.states@[i + 1] == states[i + 1]);
                        assert(self.log@[i] == old(self).history()[i]);
                        assert(T::answers(states[i], states[i + 1], old(self).history()[i]));
                    }
                }
            }
        }
        r
    }
}

/// `String::from_utf8_lossy`: the text of `bytes`, with each invalid UTF-8
/// sequence replaced by U+FFFD. Valid UTF-8 gives its decoding; the text of
/// other input is named `lossy_utf8` and not stated.
#[verifier::external_body]
fn from_utf8_lossy(bytes: &[u8]) -> (r: String)
    ensures
        r@ == protocol::lossy_utf8(bytes@),
        vstd::utf8::valid_utf8(bytes@) ==> r@ == vstd::utf8::decode_utf8(bytes@),
{
    String::from_utf8_lossy(bytes).into_owned()
}

/// The error that `ip` without arguments gives: it is refused before anything
/// runs.
pub open spec fn missing_arguments_error() -> IoErrorView {
    IoErrorView { kind: IoErrorKind::InvalidInput, message: "ip command requires at least one argument"@ }
}

/// Checks the arguments of an `ip` command before it runs: at least one is
/// needed.
pub fn check_ip_arguments(args: &[&str]) -> (r: Result<(), IoError>)
    ensures
        args@.len() == 0 <==> r is Err,
        r matches Err(e) ==> e@ == missing_arguments_error(),
{
    if args.len() == 0 {
        proof {
            reveal_strlit("ip command requires at least one argument");
        }
        Err(IoError::new(IoErrorKind::InvalidInput, "ip command requires at least one argument"))
    } else {
        Ok(())
    }
}

/// The message of an `ip` command that exited unsuccessfully, with its exit
/// status as text and its standard error.
pub open spec fn failed_command_message(status: Seq<char>, stderr: Seq<char>) -> Seq<char> {
    "ip command failed (exit: "@ + status + "): "@ + stderr
}

/// What an `ip` command that ran returns: its output when it exited
/// successfully, else an error that quotes the exit status and the standard
/// error (decoded as UTF-8, invalid sequences replaced).
pub fn ip_command_reply(success: bool, stdout: Vec<u8>, status: &str, stderr: &[u8]) -> (r: Result<
    CommandOutput,
    IoError,
>)
    ensures
        output_reply(r) == if success {
            Ok::<OutputView, IoErrorView>(OutputView { success: true, stdout: stdout@ })
        } else {
            Err(IoErrorView {
                kind: IoErrorKind::Other,
                message: failed_command_message(status@, protocol::lossy_utf8(stderr@)),
            })
        },
{
    if success {
        Ok(CommandOutput { success: true, stdout })
    } else {
        proof {
            reveal_strlit("ip command failed (exit: ");
            reveal_strlit("): ");
        }
        let error_text = from_utf8_lossy(stderr);
        let mut message = "ip command failed (exit: ".to_owned();
        message.append(status);
        message.append("): ");
        message.append(error_text.as_str());
        Err(IoError { kind: IoErrorKind::Other, message })
    }
}

/// What running `ip` reported: whether it exited successfully, its exit status
/// as text, its standard output and its standard error.
pub struct FinishedCommand {
    pub success: bool,
    pub status: String,
    pub stdout: Vec<u8>,
    pub stderr: Vec<u8>,
}

/// What an `ip` command returns once it was started: the error of a start that
/// failed, else its output when it exited successfully, else an error that
/// quotes the exit status and the decoded standard error.
pub open spec fn finished_reply(started: Result<FinishedCommand, IoError>) -> Result<OutputView, IoErrorView> {
    match started {
        Err(e) => Err(e@),
        Ok(c) => if c.success {
            Ok(OutputView { success: true, stdout: c.stdout@ })
        } else {
            Err(
                IoErrorView {
                    kind: IoErrorKind::Other,
                    message: failed_command_message(c.status@, protocol::lossy_utf8(c.stderr@)),
                },
            )
        },
    }
}

/// Runs `ip` with `args` through `start`, which starts the command and waits
/// for it. Without arguments nothing is started (the `requires` asks nothing
/// of `start` then, so it cannot be called) and the `InvalidInput` error
/// comes back; otherwise `start` is called once and its outcome decides: its
/// error, or the output of a successful exit, or an error quoting the exit
/// status and standard error.
pub fn run_ip_command<F: FnOnce() -> Result<FinishedCommand, IoError>>(args: &[&str], start: F) -> (r: Result<
    CommandOutput,
    IoError,
>)
    requires
        args@.len() > 0 ==> call_requires(start, ()),
    ensures
        args@.len() == 0 ==> output_reply(r) == Err::<OutputView, IoErrorView>(missing_arguments_error()),
        args@.len() > 0 ==> exists|started: Result<FinishedCommand, IoError>|
            #[trigger] call_ensures(start, (), started) && output_reply(r) == finished_reply(started),
        r matches Ok(o) ==> o.success,
{
    if let Err(e) = check_ip_arguments(args) {
        return Err(e);
    }
    let started = start();
    let r = match started {
        Err(e) => Err(e),
        Ok(c) => ip_command_reply(c.success, c.stdout, c.status.as_str(), c.stderr.as_slice()),
    };
    proof {
        assert(call_ensures(start, (), started));
    }
    r
}

/// The Node named `name` among `nodes`: the first one whose `metadata.name` is
/// `name`.
pub fn find_node(nodes: Vec<Node>, name: &str) -> (r: Option<Node>)
    ensures
        match r {
            Some(n) => exists|i: int|
                0 <= i < nodes@.len() && (#[trigger] nodes@[i])@ == n@ && n@.name == Some(name@) && forall|
                    j: int,
                | 0 <= j < i ==> (#[trigger] nodes@[j])@.name != Some(name@),
            None => forall|i: int| 0 <= i < nodes@.len() ==> (#[trigger] nodes@[i])@.name != Some(name@),
        },
{
    let mut i: usize = 0;
    while i < nodes.len()
        invariant
            i <= nodes@.len(),
            forall|j: int| 0 <= j < i ==> (#[trigger] nodes@[j])@.name != Some(name@),
        decreases nodes@.len() - i,
    {
        let matches = match &nodes[i].name {
            Some(n) => text::str_eq(n.as_str(), name),
            None => false,
        };
        if matches {
            return Some(nodes[i].clone());
        }
        i = i + 1;
    }
    None
}

/// The prefix length of `local_ip` in the output of `ip -o -4 addr show`.
pub fn get_local_ipv4_prefix(address_output: &[u8], local_ip: &str) -> (r: Option<u8>)
    ensures
        r == address::local_ipv4_prefix(protocol::lossy_utf8(address_output@), local_ip@),
        vstd::utf8::valid_utf8(address_output@) ==> r == address::local_ipv4_prefix(
            vstd::utf8::decode_utf8(address_output@),
            local_ip@,
        ),
{
    let text = from_utf8_lossy(address_output);
    address::find_local_ipv4_prefix(text.as_str(), local_ip)
}

/// The two InternalIPs whose subnet decides the route, when a direct route is
/// possible at all.
pub fn subnet_candidates(local_node: &Node, remote_node: &Node, config: &RouteConfig) -> (r:
    Option<(String, String)>)
    ensures
        match r {
            Some((l, m)) => protocol::subnet_candidates(local_node@, remote_node@, config@) == Some(
                (l@, m@),
            ),
            None => protocol::subnet_candidates(local_node@, remote_node@, config@) is None,
        },
{
    let label_key = match config.node_group_label() {
        Some(k) => k,
        None => return None,
    };
    let local_group = node::get_node_group(local_node, label_key);
    let remote_group = node::get_node_group(remote_node, label_key);
    let same_group = match (&local_group, &remote_group) {
        (Some(l), Some(m)) => text::str_eq(l.as_str(), m.as_str()),
        (None, None) => true,
        _ => false,
    };
    if !same_group {
        return None;
    }
    let local_ip = match get_node_internal_ip(local_node) {
        Some(ip) => ip,
        None => return None,
    };
    let remote_ip = match get_node_internal_ip(remote_node) {
        Some(ip) => ip,
        None => return None,
    };
    Some((local_ip, remote_ip))
}

/// The route mode for `remote_node`: IPIP unless a group label is configured,
/// both Nodes are in one group and have InternalIPs, and the local address
/// lookup (`ip -o -4 addr show`) succeeds and puts the remote InternalIP in
/// the local InternalIP's subnet.
pub fn get_route_mode<T: IpCommandExecutor>(
    local_node: &Node,
    remote_node: &Node,
    config: &RouteConfig,
    executor: &mut LoggedExecutor<T>,
) -> (r: RouteMode)
    ensures
        protocol::extends(final(executor).history(), old(executor).history()),
        final(executor).continues(*old(executor)),
        protocol::route_mode_protocol(
            local_node@,
            remote_node@,
            config@,
            final(executor).history(),
            old(executor).history().len() as int,
        ) == Some((r, final(executor).history().len() as int)),
{
    assert(protocol::extends(old(executor).history(), old(executor).history()));
    let (local_ip, remote_ip) = match subnet_candidates(local_node, remote_node, config) {
        Some(p) => p,
        None => return RouteMode::Ipip,
    };
    let args = ["-o", "-4", "addr", "show"];
    let reply = executor.run(&args);
    proof {
        protocol::lemma_extends_push(old(executor).history(), executor.history().last());
        assert(args_view(args@) =~= protocol::addr_show_cmd());
    }
    match reply {
        Ok(output) => if output.success {
            match get_local_ipv4_prefix(output.stdout.as_slice(), local_ip.as_str()) {
                Some(prefix) => if address::is_same_ipv4_subnet(
                    local_ip.as_str(),
                    remote_ip.as_str(),
                    prefix,
                ) {
                    RouteMode::Direct
                } else {
                    RouteMode::Ipip
                },
                None => RouteMode::Ipip,
            }
        } else {
            RouteMode::Ipip
        },
        Err(_) => RouteMode::Ipip,
    }
}

/// Whether the tunnel exists: `ip link show dev <name>` succeeds. A failed
/// lookup means that it does not exist.
pub fn tunnel_exists<T: IpCommandExecutor>(executor: &mut LoggedExecutor<T>, tunnel_name: &str) -> (r: Result<
    bool,
    IoError,
>)
    ensures
        protocol::extends(final(executor).history(), old(executor).history()),
        final(executor).continues(*old(executor)),
        r matches Ok(b) && protocol::tunnel_exists_protocol(
            tunnel_name@,
            final(executor).history(),
            old(executor).history().len() as int,
        ) == Some((b, final(executor).history().len() as int)),
{
    let args = ["link", "show", "dev", tunnel_name];
    let reply = executor.run(&args);
    proof {
        protocol::lemma_extends_push(old(executor).history(), executor.history().last());
        assert(args_view(args@) =~= protocol::link_show_cmd(tunnel_name@));
    }
    match reply {
        Ok(output) => Ok(output.success),
        Err(_) => Ok(false),
    }
}

/// Whether the route to `cidr` goes through the tunnel: the successful output
/// of `ip route show to <cidr>` mentions the tunnel's name.
pub fn route_exists<T: IpCommandExecutor>(
    executor: &mut LoggedExecutor<T>,
    cidr: &str,
    tunnel_name: &str,
) -> (r: Result<bool, IoError>)
    ensures
        protocol::extends(final(executor).history(), old(executor).history()),
        final(executor).continues(*old(executor)),
        r matches Ok(b) && protocol::route_exists_protocol(
            cidr@,
            tunnel_name@,
            final(executor).history(),
            old(executor).history().len() as int,
        ) == Some((b, final(executor).history().len() as int)),
        final(executor).history().len() == old(executor).history().len() + 1,
        final(executor).history().last() matches Exchange::Run { args, reply } && {
            &&& args == protocol::route_show_cmd(cidr@)
            &&& r == Ok::<bool, IoError>(
                match reply {
                    Ok(o) => o.success && text::contains_seq(protocol::lossy_utf8(o.stdout), tunnel_name@),
                    Err(_) => false,
                },
            )
        },
{
    let args = ["route", "show", "to", cidr];
    let reply = executor.run(&args);
    proof {
        protocol::lemma_extends_push(old(executor).history(), executor.history().last());
        assert(args_view(args@) =~= protocol::route_show_cmd(cidr@));
    }
    match reply {
        Ok(output) => if output.success {
            let text = from_utf8_lossy(output.stdout.as_slice());
            Ok(text::contains(text.as_str(), tunnel_name))
        } else {
            Ok(false)
        },
        Err(_) => Ok(false),
    }
}

/// Makes the tunnel ready for routing: creates it in IPIP mode between the two
/// addresses when it does not exist, brings it up, and turns off its
/// reverse-path filter. The first error ends it.
pub fn ensure_tunnel<T: IpCommandExecutor>(
    executor: &mut LoggedExecutor<T>,
    tunnel_name: &str,
    local_ip: &str,
    remote_ip: &str,
) -> (r: Result<(), IoError>)
    ensures
        protocol::extends(final(executor).history(), old(executor).history()),
        final(executor).continues(*old(executor)),
        protocol::ensure_tunnel_protocol(
            tunnel_name@,
            local_ip@,
            remote_ip@,
            final(executor).history(),
            old(executor).history().len() as int,
        ) == Some((unit_reply(r), final(executor).history().len() as int)),
{
    let ghost h0 = executor.history();
    let ghost s = h0.len() as int;
    let exists = match tunnel_exists(executor, tunnel_name) {
        Ok(b) => b,
        Err(e) => return Err(e),
    };
    let ghost h1 = executor.history();
    if !exists {
        let args = ["tunnel", "add", tunnel_name, "mode", "ipip", "local", local_ip, "remote", remote_ip];
        let reply = executor.run(&args);
        proof {
            protocol::lemma_extends_push(h1, executor.history().last());
            protocol::lemma_extends_trans(executor.history(), h1, h0);
            protocol::lemma_tunnel_exists_stable(tunnel_name@, executor.history(), h1, s);
            assert(args_view(args@) =~= protocol::tunnel_add_cmd(tunnel_name@, local_ip@, remote_ip@));
        }
        if let Err(e) = reply {
            return Err(e);
        }
    }
    let ghost h2 = executor.history();
    proof {
        assert(protocol::extends(h2, h2));
        protocol::lemma_extends_trans(h2, h1, h0);
    }
    let args = ["link", "set", "dev", tunnel_name, "up"];
    let reply = executor.run(&args);
    proof {
        protocol::lemma_extends_push(h2, executor.history().last());
        protocol::lemma_extends_trans(executor.history(), h2, h0);
        protocol::lemma_extends_trans(executor.history(), h2, h1);
        protocol::lemma_tunnel_exists_stable(tunnel_name@, executor.history(), h1, s);
        if !exists {
            protocol::lemma_ran_stable(executor.history(), h2, h1.len() as int, protocol::tunnel_add_cmd(tunnel_name@, local_ip@, remote_ip@));
        }
        assert(args_view(args@) =~= protocol::link_up_cmd(tunnel_name@));
    }
    if let Err(e) = reply {
        return Err(e);
    }
    let ghost h3 = executor.history();
    let outcome = executor.disable_reverse_path_filter(tunnel_name);
    proof {
        protocol::lemma_extends_push(h3, executor.history().last());
        protocol::lemma_extends_trans(executor.history(), h3, h0);
        protocol::lemma_extends_trans(executor.history(), h3, h1);
        protocol::lemma_extends_trans(executor.history(), h3, h2);
        protocol::lemma_tunnel_exists_stable(tunnel_name@, executor.history(), h1, s);
        if !exists {
            protocol::lemma_ran_stable(executor.history(), h2, h1.len() as int, protocol::tunnel_add_cmd(tunnel_name@, local_ip@, remote_ip@));
        }
        protocol::lemma_ran_stable(executor.history(), h3, h2.len() as int, protocol::link_up_cmd(tunnel_name@));
    }
    outcome
}

/// Deletes the tunnel when it exists.
pub fn delete_tunnel_if_exists<T: IpCommandExecutor>(executor: &mut LoggedExecutor<T>, tunnel_name: &str) -> (r:
    Result<(), IoError>)
    ensures
        protocol::extends(final(executor).history(), old(executor).history()),
        final(executor).continues(*old(executor)),
        protocol::delete_tunnel_protocol(
            tunnel_name@,
            final(executor).history(),
            old(executor).history().len() as int,
        ) == Some((unit_reply(r), final(executor).history().len() as int)),
{
    let ghost h0 = executor.history();
    let exists = match tunnel_exists(executor, tunnel_name) {
        Ok(b) => b,
        Err(e) => return Err(e),
    };
    let ghost h1 = executor.history();
    if exists {
        let args = ["tunnel", "del", tunnel_name];
        let reply = executor.run(&args);
        proof {
            protocol::lemma_extends_push(h1, executor.history().last());
            protocol::lemma_extends_trans(executor.history(), h1, h0);
            protocol::lemma_tunnel_exists_stable(tunnel_name@, executor.history(), h1, h0.len() as int);
            assert(args_view(args@) =~= protocol::tunnel_del_cmd(tunnel_name@));
        }
        if let Err(e) = reply {
            return Err(e);
        }
    }
    Ok(())
}

/// Reconciles the route to a remote node's PodCIDR.
///
/// Nodes in the same configured group use a direct next-hop route when the
/// remote InternalIP is on-link. All other cases use IPIP.
pub fn reconcile_route_with_executor<T: IpCommandExecutor>(
    local_node: &Node,
    remote_node: &Node,
    config: &RouteConfig,
    executor: &mut LoggedExecutor<T>,
) -> (r: Result<(), IoError>)
    ensures
        protocol::extends(final(executor).history(), old(executor).history()),
        final(executor).continues(*old(executor)),
        protocol::reconcile_protocol(
            local_node@,
            remote_node@,
            config@,
            final(executor).history(),
            old(executor).history().len() as int,
        ) == Some((unit_reply(r), final(executor).history().len() as int)),
{
    let ghost h0 = executor.history();
    let ghost s = h0.len() as int;
    assert(protocol::extends(h0, h0));
    let local_name = local_node.name_any();
    let remote_name = remote_node.name_any();
    if text::str_eq(local_name.as_str(), remote_name.as_str()) {
        return Ok(());
    }
    let cidr = match get_node_cidr(remote_node) {
        Some(c) => c,
        None => return Ok(()),
    };
    let remote_ip = match get_node_ip(remote_node) {
        Some(ip) => ip,
        None => return Ok(()),
    };
    let tunnel_name = get_tunnel_name(remote_name.as_str());
    let mode = get_route_mode(local_node, remote_node, config, executor);
    let ghost h1 = executor.history();
    match mode {
        RouteMode::Direct => {
            let args = ["route", "replace", cidr.as_str(), "via", remote_ip.as_str()];
            let reply = executor.run(&args);
            let ghost h2 = executor.history();
            proof {
                protocol::lemma_extends_push(h1, h2.last());
                protocol::lemma_extends_trans(h2, h1, h0);
                protocol::lemma_route_mode_stable(local_node@, remote_node@, config@, h2, h1, s);
                assert(args_view(args@) =~= protocol::route_via_cmd(cidr@, remote_ip@));
            }
            if let Err(e) = reply {
                return Err(e);
            }
            let r = delete_tunnel_if_exists(executor, tunnel_name.as_str());
            proof {
                let h3 = executor.history();
                protocol::lemma_extends_trans(h3, h2, h0);
                protocol::lemma_extends_trans(h3, h2, h1);
                protocol::lemma_route_mode_stable(local_node@, remote_node@, config@, h3, h1, s);
                protocol::lemma_ran_stable(h3, h2, h1.len() as int, protocol::route_via_cmd(cidr@, remote_ip@));
            }
            r
        },
        RouteMode::Ipip => {
            let local_ip = match get_node_ip(local_node) {
                Some(ip) => ip,
                None => return Ok(()),
            };
            let ensured = ensure_tunnel(
                executor,
                tunnel_name.as_str(),
                local_ip.as_str(),
                remote_ip.as_str(),
            );
            let ghost h2 = executor.history();
            proof {
                protocol::lemma_extends_trans(h2, h1, h0);
                protocol::lemma_route_mode_stable(local_node@, remote_node@, config@, h2, h1, s);
            }
            if let Err(e) = ensured {
                return Err(e);
            }
            let args = ["route", "replace", cidr.as_str(), "dev", tunnel_name.as_str()];
            let reply = executor.run(&args);
            proof {
                let h3 = executor.history();
                protocol::lemma_extends_push(h2, h3.last());
                protocol::lemma_extends_trans(h3, h2, h0);
                protocol::lemma_extends_trans(h3, h2, h1);
                protocol::lemma_route_mode_stable(local_node@, remote_node@, config@, h3, h1, s);
                protocol::lemma_ensure_tunnel_stable(
                    tunnel_name@,
                    local_ip@,
                    remote_ip@,
                    h3,
                    h2,
                    h1.len() as int,
                );
                assert(args_view(args@) =~= protocol::route_dev_cmd(cidr@, tunnel_name@));
            }
            match reply {
                Ok(_) => Ok(()),
                Err(e) => Err(e),
            }
        },
    }
}

/// Removes what routes to a deleted Node: the route to its PodCIDR, when it has
/// one, and then its tunnel, when that exists. Failures are not returned; the
/// tunnel is cleaned up even when the route deletion failed.
pub fn delete_route_with_executor<T: IpCommandExecutor>(node: Node, executor: &mut LoggedExecutor<T>)
    ensures
        protocol::extends(final(executor).history(), old(executor).history()),
        final(executor).continues(*old(executor)),
        protocol::delete_route_protocol(
            node@,
            final(executor).history(),
            old(executor).history().len() as int,
        ) == Some(final(executor).history().len() as int),
{
    let ghost h0 = executor.history();
    assert(protocol::extends(h0, h0));
    let node_name = node.name_any();
    let node_cidr = get_node_cidr(&node);
    let tunnel_name = get_tunnel_name(node_name.as_str());
    if let Some(cidr) = node_cidr {
        let args = ["route", "del", cidr.as_str()];
        let _ = executor.run(&args);
        proof {
            protocol::lemma_extends_push(h0, executor.history().last());
            assert(args_view(args@) =~= protocol::route_del_cmd(cidr@));
        }
    }
    let ghost h1 = executor.history();
    let _ = delete_tunnel_if_exists(executor, tunnel_name.as_str());
    proof {
        let h2 = executor.history();
        protocol::lemma_extends_trans(h2, h1, h0);
        if node@.pod_cidr is Some {
            protocol::lemma_ran_stable(h2, h1, h0.len() as int, protocol::route_del_cmd(node@.pod_cidr->0));
        }
    }
}

} // verus!
