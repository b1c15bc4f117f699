//! What the daemon of an account does, and how its peers are found.

use vstd::prelude::*;
use vstd::string::*;

use crate::cli;
use crate::config;
use crate::config::{Config, ConfigView};
use crate::decimal;
use crate::error::{err, Error};
use crate::order;
use crate::ordmap;
use crate::ordmap::OrdMap;
use crate::text;

verus! {

/// Whether an answer shows that the daemon of an account runs.
pub open spec fn shows_daemon(c: ConfigView, answer: Seq<char>) -> bool {
    text::has_part(answer, "account\t"@ + c.account_id) || text::has_prefix(answer, "PONG"@)
}

/// How long a daemon that was started has to answer, in milliseconds.
pub const START_MS: u128 = 5000;

/// What is to be done so that the daemon of an account runs.
pub enum StartStep {
    /// Nothing more: this is to be said.
    Done(String),
    /// The daemon is to be started.
    Spawn,
    /// The daemon is to be given a moment, and asked again.
    Wait,
    /// It did not come up.
    Failed(Error),
}

/// What is said of a daemon.
pub open spec fn daemon_note(what: Seq<char>, c: ConfigView) -> Seq<char> {
    what + c.user + " on "@ + config::daemon_addr_of(c)
}

/// Decides what is to be done so that the daemon of an account runs. `since_spawn_ms` says how
/// long ago it was started, if it was; `answer` is what it said when it was asked, if it said
/// anything.
pub fn ensure_daemon_running(
    cfg: &Config,
    since_spawn_ms: Option<u128>,
    answer: Option<&str>,
) -> (r: StartStep)
    ensures
        match since_spawn_ms {
            None => match answer {
                Some(a) => if shows_daemon(cfg@, a@) {
                    r matches StartStep::Done(s) && s@ == daemon_note(
                        "daemon already running for "@,
                        cfg@,
                    )
                } else {
                    r is Spawn
                },
                None => r is Spawn,
            },
            Some(ms) => if answer matches Some(a) && text::has_prefix(a@, "PONG"@) {
                r matches StartStep::Done(s) && s@ == daemon_note("started daemon for "@, cfg@)
            } else if ms < 5000 {
                r is Wait
            } else {
                r matches StartStep::Failed(e) && e@
                    == "started daemon process, but it did not become ready within 5s"@
            },
        },
{
    match since_spawn_ms {
        None => {
            if let Some(a) = answer {
                let mut mark = text::owned("account\t");
                mark.append(&cfg.account_id);
                if text::contains(a, &mark) || text::starts_with(a, "PONG") {
                    return StartStep::Done(note("daemon already running for ", cfg));
                }
            }
            StartStep::Spawn
        },
        Some(ms) => {
            if let Some(a) = answer {
                if text::starts_with(a, "PONG") {
                    return StartStep::Done(note("started daemon for ", cfg));
                }
            }
            if ms < START_MS {
                StartStep::Wait
            } else {
                StartStep::Failed(
                    err("started daemon process, but it did not become ready within 5s"),
                )
            }
        },
    }
}

/// What is said of a daemon.
fn note(what: &str, cfg: &Config) -> (r: String)
    ensures
        r@ == daemon_note(what@, cfg@),
{
    let mut s = text::owned(what);
    s.append(&cfg.user);
    s.append(" on ");
    s.append(&config::daemon_addr(cfg));
    s
}

/// The arguments with which the daemon of an account is started.
pub fn daemon_args(cfg: &Config) -> (r: Vec<String>)
    ensures
        text::views(r@) == seq![
            "daemon"@,
            "--account"@,
            cfg@.user,
            "--bind"@,
            cli::bind_address_of(cfg@),
            "--discover"@,
        ],
{
    let r: Vec<String> = vec![
        text::owned("daemon"),
        text::owned("--account"),
        cfg.user.clone(),
        text::owned("--bind"),
        cli::bind_address(cfg),
        text::owned("--discover"),
    ];
    assert(text::views(r@) =~= seq![
        "daemon"@,
        "--account"@,
        cfg@.user,
        "--bind"@,
        cli::bind_address_of(cfg@),
        "--discover"@,
    ]);
    r
}

/// Adds texts to a sorted set.
fn insert_all(set: &mut OrdMap<bool>, list: &Vec<String>)
    requires
        old(set).wf(),
    ensures
        final(set).wf(),
        forall|k: Seq<char>| #[trigger]
            final(set)@.dom().contains(k) <==> old(set)@.dom().contains(k) || text::views(
                list@,
            ).contains(k),
{
    let ghost was = set@;
    let ghost all = text::views(list@);
    let mut i: usize = 0;
    assert(all.take(0) =~= Seq::<Seq<char>>::empty());
    while i < list.len()
        invariant
            set.wf(),
            i <= list@.len(),
            all == text::views(list@),
            forall|k: Seq<char>| #[trigger]
                set@.dom().contains(k) <==> was.dom().contains(k) || all.take(i as int).contains(k),
        decreases list@.len() - i,
    {
        proof {
            text::lemma_take_next(all, i as int);
            assert(all[i as int] == list@[i as int]@);
        }
        set.insert(list[i].clone(), true);
        i = i + 1;
    }
    assert(all.take(i as int) =~= all);
}

/// The texts of a sorted set.
fn members(set: &OrdMap<bool>) -> (r: Vec<String>)
    requires
        set.wf(),
    ensures
        ordmap::lists(text::views(r@), set@.dom()),
{
    let n = set.len();
    let ghost keys = ordmap::sorted(set@.dom());
    let mut out: Vec<String> = Vec::new();
    let mut i: usize = 0;
    while i < n
        invariant
            set.wf(),
            i <= n == keys.len(),
            keys == ordmap::sorted(set@.dom()),
            text::views(out@) =~= keys.take(i as int),
        decreases n - i,
    {
        let ghost before = text::views(out@);
        out.push(set.key(i).clone());
        assert(text::views(out@) =~= before.push(keys[i as int]));
        i = i + 1;
    }
    proof {
        assert(keys.take(i as int) =~= keys);
        ordmap::lemma_sorted_exists(set@.dom());
    }
    out
}

/// The peers of a round: those that were given and those that were found, sorted, each once.
pub open spec fn is_peer_list(
    peers: Seq<Seq<char>>,
    given: Seq<Seq<char>>,
    found: Seq<Seq<char>>,
) -> bool {
    &&& order::ascending(peers)
    &&& forall|p: Seq<char>| #[trigger]
        peers.contains(p) <==> given.contains(p) || found.contains(p)
}

/// Puts the peers of a round together.
pub fn peer_list(given: &Vec<String>, found: &Vec<String>) -> (r: Vec<String>)
    ensures
        is_peer_list(text::views(r@), text::views(given@), text::views(found@)),
{
    let mut set: OrdMap<bool> = OrdMap::new();
    insert_all(&mut set, given);
    insert_all(&mut set, found);
    members(&set)
}

/// Where the daemon is in its round.
#[derive(Clone, Copy)]
pub enum Phase {
    /// At its beginning.
    Top,
    /// The shares were scanned.
    Scanned,
    /// The peers before this one were synced with.
    Peer(usize),
    /// This peer was synced with, and the shares are to be written out.
    Synced(usize),
}

/// What the daemon does next.
pub enum Step {
    /// It takes over what has changed in the shared folders.
    Scan,
    /// It looks for peers.
    Discover,
    /// It syncs with this peer.
    Sync(String),
    /// It writes out the shares.
    Render,
    /// It rests.
    Rest,
    /// It stops.
    Stop,
}

/// What the daemon does next, in terms of values.
pub enum StepView {
    Scan,
    Discover,
    Sync(Seq<char>),
    Render,
    Rest,
    Stop,
}

impl View for Step {
    type V = StepView;

    open spec fn view(&self) -> StepView {
        match self {
            Step::Scan => StepView::Scan,
            Step::Discover => StepView::Discover,
            Step::Sync(p) => StepView::Sync(p@),
            Step::Render => StepView::Render,
            Step::Rest => StepView::Rest,
            Step::Stop => StepView::Stop,
        }
    }
}

/// The rounds of a daemon.
pub struct Daemon {
    pub discover: bool,
    pub given: Vec<String>,
    pub peers: Vec<String>,
    pub phase: Phase,
}

/// The next step of a daemon with the peers `peers`, and where it is then.
pub open spec fn next_step(phase: Phase, discover: bool, peers: Seq<Seq<char>>, stop: bool) -> (
    StepView,
    Phase,
) {
    match phase {
        Phase::Top => if stop {
            (StepView::Stop, Phase::Top)
        } else {
            (StepView::Scan, Phase::Scanned)
        },
        Phase::Scanned => if discover {
            (StepView::Discover, Phase::Peer(0))
        } else {
            next_peer(0, peers)
        },
        Phase::Peer(i) => next_peer(i, peers),
        Phase::Synced(i) => (StepView::Render, Phase::Peer((i + 1) as usize)),
    }
}

/// The next step before the peer `i`.
pub open spec fn next_peer(i: usize, peers: Seq<Seq<char>>) -> (StepView, Phase) {
    if i < peers.len() {
        (StepView::Sync(peers[i as int]), Phase::Synced(i))
    } else {
        (StepView::Rest, Phase::Top)
    }
}

impl Daemon {
    /// Whether the place of the daemon in its round is one that there is.
    pub open spec fn wf(&self) -> bool {
        match self.phase {
            Phase::Synced(i) => i < self.peers@.len(),
            _ => true,
        }
    }

    /// A daemon at the beginning of its first round. `given` are peers that are always tried.
    pub fn new(given: Vec<String>, discover: bool) -> (d: Daemon)
        ensures
            d.wf(),
            d.phase is Top,
            d.discover == discover,
            d.given@ == given@,
            is_peer_list(text::views(d.peers@), text::views(given@), Seq::empty()),
    {
        let none: Vec<String> = Vec::new();
        let peers = peer_list(&given, &none);
        assert(text::views(none@) =~= Seq::<Seq<char>>::empty());
        Daemon { discover, given, peers, phase: Phase::Top }
    }

    /// Takes the next step. `stop` says whether the daemon was asked to stop; it does so at the
    /// beginning of a round.
    pub fn next(&mut self, stop: bool) -> (r: Step)
        requires
            old(self).wf(),
        ensures
            final(self).wf(),
            (r@, final(self).phase) == next_step(
                old(self).phase,
                old(self).discover,
                text::views(old(self).peers@),
                stop,
            ),
            final(self).discover == old(self).discover,
            final(self).given@ == old(self).given@,
            final(self).peers@ == old(self).peers@,
    {
        match self.phase {
            Phase::Top => {
                if stop {
                    Step::Stop
                } else {
                    self.phase = Phase::Scanned;
                    Step::Scan
                }
            },
            Phase::Scanned => {
                if self.discover {
                    self.phase = Phase::Peer(0);
                    Step::Discover
                } else {
                    self.before_peer(0)
                }
            },
            Phase::Peer(i) => self.before_peer(i),
            Phase::Synced(i) => {
                let n = self.peers.len();
                assert(i < n);
                self.phase = Phase::Peer(i + 1);
                Step::Render
            },
        }
    }

    /// Takes the next step before a peer.
    fn before_peer(&mut self, i: usize) -> (r: Step)
        ensures
            final(self).wf(),
            (r@, final(self).phase) == next_peer(i, text::views(old(self).peers@)),
            final(self).discover == old(self).discover,
            final(self).given@ == old(self).given@,
            final(self).peers@ == old(self).peers@,
    {
        if i < self.peers.len() {
            self.phase = Phase::Synced(i);
            Step::Sync(self.peers[i].clone())
        } else {
            self.phase = Phase::Top;
            Step::Rest
        }
    }

    /// Takes the peers that were found for the rest of the round, with those that are always
    /// tried.
    pub fn set_found(&mut self, found: &Vec<String>)
        requires
            old(self).phase == Phase::Peer(0),
        ensures
            final(self).wf(),
            final(self).phase == old(self).phase,
            final(self).discover == old(self).discover,
            final(self).given@ == old(self).given@,
            is_peer_list(
                text::views(final(self).peers@),
                text::views(old(self).given@),
                text::views(found@),
            ),
    {
        self.peers = peer_list(&self.given, found);
    }
}

/// The shares are written out only right after a sync with a peer, and so never right after a
/// scan.
pub proof fn law_render_follows_sync(
    phase: Phase,
    discover: bool,
    peers: Seq<Seq<char>>,
    stop: bool,
    later: Seq<Seq<char>>,
    stop_later: bool,
)
    ensures
        ({
            let (first, between) = next_step(phase, discover, peers, stop);
            let (second, after) = next_step(between, discover, later, stop_later);
            &&& second is Render ==> first is Sync
            &&& first is Scan ==> !(second is Render)
        }),
{
}

/// After each sync the shares are written out, before anything else is done.
pub proof fn law_sync_is_followed_by_render(
    phase: Phase,
    discover: bool,
    peers: Seq<Seq<char>>,
    stop: bool,
    stop_later: bool,
)
    ensures
        ({
            let (first, between) = next_step(phase, discover, peers, stop);
            first is Sync ==> next_step(between, discover, peers, stop_later).0 is Render
        }),
{
}

/// In a round the daemon goes through its peers one by one: it syncs with a peer, writes out the
/// shares and goes on to the next peer, and behind the last one it rests and begins anew.
pub proof fn law_round_goes_through_all_peers(i: usize, discover: bool, peers: Seq<Seq<char>>, stop: bool)
    requires
        i < peers.len() <= usize::MAX,
    ensures
        ({
            let (first, a) = next_step(Phase::Peer(i), discover, peers, stop);
            let (second, b) = next_step(a, discover, peers, stop);
            &&& first == StepView::Sync(peers[i as int])
            &&& second is Render
            &&& b == Phase::Peer((i + 1) as usize)
        }),
        next_step(Phase::Peer(peers.len() as usize), discover, peers, stop) == (
            StepView::Rest,
            Phase::Top,
        ),
{
}

/// An address at which a service was announced.
pub struct Address {
    pub ip: String,
    pub loopback: bool,
}

/// A service that was announced on the network.
pub struct Service {
    pub account: String,
    pub device: String,
    pub port: u16,
    pub addresses: Vec<Address>,
}

/// Whether a service is that of another device of the account.
pub open spec fn is_peer(c: ConfigView, s: Service) -> bool {
    s.account@ == c.account_id && s.device@ != c.device
}

/// How an address with a port is written.
pub open spec fn address_text(ip: Seq<char>, port: nat) -> Seq<char> {
    ip.push(':') + decimal::digits(port)
}

/// Whether `p` is an address of the service `s` at which another device can reach it.
pub open spec fn is_address_of(s: Service, p: Seq<char>) -> bool {
    exists|j: int|
        0 <= j < s.addresses@.len() && !(#[trigger] s.addresses@[j]).loopback && p == address_text(
            s.addresses@[j].ip@,
            s.port as nat,
        )
}

/// Whether `p` is the address of a peer among the services `ss`.
pub open spec fn is_peer_address(c: ConfigView, ss: Seq<Service>, p: Seq<char>) -> bool {
    exists|i: int| 0 <= i < ss.len() && is_peer(c, #[trigger] ss[i]) && is_address_of(ss[i], p)
}

/// Finds the peers of an account among the services that were announced: the addresses of its
/// other devices, sorted, each once.
pub fn discover_peers(cfg: &Config, services: &Vec<Service>) -> (r: Vec<String>)
    ensures
        order::ascending(text::views(r@)),
        forall|p: Seq<char>| #[trigger]
            text::views(r@).contains(p) <==> is_peer_address(cfg@, services@, p),
{
    let mut set: OrdMap<bool> = OrdMap::new();
    let mut i: usize = 0;
    while i < services.len()
        invariant
            set.wf(),
            i <= services@.len(),
            forall|p: Seq<char>| #[trigger]
                set@.dom().contains(p) <==> is_peer_address(cfg@, services@.take(i as int), p),
        decreases services@.len() - i,
    {
        let s = &services[i];
        let ghost head = services@.take(i as int);
        let ghost next = services@.take(i + 1);
        let ghost was = set@;
        proof {
            assert forall|p: Seq<char>|
                is_peer_address(cfg@, next, p) <==> is_peer_address(cfg@, head, p) || (is_peer(
                    cfg@,
                    *s,
                ) && is_address_of(*s, p)) by {
                if is_peer_address(cfg@, head, p) {
                    let j = choose|j: int|
                        0 <= j < head.len() && is_peer(cfg@, #[trigger] head[j]) && is_address_of(
                            head[j],
                            p,
                        );
                    assert(next[j] == head[j]);
                }
                if is_peer_address(cfg@, next, p) {
                    let j = choose|j: int|
                        0 <= j < next.len() && is_peer(cfg@, #[trigger] next[j]) && is_address_of(
                            next[j],
                            p,
                        );
                    if j < head.len() {
                        assert(head[j] == next[j]);
                    }
                }
                assert(next[i as int] == *s);
            }
        }
        if text::same(&s.account, &cfg.account_id) && !text::same(&s.device, &cfg.device) {
            insert_addresses(&mut set, s);
        }
        i = i + 1;
    }
    assert(services@.take(i as int) =~= services@);
    members(&set)
}

/// Adds the addresses of a service at which another device can reach it.
fn insert_addresses(set: &mut OrdMap<bool>, s: &Service)
    requires
        old(set).wf(),
    ensures
        final(set).wf(),
        forall|p: Seq<char>| #[trigger]
            final(set)@.dom().contains(p) <==> old(set)@.dom().contains(p) || is_address_of(*s, p),
{
    let ghost was = set@;
    let mut j: usize = 0;
    while j < s.addresses.len()
        invariant
            set.wf(),
            j <= s.addresses@.len(),
            forall|p: Seq<char>| #[trigger]
                set@.dom().contains(p) <==> was.dom().contains(p) || exists|k: int|
                    0 <= k < j && !(#[trigger] s.addresses@[k]).loopback && p == address_text(
                        s.addresses@[k].ip@,
                        s.port as nat,
                    ),
        decreases s.addresses@.len() - j,
    {
        let a = &s.addresses[j];
        if !a.loopback {
            let mut p = a.ip.clone();
            p.push(':');
            p.append(&decimal::decimal(s.port as u128));
            assert(p@ == address_text(a.ip@, s.port as nat));
            set.insert(p, true);
        }
        j = j + 1;
    }
}

/// A device finds every other device of its account at each address that is not only one of the
/// other machine itself.
pub proof fn law_devices_of_an_account_find_each_other(
    here: ConfigView,
    there: ConfigView,
    ss: Seq<Service>,
    i: int,
    j: int,
)
    requires
        0 <= i < ss.len(),
        ss[i].account@ == there.account_id,
        ss[i].device@ == there.device,
        0 <= j < ss[i].addresses@.len(),
        !ss[i].addresses@[j].loopback,
        there.account_id == here.account_id,
        there.device != here.device,
    ensures
        is_peer_address(here, ss, address_text(ss[i].addresses@[j].ip@, ss[i].port as nat)),
{
    let p = address_text(ss[i].addresses@[j].ip@, ss[i].port as nat);
    assert(is_address_of(ss[i], p));
    assert(is_peer(here, ss[i]));
}

/// The part of `s` behind the last colon, up to position `n`.
pub open spec fn after_colon(s: Seq<char>, n: int) -> Seq<char>
    decreases n,
{
    if n <= 0 || s[n - 1] == ':' {
        s.skip(n)
    } else {
        after_colon(s, n - 1)
    }
}

/// The port of the address `bind`.
pub open spec fn bind_port_of(bind: Seq<char>) -> nat {
    config::port_in(after_colon(bind, bind.len() as int))
}

/// The port of an address.
pub fn bind_port(bind: &str) -> (r: u16)
    ensures
        r == bind_port_of(bind@),
{
    let chars = text::chars_of(bind);
    let len = chars.len();
    let mut n: usize = len;
    while n > 0 && chars[n - 1] != ':'
        invariant
            n <= len == chars@.len(),
            chars@ == bind@,
            after_colon(bind@, n as int) == after_colon(bind@, len as int),
        decreases n,
    {
        n = n - 1;
    }
    assert(bind@.subrange(n as int, len as int) =~= bind@.skip(n as int));
    match decimal::parse_u16(&text::string_of(&chars, n, len)) {
        Some(p) => p,
        None => config::DEFAULT_PORT,
    }
}

/// What a daemon announces on the network.
pub struct Announcement {
    pub instance: String,
    pub host: String,
    pub port: u16,
    pub user: String,
    pub account: String,
    pub device: String,
}

/// The host name of the device `device`.
pub open spec fn host_of(device: Seq<char>) -> Seq<char> {
    text::with_char(text::with_char(device, '_', '-'), ' ', '-') + ".local."@
}

/// What the daemon of an account announces when it binds `bind`.
pub fn register_mdns(cfg: &Config, bind: &str) -> (r: Announcement)
    ensures
        r.instance@ == cfg@.user.push('-') + cfg@.device,
        r.host@ == host_of(cfg@.device),
        r.port == bind_port_of(bind@),
        r.user@ == cfg@.user,
        r.account@ == cfg@.account_id,
        r.device@ == cfg@.device,
{
    let mut instance = cfg.user.clone();
    instance.push('-');
    instance.append(&cfg.device);
    let mut host = text::replace_char(&text::replace_char(&cfg.device, '_', '-'), ' ', '-');
    host.append(".local.");
    Announcement {
        instance,
        host,
        port: bind_port(bind),
        user: cfg.user.clone(),
        account: cfg.account_id.clone(),
        device: cfg.device.clone(),
    }
}

} // verus!
