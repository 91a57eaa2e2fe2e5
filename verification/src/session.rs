//! Connecting all tunnels of a profile.

use crate::address::Ipv4Addr;
use crate::path_manager::{
    about, active_only, fresh_path, relaid, say_about, unlaid, ManagerView, PathManager,
    PathView, TunnelState,
};
use crate::profiles::{endpoint_views, EndpointSpec, Profile, ProfileView};
use crate::text::{decimal, push_decimal, texts};
use crate::utils::{destination_of, parse_destination};
use crate::wireguard::tunnel::TunnelStatus;
use vstd::prelude::*;

verus! {

/// How many tunnels of a profile are used.
pub const MAX_PATHS: usize = 2;

/// Which profile to connect: a given one, or one to be loaded by its name.
#[derive(Debug, Clone)]
pub enum ProfileChoice {
    Given(Profile),
    Load(String),
}

/// The profile to connect: a given one goes before a named one, and without either
/// it is the usual one.
pub fn choose_profile(profile: Option<Profile>, profile_id: Option<String>) -> (r: ProfileChoice)
    ensures
        match (profile, profile_id) {
            (Some(p), _) => r == ProfileChoice::Given(p),
            (None, Some(id)) => r matches ProfileChoice::Load(s) && s@ == id@,
            (None, None) => r matches ProfileChoice::Load(s) && s@ == "default"@,
        },
{
    match profile {
        Some(p) => ProfileChoice::Given(p),
        None => match profile_id {
            Some(id) => ProfileChoice::Load(id),
            None => ProfileChoice::Load("default".to_string()),
        },
    }
}

/// Whether a tunnel with a status, if there is one, forbids to connect.
pub open spec fn busy(status: Option<TunnelStatus>) -> bool {
    match status {
        Some(s) => s@.active(),
        None => false,
    }
}

/// Refuses to connect while a tunnel is active.
pub fn check_idle(status: &Option<TunnelStatus>) -> (r: Result<(), String>)
    ensures
        if busy(*status) {
            r matches Err(e) && e@ == "tunnel is already active"@
        } else {
            r is Ok
        },
{
    match status {
        Some(s) => {
            if s.is_active() {
                return Err("tunnel is already active".to_string());
            }
        },
        None => {},
    }
    Ok(())
}

/// The name of a path by its place.
pub open spec fn path_name(i: int) -> Seq<char> {
    if i < 26 {
        "path-"@ + seq![(97 + i) as char]
    } else {
        "path-"@ + decimal(i as nat)
    }
}

fn name_path(i: usize) -> (r: String)
    ensures
        r@ == path_name(i as int),
{
    let mut out = "path-".to_string();
    if i < 26 {
        let letter: u8 = 97 + i as u8;
        out.push(letter as char);
        assert(out@ =~= path_name(i as int));
    } else {
        push_decimal(&mut out, i as u64);
    }
    out
}

/// The names of the first paths.
pub open spec fn path_names(n: nat) -> Seq<Seq<char>> {
    Seq::new(n, |i: int| path_name(i))
}

/// How many paths a profile has.
pub open spec fn planned(p: ProfileView) -> nat {
    if p.config_paths().len() < MAX_PATHS {
        p.config_paths().len()
    } else {
        MAX_PATHS as nat
    }
}

/// The profile of a single tunnel of a profile.
pub open spec fn single(p: ProfileView, config: Seq<char>) -> ProfileView {
    ProfileView { wg_config_path: Some(config), wg_config_paths: seq![config], ..p }
}

fn copy_endpoints(list: &Vec<EndpointSpec>) -> (r: Vec<EndpointSpec>)
    ensures
        endpoint_views(r@) == endpoint_views(list@),
{
    let mut out: Vec<EndpointSpec> = Vec::new();
    let mut i: usize = 0;
    while i < list.len()
        invariant
            i <= list@.len(),
            out@.len() == i,
            forall|j: int| 0 <= j < i ==> (#[trigger] out@[j])@ == list@[j]@,
        decreases list@.len() - i,
    {
        out.push(
            EndpointSpec {
                id: list[i].id.clone(),
                addr: list[i].addr,
                label: list[i].label.clone(),
                weight: list[i].weight,
            },
        );
        i = i + 1;
    }
    assert(endpoint_views(out@) =~= endpoint_views(list@));
    out
}

fn single_profile(p: &Profile, config: &String) -> (r: Profile)
    ensures
        r@ == single(p@, config@),
{
    let mut paths: Vec<String> = Vec::new();
    paths.push(config.clone());
    assert(texts(paths@) =~= seq![config@]);
    Profile {
        id: p.id.clone(),
        display_name: p.display_name.clone(),
        endpoints: copy_endpoints(&p.endpoints),
        wg_config_path: Some(config.clone()),
        wg_config_paths: paths,
        managed_destination: p.managed_destination.clone(),
    }
}

/// The profiles of the tunnels of a profile, one for each path.
pub fn tunnel_profiles(profile: &Profile) -> (r: Vec<Profile>)
    ensures
        r@.len() == planned(profile@),
        forall|i: int|
            0 <= i < r@.len() ==> (#[trigger] r@[i])@ == single(
                profile@,
                profile@.config_paths()[i],
            ),
{
    let configs = profile.get_config_paths();
    let ghost all = texts(configs@);
    assert(all.len() == configs@.len());
    let mut out: Vec<Profile> = Vec::new();
    let mut i: usize = 0;
    while i < configs.len() && i < MAX_PATHS
        invariant
            i <= configs@.len(),
            i <= MAX_PATHS,
            all == texts(configs@),
            all == profile@.config_paths(),
            out@.len() == i,
            forall|j: int| 0 <= j < i ==> (#[trigger] out@[j])@ == single(profile@, all[j]),
        decreases configs@.len() - i,
    {
        assert(all[i as int] == configs@[i as int]@);
        out.push(single_profile(profile, &configs[i]));
        i = i + 1;
    }
    out
}

// ---------------------------------------------------------------------------
// Connecting
// ---------------------------------------------------------------------------

/// How far connecting has come.
#[derive(Debug, Clone, Copy, PartialEq, Eq, Structural)]
pub enum Stage {
    /// The tunnels are made.
    Opening,
    /// The tunnels are connected.
    Connecting,
    /// All is done, or was given up.
    Over,
}

/// The run that connects the tunnels of a profile.
#[derive(Debug)]
pub struct ConnectRun {
    path_ids: Vec<String>,
    profile_id: String,
    destination: Option<(Ipv4Addr, u8)>,
    opened: usize,
    connected: usize,
    stage: Stage,
}

/// What a `ConnectRun` holds.
#[verifier::ext_equal]
pub struct RunView {
    pub path_ids: Seq<Seq<char>>,
    pub profile_id: Seq<char>,
    pub destination: Option<(Ipv4Addr, u8)>,
    pub opened: int,
    pub connected: int,
    pub stage: Stage,
}

impl View for ConnectRun {
    type V = RunView;

    closed spec fn view(&self) -> RunView {
        RunView {
            path_ids: texts(self.path_ids@),
            profile_id: self.profile_id@,
            destination: self.destination,
            opened: self.opened as int,
            connected: self.connected as int,
            stage: self.stage,
        }
    }
}

/// What happened to a tunnel.
#[derive(Debug)]
pub enum SessionEvent {
    /// The tunnel that was asked for was made, or not.
    Opened(Result<(), String>),
    /// The tunnel that was asked for was connected, or not; the interface of its
    /// adapter, if that is known.
    Connected(Result<Option<u64>, String>),
}

/// What a `SessionEvent` holds.
pub enum SessionEventView {
    Opened(Result<(), Seq<char>>),
    Connected(Result<Option<u64>, Seq<char>>),
}

impl View for SessionEvent {
    type V = SessionEventView;

    open spec fn view(&self) -> SessionEventView {
        match *self {
            SessionEvent::Opened(Ok(())) => SessionEventView::Opened(Ok(())),
            SessionEvent::Opened(Err(e)) => SessionEventView::Opened(Err(e@)),
            SessionEvent::Connected(Ok(l)) => SessionEventView::Connected(Ok(l)),
            SessionEvent::Connected(Err(e)) => SessionEventView::Connected(Err(e@)),
        }
    }
}

/// What to do next.
#[derive(Debug, Clone)]
pub enum SessionAction {
    /// Make the tunnel at a place.
    Open(usize),
    /// Connect the tunnel at a place.
    Connect(usize),
    /// Give up: take that many tunnels down, from the first on, drop the others and
    /// report the error.
    Abort { teardown: usize, error: String },
    /// All tunnels are connected.
    Finish,
    /// Nothing: the event came out of turn.
    Nothing,
}

/// What a `SessionAction` holds.
pub enum SessionActionView {
    Open(int),
    Connect(int),
    Abort { teardown: int, error: Seq<char> },
    Finish,
    Nothing,
}

impl View for SessionAction {
    type V = SessionActionView;

    open spec fn view(&self) -> SessionActionView {
        match *self {
            SessionAction::Open(i) => SessionActionView::Open(i as int),
            SessionAction::Connect(i) => SessionActionView::Connect(i as int),
            SessionAction::Abort { teardown, error } => SessionActionView::Abort {
                teardown: teardown as int,
                error: error@,
            },
            SessionAction::Finish => SessionActionView::Finish,
            SessionAction::Nothing => SessionActionView::Nothing,
        }
    }
}

/// A manager without paths, and without their routes.
pub open spec fn emptied(v: ManagerView) -> ManagerView {
    ManagerView { paths: Map::empty(), registry: unlaid(v.registry, v.paths) }
}

/// A run that begins for a profile.
pub open spec fn run_for(p: ProfileView) -> RunView {
    RunView {
        path_ids: path_names(planned(p)),
        profile_id: p.id,
        destination: match p.managed_destination {
            Some(s) => destination_of(s),
            None => None,
        },
        opened: 0,
        connected: 0,
        stage: Stage::Opening,
    }
}

/// A path that was connected, with its destination where there is one.
pub open spec fn raised(p: PathView, luid: Option<u64>, destination: Option<(Ipv4Addr, u8)>) -> PathView {
    let up = PathView {
        interface_luid: match luid {
            Some(l) => l,
            None => 0,
        },
        interface_index: 0,
        tunnel_state: TunnelState::Up,
        generation: if p.generation == u64::MAX {
            0
        } else {
            (p.generation + 1) as u64
        },
        ..p
    };
    match destination {
        Some((d, n)) => PathView { destination: Some(d), prefix_length: n, ..up },
        None => up,
    }
}

/// A manager in which a path was made the active one, where it exists.
pub open spec fn with_active(v: ManagerView, id: Seq<char>) -> ManagerView {
    if v.paths.dom().contains(id) {
        let paths = active_only(v.paths, id);
        ManagerView { paths, registry: relaid(v.registry, paths) }
    } else {
        v
    }
}

/// The run and the paths after an event, and what to do next.
pub open spec fn advanced(run: RunView, v: ManagerView, e: SessionEventView) -> (
    RunView,
    ManagerView,
    SessionActionView,
) {
    let n = run.path_ids.len();
    let over = RunView { stage: Stage::Over, ..run };
    match e {
        SessionEventView::Opened(r) => if run.stage != Stage::Opening || run.opened >= n {
            (run, v, SessionActionView::Nothing)
        } else {
            let id = run.path_ids[run.opened];
            match r {
                Err(m) => (over, v, SessionActionView::Abort { teardown: 0, error: m }),
                Ok(()) => if v.paths.dom().contains(id) {
                    (
                        over,
                        emptied(v),
                        SessionActionView::Abort {
                            teardown: run.opened + 1,
                            error: about("connect: failed to register path"@, id, ": "@) + about(
                                "path"@,
                                id,
                                " already exists"@,
                            ),
                        },
                    )
                } else {
                    let w = ManagerView {
                        paths: v.paths.insert(id, fresh_path(id, run.profile_id)),
                        ..v
                    };
                    if run.opened + 1 < n {
                        (
                            RunView { opened: run.opened + 1, ..run },
                            w,
                            SessionActionView::Open(run.opened + 1),
                        )
                    } else {
                        (
                            RunView { opened: run.opened + 1, stage: Stage::Connecting, ..run },
                            w,
                            SessionActionView::Connect(run.connected),
                        )
                    }
                },
            }
        },
        SessionEventView::Connected(r) => if run.stage != Stage::Connecting || run.connected >= n {
            (run, v, SessionActionView::Nothing)
        } else {
            let id = run.path_ids[run.connected];
            match r {
                Err(m) => (
                    over,
                    emptied(v),
                    SessionActionView::Abort { teardown: run.connected + 1, error: m },
                ),
                Ok(luid) => if !v.paths.dom().contains(id) {
                    (
                        over,
                        emptied(v),
                        SessionActionView::Abort {
                            teardown: run.connected + 1,
                            error: about("connect: failed to connect path"@, id, ": "@)
                                + "path not found"@,
                        },
                    )
                } else {
                    let w = ManagerView {
                        paths: v.paths.insert(id, raised(v.paths[id], luid, run.destination)),
                        ..v
                    };
                    if run.connected + 1 < n {
                        (
                            RunView { connected: run.connected + 1, ..run },
                            w,
                            SessionActionView::Connect(run.connected + 1),
                        )
                    } else {
                        (
                            RunView { connected: run.connected + 1, ..over },
                            with_active(w, run.path_ids[0]),
                            SessionActionView::Finish,
                        )
                    }
                },
            }
        },
    }
}

impl ConnectRun {
    /// Begins to connect the tunnels of a profile; paths of an earlier run go. The
    /// first tunnel is to be made.
    pub fn begin(profile: &Profile, paths: &mut PathManager) -> (r: ConnectRun)
        requires
            profile@.config_paths().len() > 0,
        ensures
            r@ == run_for(profile@),
            final(paths)@ == emptied(old(paths)@),
    {
        let configs = profile.path_count();
        let n: usize = if configs < MAX_PATHS {
            configs
        } else {
            MAX_PATHS
        };
        let _ = paths.clear_paths();
        let mut path_ids: Vec<String> = Vec::new();
        let mut i: usize = 0;
        while i < n
            invariant
                i <= n,
                path_ids@.len() == i,
                forall|j: int| 0 <= j < i ==> (#[trigger] path_ids@[j])@ == path_name(j),
            decreases n - i,
        {
            path_ids.push(name_path(i));
            i = i + 1;
        }
        let destination = match &profile.managed_destination {
            Some(s) => parse_destination(s.as_str()),
            None => None,
        };
        let r = ConnectRun {
            path_ids,
            profile_id: profile.id.clone(),
            destination,
            opened: 0,
            connected: 0,
            stage: Stage::Opening,
        };
        assert(r@.path_ids =~= path_names(planned(profile@)));
        r
    }

    /// The name of the path of a tunnel.
    pub fn path_id(&self, i: usize) -> (r: Option<String>)
        ensures
            match r {
                Some(s) => i < self@.path_ids.len() && s@ == self@.path_ids[i as int],
                None => i >= self@.path_ids.len(),
            },
    {
        if i < self.path_ids.len() {
            Some(self.path_ids[i].clone())
        } else {
            None
        }
    }

    fn give_up(&mut self, paths: &mut PathManager, teardown: usize, error: String) -> (r: SessionAction)
        ensures
            final(self)@ == (RunView { stage: Stage::Over, ..old(self)@ }),
            final(paths)@ == emptied(old(paths)@),
            r@ == (SessionActionView::Abort { teardown: teardown as int, error: error@ }),
    {
        self.stage = Stage::Over;
        let _ = paths.clear_paths();
        SessionAction::Abort { teardown, error }
    }

    fn tunnel_opened(&mut self, paths: &mut PathManager, result: Result<(), String>) -> (r:
        SessionAction)
        ensures
            (final(self)@, final(paths)@, r@) == advanced(
                old(self)@,
                old(paths)@,
                SessionEvent::Opened(result)@,
            ),
    {
        let n = self.path_ids.len();
        if self.stage != Stage::Opening || self.opened >= n {
            return SessionAction::Nothing;
        }
        assert(self@.path_ids[self.opened as int] == self.path_ids@[self.opened as int]@);
        match result {
            Err(error) => {
                self.stage = Stage::Over;
                SessionAction::Abort { teardown: 0, error }
            },
            Ok(()) => {
                let i: usize = self.opened;
                match paths.add_path(self.path_ids[i].as_str(), self.profile_id.as_str()) {
                    Err(e) => {
                        let mut error = say_about(
                            "connect: failed to register path",
                            self.path_ids[i].as_str(),
                            ": ",
                        );
                        error.append(e.as_str());
                        self.give_up(paths, i + 1, error)
                    },
                    Ok(()) => {
                        self.opened = i + 1;
                        if i + 1 < n {
                            SessionAction::Open(i + 1)
                        } else {
                            self.stage = Stage::Connecting;
                            SessionAction::Connect(self.connected)
                        }
                    },
                }
            },
        }
    }

    fn tunnel_connected(&mut self, paths: &mut PathManager, result: Result<Option<u64>, String>) -> (r:
        SessionAction)
        ensures
            (final(self)@, final(paths)@, r@) == advanced(
                old(self)@,
                old(paths)@,
                SessionEvent::Connected(result)@,
            ),
    {
        let n = self.path_ids.len();
        if self.stage != Stage::Connecting || self.connected >= n {
            return SessionAction::Nothing;
        }
        let i: usize = self.connected;
        let ghost v = paths@;
        let ghost id = self@.path_ids[i as int];
        assert(id == self.path_ids@[i as int]@);
        assert(self@.path_ids[0] == self.path_ids@[0]@);
        match result {
            Err(error) => self.give_up(paths, i + 1, error),
            Ok(luid) => {
                let interface: u64 = match luid {
                    Some(l) => l,
                    None => 0,
                };
                match paths.connect_path(self.path_ids[i].as_str(), interface, 0) {
                    Err(e) => {
                        let mut error = say_about(
                            "connect: failed to connect path",
                            self.path_ids[i].as_str(),
                            ": ",
                        );
                        error.append(e.as_str());
                        self.give_up(paths, i + 1, error)
                    },
                    Ok(()) => {
                        match self.destination {
                            Some((d, prefix)) => {
                                let _ = paths.set_destination(self.path_ids[i].as_str(), d, prefix);
                            },
                            None => {},
                        }
                        assert(paths@.paths =~= v.paths.insert(
                            id,
                            raised(v.paths[id], luid, self.destination),
                        ));
                        self.connected = i + 1;
                        if i + 1 < n {
                            SessionAction::Connect(i + 1)
                        } else {
                            self.stage = Stage::Over;
                            let _ = paths.activate_path(self.path_ids[0].as_str());
                            SessionAction::Finish
                        }
                    },
                }
            },
        }
    }

    /// Takes in what happened to a tunnel, and says what to do next.
    pub fn next(&mut self, paths: &mut PathManager, event: SessionEvent) -> (r: SessionAction)
        ensures
            (final(self)@, final(paths)@, r@) == advanced(old(self)@, old(paths)@, event@),
    {
        match event {
            SessionEvent::Opened(result) => self.tunnel_opened(paths, result),
            SessionEvent::Connected(result) => self.tunnel_connected(paths, result),
        }
    }
}

// ---------------------------------------------------------------------------
// Laws
// ---------------------------------------------------------------------------

/// Whether a run and the paths fit together: the tunnels that were made have their
/// paths, and those that were connected are up.
pub open spec fn in_step(run: RunView, v: ManagerView) -> bool {
    let n = run.path_ids.len();
    &&& n > 0
    &&& forall|i: int, j: int|
        0 <= i < j < n ==> (#[trigger] run.path_ids[i]) != (#[trigger] run.path_ids[j])
    &&& 0 <= run.connected <= run.opened <= n
    &&& run.stage == Stage::Opening ==> run.opened < n && run.connected == 0
    &&& run.stage == Stage::Connecting ==> run.opened == n && run.connected < n
    &&& run.stage != Stage::Over ==> {
        &&& forall|id: Seq<char>| #[trigger]
            v.paths.dom().contains(id) ==> exists|i: int|
                0 <= i < run.opened && #[trigger] run.path_ids[i] == id
        &&& forall|i: int|
            0 <= i < run.opened ==> v.paths.dom().contains(#[trigger] run.path_ids[i])
        &&& forall|i: int|
            0 <= i < run.connected ==> is_raised(
                v.paths[#[trigger] run.path_ids[i]],
                run.destination,
            )
    }
}

/// Whether a path is up and has the destination of its run, if there is one.
pub open spec fn is_raised(p: PathView, destination: Option<(Ipv4Addr, u8)>) -> bool {
    &&& p.tunnel_state == TunnelState::Up
    &&& match destination {
        Some((d, n)) => p.destination == Some(d) && p.prefix_length == n,
        None => true,
    }
}

/// A run begins in step with the paths.
pub proof fn law_run_begins_in_step(p: ProfileView, v: ManagerView)
    requires
        p.config_paths().len() > 0,
    ensures
        in_step(run_for(p), emptied(v)),
{
    let ids = path_names(planned(p));
    assert forall|i: int, j: int| 0 <= i < j < ids.len() implies (#[trigger] ids[i]) != (
    #[trigger] ids[j]) by {
        assert(ids[i].last() == (97 + i) as char);
        assert(ids[j].last() == (97 + j) as char);
    }
}

/// A run stays in step with the paths whatever happens to its tunnels.
pub proof fn law_run_stays_in_step(run: RunView, v: ManagerView, e: SessionEventView)
    requires
        in_step(run, v),
    ensures
        in_step(advanced(run, v, e).0, advanced(run, v, e).1),
{
    let (after, w, action) = advanced(run, v, e);
    let n = run.path_ids.len();
    if after.stage != Stage::Over && action != SessionActionView::Nothing {
        if e is Opened {
            let id = run.path_ids[run.opened];
            assert forall|x: Seq<char>| #[trigger] w.paths.dom().contains(x) implies exists|i: int|
                0 <= i < after.opened && #[trigger] after.path_ids[i] == x by {
                if x == id {
                    assert(after.path_ids[run.opened] == x);
                } else {
                    assert(v.paths.dom().contains(x));
                    let i = choose|i: int| 0 <= i < run.opened && #[trigger] run.path_ids[i] == x;
                    assert(after.path_ids[i] == x);
                }
            }
        } else {
            let id = run.path_ids[run.connected];
            assert forall|i: int| 0 <= i < after.connected implies is_raised(
                w.paths[#[trigger] after.path_ids[i]],
                after.destination,
            ) by {
                if i < run.connected {
                    assert(run.path_ids[i] != id);
                }
            }
            assert forall|x: Seq<char>| #[trigger] w.paths.dom().contains(x) implies exists|i: int|
                0 <= i < after.opened && #[trigger] after.path_ids[i] == x by {
                assert(v.paths.dom().contains(x));
                let i = choose|i: int| 0 <= i < run.opened && #[trigger] run.path_ids[i] == x;
                assert(after.path_ids[i] == x);
            }
        }
    }
}

/// When all tunnels are connected, every path of the run is up with its
/// destination, and the first one alone is active.
pub proof fn law_finish_means_connected(run: RunView, v: ManagerView, e: SessionEventView, i: int)
    requires
        in_step(run, v),
        advanced(run, v, e).2 is Finish,
        0 <= i < run.path_ids.len(),
    ensures
        ({
            let w = advanced(run, v, e).1;
            let id = run.path_ids[i];
            &&& w.paths.dom().contains(id)
            &&& is_raised(w.paths[id], run.destination)
            &&& w.paths[id].active == (i == 0)
        }),
{
    let last = run.path_ids[run.connected];
    assert(v.paths.dom().contains(run.path_ids[0]));
    assert(v.paths.dom().contains(run.path_ids[i]));
    if i != run.connected {
        assert(run.path_ids[i] != last);
    }
    if i != 0 {
        assert(run.path_ids[0] != run.path_ids[i]);
    }
}

/// A run that is given up while its tunnels are connected leaves no path behind,
/// and takes down every tunnel that was tried.
pub proof fn law_abort_leaves_nothing(run: RunView, v: ManagerView, e: SessionEventView)
    requires
        run.stage == Stage::Connecting,
        advanced(run, v, e).2 is Abort,
    ensures
        advanced(run, v, e).1.paths == Map::<Seq<char>, PathView>::empty(),
        advanced(run, v, e).2 matches SessionActionView::Abort { teardown, .. } && teardown
            == run.connected + 1,
{
}

} // verus!
