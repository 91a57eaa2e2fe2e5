//! In which order the tunnels of a profile are connected.

use crate::path_manager::{is_path_key, ManagerView, PathHealth, PathView, TunnelState};
use crate::profiles::{file_profile, has_double_dot, profile_id_valid, ProfileView};
use crate::session::{
    advanced, busy, emptied, in_step, path_name, run_for, single, RunView, SessionActionView,
    SessionEventView, Stage,
};
use crate::text::decimal;
use crate::utils::destination_of;
use crate::wireguard::tunnel::TunnelStatus;
use crate::windows_route_manager::RouteKey;
use vstd::prelude::*;

verus! {

/// The configuration files of a profile: those of several tunnels or, where there
/// are none, the one of a single tunnel.
pub proof fn law_config_files(p: ProfileView)
    ensures
        p.config_paths() == if p.wg_config_paths.len() > 0 {
            p.wg_config_paths
        } else if p.wg_config_path is Some {
            seq![p.wg_config_path->0]
        } else {
            seq![]
        },
{
}

/// A run begins with a path for each configuration file, but no more than two. Paths
/// are named by letters, and by numbers once these are used up; the range to be
/// routed is that of the profile.
pub proof fn law_run_begins(p: ProfileView, i: int)
    requires
        p.config_paths().len() > 0,
    ensures
        ({
            let run = run_for(p);
            &&& run.path_ids.len() == if p.config_paths().len() == 1 {
                1int
            } else {
                2
            }
            &&& 0 <= i < run.path_ids.len() ==> run.path_ids[i] == "path-"@ + seq![
                (97 + i) as char,
            ]
            &&& run.profile_id == p.id
            &&& run.destination == match p.managed_destination {
                Some(s) => destination_of(s),
                None => None,
            }
            &&& run.opened == 0
            &&& run.connected == 0
            &&& run.stage == Stage::Opening
        }),
        i >= 26 ==> path_name(i) == "path-"@ + decimal(i as nat),
{
}

/// The profile of one tunnel of a profile is that profile with one configuration
/// file.
pub proof fn law_single_tunnel(p: ProfileView, config: Seq<char>)
    ensures
        single(p, config).config_paths() == seq![config],
        single(p, config).wg_config_path == Some(config),
        single(p, config).id == p.id,
        single(p, config).display_name == p.display_name,
        single(p, config).endpoints == p.endpoints,
        single(p, config).managed_destination == p.managed_destination,
{
}

/// Giving up the paths of a run takes all of them, and their routes, and no other
/// routes.
pub proof fn law_emptied(v: ManagerView, k: RouteKey)
    ensures
        emptied(v).paths.dom() == Set::<Seq<char>>::empty(),
        emptied(v).registry.dom().contains(k) <==> v.registry.dom().contains(k) && !(
        v.paths.dom().contains(k.path_id) && v.paths[k.path_id].destination == Some(k.destination)
            && v.paths[k.path_id].prefix_length == k.prefix_length),
        emptied(v).registry.dom().contains(k) ==> emptied(v).registry[k] == v.registry[k],
{
    assert(emptied(v).paths.dom() =~= Set::<Seq<char>>::empty());
}

/// While tunnels are made: the path of each that was made is added, down and not
/// active, and the next one is to be made; after the last the first is to be
/// connected. A tunnel that cannot be made ends the run with its error.
pub proof fn law_tunnels_are_made(run: RunView, v: ManagerView, error: Seq<char>)
    requires
        in_step(run, v),
        run.stage == Stage::Opening,
    ensures
        ({
            let id = run.path_ids[run.opened];
            let (next, w, action) = advanced(run, v, SessionEventView::Opened(Ok(())));
            &&& w.paths == v.paths.insert(
                id,
                PathView {
                    id,
                    profile_name: run.profile_id,
                    tunnel_state: TunnelState::Down,
                    interface_luid: 0,
                    interface_index: 0,
                    active: false,
                    health: PathHealth::Unhealthy,
                    destination: None,
                    prefix_length: 32,
                    generation: 0,
                },
            )
            &&& w.registry == v.registry
            &&& next.opened == run.opened + 1
            &&& if run.opened + 1 < run.path_ids.len() {
                next.stage == Stage::Opening && action == SessionActionView::Open(run.opened + 1)
            } else {
                next.stage == Stage::Connecting && action == SessionActionView::Connect(0)
            }
        }),
        ({
            let (next, w, action) = advanced(run, v, SessionEventView::Opened(Err(error)));
            next.stage == Stage::Over && w == v && action == (SessionActionView::Abort {
                teardown: 0,
                error,
            })
        }),
{
    let id = run.path_ids[run.opened];
    if v.paths.dom().contains(id) {
        let i = choose|i: int| 0 <= i < run.opened && #[trigger] run.path_ids[i] == id;
        assert(run.path_ids[i] != run.path_ids[run.opened]);
    }
}

/// While tunnels are connected: the path of each that was connected is up, with its
/// interface and the range of the run, and the next one is to be connected; after
/// the last the run is over, and done. A tunnel that cannot be connected ends the
/// run with its error, and all that were tried are taken down.
pub proof fn law_tunnels_are_connected(
    run: RunView,
    v: ManagerView,
    luid: Option<u64>,
    error: Seq<char>,
)
    requires
        in_step(run, v),
        run.stage == Stage::Connecting,
    ensures
        ({
            let id = run.path_ids[run.connected];
            let p = v.paths[id];
            let (next, w, action) = advanced(run, v, SessionEventView::Connected(Ok(luid)));
            let q = w.paths[id];
            &&& w.paths.dom() == v.paths.dom()
            &&& q.tunnel_state == TunnelState::Up
            &&& q.interface_luid == match luid {
                Some(l) => l,
                None => 0,
            }
            &&& q.interface_index == 0
            &&& q.health == p.health
            &&& q.profile_name == p.profile_name
            &&& p.generation < u64::MAX ==> q.generation == p.generation + 1
            &&& match run.destination {
                Some((d, n)) => q.destination == Some(d) && q.prefix_length == n,
                None => q.destination == p.destination && q.prefix_length == p.prefix_length,
            }
            &&& next.connected == run.connected + 1
            &&& if run.connected + 1 < run.path_ids.len() {
                &&& next.stage == Stage::Connecting
                &&& action == SessionActionView::Connect(run.connected + 1)
                &&& w.registry == v.registry
                &&& q.active == p.active
            } else {
                &&& next.stage == Stage::Over
                &&& action is Finish
            }
        }),
        ({
            let (next, w, action) = advanced(run, v, SessionEventView::Connected(Err(error)));
            &&& next.stage == Stage::Over
            &&& w == emptied(v)
            &&& action == (SessionActionView::Abort { teardown: run.connected + 1, error })
        }),
{
    let id = run.path_ids[run.connected];
    assert(v.paths.dom().contains(id));
    assert(v.paths.dom().contains(run.path_ids[0]));
    let w = advanced(run, v, SessionEventView::Connected(Ok(luid))).1;
    assert(w.paths.dom() =~= v.paths.dom());
}

/// When the run is done, the routes of the paths are laid: with metric 10 for the
/// first path and 20 for any other, each through the interface of its path.
pub proof fn law_routes_after_connecting(
    run: RunView,
    v: ManagerView,
    luid: Option<u64>,
    i: int,
)
    requires
        in_step(run, v),
        run.stage == Stage::Connecting,
        run.connected + 1 == run.path_ids.len(),
        0 <= i < run.path_ids.len(),
    ensures
        ({
            let w = advanced(run, v, SessionEventView::Connected(Ok(luid))).1;
            let id = run.path_ids[i];
            let p = w.paths[id];
            let k = RouteKey {
                destination: p.destination->0,
                prefix_length: p.prefix_length,
                path_id: id,
            };
            p.destination is Some ==> {
                &&& w.registry.dom().contains(k)
                &&& w.registry[k].interface_luid == p.interface_luid
                &&& w.registry[k].metric == if i == 0 {
                    10u32
                } else {
                    20
                }
            }
        }),
{
    let w = advanced(run, v, SessionEventView::Connected(Ok(luid))).1;
    let id = run.path_ids[i];
    let p = w.paths[id];
    assert(v.paths.dom().contains(id));
    assert(v.paths.dom().contains(run.path_ids[0]));
    assert(v.paths.dom().contains(run.path_ids[run.connected]));
    let k = RouteKey {
        destination: p.destination->0,
        prefix_length: p.prefix_length,
        path_id: id,
    };
    if i != 0 {
        assert(run.path_ids[0] != run.path_ids[i]);
    }
    if p.destination is Some {
        assert(is_path_key(w.paths, k));
    }
}

/// Only a tunnel that is connected or connecting forbids to connect.
pub proof fn law_busy(status: Option<TunnelStatus>)
    ensures
        busy(status) <==> (status matches Some(s) && (s is Connected || s is Connecting)),
{
}

/// A profile id names a file and nothing else: it has a character, no slash of
/// either kind and no two dots side by side. The profile of a file has that file
/// alone.
pub proof fn law_profile_of_file(id: Seq<char>, file: Seq<char>)
    ensures
        profile_id_valid(id) <==> {
            &&& id.len() > 0
            &&& forall|i: int| 0 <= i < id.len() ==> #[trigger] id[i] != '/' && id[i] != '\\'
            &&& forall|i: int| 0 < i < id.len() && #[trigger] id[i] == '.' ==> id[i - 1] != '.'
        },
        file_profile(id, file).config_paths() == seq![file],
        file_profile(id, file).id == id,
        file_profile(id, file).display_name == id,
        file_profile(id, file).endpoints.len() == 0,
        file_profile(id, file).managed_destination is None,
{
    let shape = {
        &&& id.len() > 0
        &&& forall|i: int| 0 <= i < id.len() ==> #[trigger] id[i] != '/' && id[i] != '\\'
        &&& forall|i: int| 0 < i < id.len() && #[trigger] id[i] == '.' ==> id[i - 1] != '.'
    };
    if profile_id_valid(id) {
        assert forall|i: int| 0 <= i < id.len() implies #[trigger] id[i] != '/' && id[i]
            != '\\' by {
            assert(id.contains(id[i]));
        }
        assert forall|i: int| 0 < i < id.len() && #[trigger] id[i] == '.' implies id[i - 1]
            != '.' by {
            if id[i - 1] == '.' {
                let j = i - 1;
                assert(id[j] == '.' && id[j + 1] == '.');
            }
        }
    }
    if shape {
        assert(!has_double_dot(id)) by {
            if has_double_dot(id) {
                let i = choose|i: int|
                    0 <= i < id.len() - 1 && #[trigger] id[i] == '.' && id[i + 1] == '.';
                assert(id[i + 1] == '.');
            }
        }
    }
}

} // verus!
