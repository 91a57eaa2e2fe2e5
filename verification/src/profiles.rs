//! Connection profiles.

use crate::address::SocketAddr;
use crate::scalar::{Scalar, ONE_BITS};
use crate::text::{chars_of, copy_texts, opt_text, texts};
use vstd::prelude::*;

verus! {

/// A profile: where its tunnels lead and which configuration files they use.
#[derive(Debug, Clone)]
pub struct Profile {
    pub id: String,
    pub display_name: String,
    /// The endpoints to choose from; none for a profile with a single tunnel.
    pub endpoints: Vec<EndpointSpec>,
    /// The configuration file of a single tunnel.
    pub wg_config_path: Option<String>,
    /// The configuration files of several tunnels.
    pub wg_config_paths: Vec<String>,
    /// The range whose routes are managed.
    pub managed_destination: Option<String>,
}

/// An endpoint to choose from.
#[derive(Debug, Clone)]
pub struct EndpointSpec {
    pub id: String,
    pub addr: SocketAddr,
    pub label: String,
    /// How much the endpoint is favoured; 1 is neutral.
    pub weight: Scalar,
}

/// What an `EndpointSpec` holds.
#[verifier::ext_equal]
pub struct EndpointView {
    pub id: Seq<char>,
    pub addr: SocketAddr,
    pub label: Seq<char>,
    pub weight: Scalar,
}

impl View for EndpointSpec {
    type V = EndpointView;

    open spec fn view(&self) -> EndpointView {
        EndpointView { id: self.id@, addr: self.addr, label: self.label@, weight: self.weight }
    }
}

/// What a list of endpoints holds.
pub open spec fn endpoint_views(specs: Seq<EndpointSpec>) -> Seq<EndpointView> {
    Seq::new(specs.len(), |i: int| specs[i]@)
}

/// What a `Profile` holds.
#[verifier::ext_equal]
pub struct ProfileView {
    pub id: Seq<char>,
    pub display_name: Seq<char>,
    pub endpoints: Seq<EndpointView>,
    pub wg_config_path: Option<Seq<char>>,
    pub wg_config_paths: Seq<Seq<char>>,
    pub managed_destination: Option<Seq<char>>,
}

impl View for Profile {
    type V = ProfileView;

    open spec fn view(&self) -> ProfileView {
        ProfileView {
            id: self.id@,
            display_name: self.display_name@,
            endpoints: endpoint_views(self.endpoints@),
            wg_config_path: opt_text(self.wg_config_path),
            wg_config_paths: texts(self.wg_config_paths@),
            managed_destination: opt_text(self.managed_destination),
        }
    }
}

/// The weight of an endpoint that names none.
pub fn default_weight() -> (r: Scalar)
    ensures
        r == Scalar::one_value(),
{
    Scalar { bits: ONE_BITS }
}

/// Whether two dots stand side by side in a text.
pub open spec fn has_double_dot(s: Seq<char>) -> bool {
    exists|i: int| 0 <= i < s.len() - 1 && #[trigger] s[i] == '.' && s[i + 1] == '.'
}

/// Whether a profile id names a file and nothing else: it is not empty and does
/// not lead to another directory.
pub open spec fn profile_id_valid(id: Seq<char>) -> bool {
    id.len() > 0 && !id.contains('/') && !id.contains('\\') && !has_double_dot(id)
}

/// Whether a profile id names a file and nothing else.
pub fn is_profile_id(id: &str) -> (r: bool)
    ensures
        r == profile_id_valid(id@),
{
    let s = chars_of(id);
    let n: usize = s.len();
    if n == 0 {
        return false;
    }
    let mut i: usize = 0;
    while i < n
        invariant
            i <= n == s@.len(),
            s@ == id@,
            forall|j: int| 0 <= j < i ==> s@[j] != '/' && s@[j] != '\\',
            forall|j: int| 0 <= j < i && j < n - 1 ==> !(#[trigger] s@[j] == '.' && s@[j + 1] == '.'),
        decreases n - i,
    {
        if s[i] == '/' || s[i] == '\\' {
            assert(id@[i as int] == s@[i as int]);
            return false;
        }
        if i < n - 1 && s[i] == '.' && s[i + 1] == '.' {
            assert(id@[i as int] == '.');
            return false;
        }
        i = i + 1;
    }
    true
}

/// The names of the files, below the program's directory, that may hold a
/// profile, in the order in which they are tried.
pub open spec fn profile_files(id: Seq<char>) -> Seq<Seq<char>> {
    seq!["profiles/"@ + id + ".conf"@, "resources/profiles/"@ + id + ".conf"@]
}

/// The names of the files that may hold a profile.
pub fn profile_candidates(id: &str) -> (r: Result<Vec<String>, String>)
    ensures
        match r {
            Ok(files) => profile_id_valid(id@) && texts(files@) == profile_files(id@),
            Err(e) => !profile_id_valid(id@) && e@ == "invalid profile id"@,
        },
{
    if !is_profile_id(id) {
        return Err("invalid profile id".to_string());
    }
    let mut near = "profiles/".to_string();
    near.append(id);
    near.append(".conf");
    let mut far = "resources/profiles/".to_string();
    far.append(id);
    far.append(".conf");
    let mut out: Vec<String> = Vec::new();
    out.push(near);
    out.push(far);
    assert(texts(out@) =~= profile_files(id@));
    Ok(out)
}

/// The profile with an id whose configuration is in a file.
pub open spec fn file_profile(id: Seq<char>, file: Seq<char>) -> ProfileView {
    ProfileView {
        id,
        display_name: id,
        endpoints: seq![],
        wg_config_path: Some(file),
        wg_config_paths: seq![file],
        managed_destination: None,
    }
}

/// The profile with an id; `found` lists the files for it that exist, in the
/// order in which they are tried.
pub fn load_profile(id: &str, found: &Vec<String>) -> (r: Result<Profile, String>)
    ensures
        match r {
            Ok(p) => profile_id_valid(id@) && found@.len() > 0 && p@ == file_profile(
                id@,
                found@[0]@,
            ),
            Err(e) => if !profile_id_valid(id@) {
                e@ == "invalid profile id"@
            } else {
                found@.len() == 0 && e@ == "WireGuard profile '"@ + id@
                    + "' not found; expected profiles/"@ + id@ + ".conf"@
            },
        },
{
    if !is_profile_id(id) {
        return Err("invalid profile id".to_string());
    }
    if found.len() == 0 {
        let mut out = "WireGuard profile '".to_string();
        out.append(id);
        out.append("' not found; expected profiles/");
        out.append(id);
        out.append(".conf");
        return Err(out);
    }
    let mut paths: Vec<String> = Vec::new();
    paths.push(found[0].clone());
    let p = Profile {
        id: id.to_string(),
        display_name: id.to_string(),
        endpoints: Vec::new(),
        wg_config_path: Some(found[0].clone()),
        wg_config_paths: paths,
        managed_destination: None,
    };
    assert(p@ =~= file_profile(id@, found@[0]@)) by {
        assert(p@.wg_config_paths =~= seq![found@[0]@]);
        assert(p@.endpoints =~= Seq::<EndpointView>::empty());
    }
    Ok(p)
}

impl ProfileView {
    /// The configuration files to use: the list, or the single file where the
    /// list is empty.
    pub open spec fn config_paths(self) -> Seq<Seq<char>> {
        if self.wg_config_paths.len() > 0 {
            self.wg_config_paths
        } else {
            match self.wg_config_path {
                Some(p) => seq![p],
                None => seq![],
            }
        }
    }
}

/// What the settings of a trial with two tunnels come to.
pub open spec fn trial_profile(
    path_a: Option<Seq<char>>,
    path_b: Option<Seq<char>>,
    managed_destination: Option<Seq<char>>,
    a_is_file: bool,
    b_is_file: bool,
) -> Result<ProfileView, Seq<char>> {
    match (path_a, path_b) {
        (None, _) => Err("MARSTART_PATH_A_CONFIG env var not set"@),
        (_, None) => Err("MARSTART_PATH_B_CONFIG env var not set"@),
        (Some(a), Some(b)) => if !a_is_file {
            Err("MARSTART_PATH_A_CONFIG file not found: "@ + a)
        } else if !b_is_file {
            Err("MARSTART_PATH_B_CONFIG file not found: "@ + b)
        } else {
            Ok(
                ProfileView {
                    id: "live-test"@,
                    display_name: "Live Test Profile"@,
                    endpoints: seq![],
                    wg_config_path: Some(a),
                    wg_config_paths: seq![a, b],
                    managed_destination,
                },
            )
        },
    }
}

impl Profile {
    /// The configuration files to use.
    pub fn get_config_paths(&self) -> (r: Vec<String>)
        ensures
            texts(r@) == self@.config_paths(),
    {
        if self.wg_config_paths.len() > 0 {
            return copy_texts(&self.wg_config_paths);
        }
        let mut out: Vec<String> = Vec::new();
        match &self.wg_config_path {
            Some(p) => {
                out.push(p.clone());
                assert(texts(out@) =~= seq![p@]);
            },
            None => {
                assert(texts(out@) =~= Seq::<Seq<char>>::empty());
            },
        }
        out
    }

    /// How many tunnels the profile has.
    pub fn path_count(&self) -> (r: usize)
        ensures
            r == self@.config_paths().len(),
    {
        let paths = self.get_config_paths();
        assert(texts(paths@).len() == paths@.len());
        paths.len()
    }

    /// The profile of a trial with two tunnels, from the values of its settings
    /// and whether the files they name exist.
    pub fn from_test_env(
        path_a: Option<String>,
        path_b: Option<String>,
        managed_destination: Option<String>,
        a_is_file: bool,
        b_is_file: bool,
    ) -> (r: Result<Profile, String>)
        ensures
            ({
                let expected = trial_profile(
                    opt_text(path_a),
                    opt_text(path_b),
                    opt_text(managed_destination),
                    a_is_file,
                    b_is_file,
                );
                match r {
                    Ok(p) => expected == Ok::<ProfileView, Seq<char>>(p@),
                    Err(e) => expected == Err::<ProfileView, Seq<char>>(e@),
                }
            }),
    {
        match (path_a, path_b) {
            (None, _) => Err("MARSTART_PATH_A_CONFIG env var not set".to_string()),
            (_, None) => Err("MARSTART_PATH_B_CONFIG env var not set".to_string()),
            (Some(a), Some(b)) => {
                if !a_is_file {
                    let mut out = "MARSTART_PATH_A_CONFIG file not found: ".to_string();
                    out.append(a.as_str());
                    return Err(out);
                }
                if !b_is_file {
                    let mut out = "MARSTART_PATH_B_CONFIG file not found: ".to_string();
                    out.append(b.as_str());
                    return Err(out);
                }
                let ghost pair = seq![a@, b@];
                let mut paths: Vec<String> = Vec::new();
                paths.push(a.clone());
                paths.push(b);
                let p = Profile {
                    id: "live-test".to_string(),
                    display_name: "Live Test Profile".to_string(),
                    endpoints: Vec::new(),
                    wg_config_path: Some(a),
                    wg_config_paths: paths,
                    managed_destination,
                };
                assert(p@.wg_config_paths =~= pair);
                assert(p@.endpoints =~= Seq::<EndpointView>::empty());
                Ok(p)
            },
        }
    }
}

/// A profile id that is accepted stays within its directory: every part of a path
/// made of it alone is the id itself, and no id leads upwards.
pub proof fn law_profile_ids(id: Seq<char>)
    ensures
        profile_id_valid(id) ==> id.len() > 0 && forall|i: int|
            0 <= i < id.len() ==> #[trigger] id[i] != '/' && id[i] != '\\',
        profile_id_valid(id) ==> forall|i: int|
            0 <= i && i + 1 < id.len() ==> #[trigger] id[i] != '.' || id[i + 1] != '.',
        !profile_id_valid(id) ==> id.len() == 0 || exists|i: int|
            0 <= i < id.len() && (#[trigger] id[i] == '/' || id[i] == '\\' || (i + 1 < id.len()
                && id[i] == '.' && id[i + 1] == '.')),
{
    if profile_id_valid(id) {
        assert forall|i: int| 0 <= i < id.len() implies #[trigger] id[i] != '/' && id[i]
            != '\\' by {
            assert(id.contains(id[i]));
        }
    }
}

/// A profile is looked for beside the program first, and then among its resources,
/// in a file named after it.
pub proof fn law_profile_files(id: Seq<char>)
    ensures
        profile_files(id).len() == 2,
        profile_files(id)[0] == "profiles/"@ + id + ".conf"@,
        profile_files(id)[1] == "resources/"@ + profile_files(id)[0],
{
    reveal_strlit("profiles/");
    reveal_strlit("resources/");
    reveal_strlit("resources/profiles/");
    assert("resources/profiles/"@ =~= "resources/"@ + "profiles/"@);
    assert(profile_files(id)[1] =~= "resources/"@ + profile_files(id)[0]);
}

/// A trial runs exactly where both files are named and there. It uses them in that
/// order; what is missing is told of the first one first.
pub proof fn law_trial(
    a: Option<Seq<char>>,
    b: Option<Seq<char>>,
    dest: Option<Seq<char>>,
    a_is_file: bool,
    b_is_file: bool,
)
    ensures
        ({
            let r = trial_profile(a, b, dest, a_is_file, b_is_file);
            &&& r is Ok <==> a is Some && b is Some && a_is_file && b_is_file
            &&& r matches Ok(p) ==> {
                &&& p.config_paths().len() == 2
                &&& Some(p.config_paths()[0]) == a
                &&& Some(p.config_paths()[1]) == b
                &&& p.wg_config_path == a
                &&& p.managed_destination == dest
                &&& p.endpoints.len() == 0
                &&& p.id == "live-test"@
                &&& p.display_name == "Live Test Profile"@
            }
            &&& a is None ==> r == Err::<ProfileView, Seq<char>>(
                "MARSTART_PATH_A_CONFIG env var not set"@,
            )
            &&& a is Some && b is None ==> r == Err::<ProfileView, Seq<char>>(
                "MARSTART_PATH_B_CONFIG env var not set"@,
            )
            &&& a is Some && b is Some && !a_is_file ==> r == Err::<ProfileView, Seq<char>>(
                "MARSTART_PATH_A_CONFIG file not found: "@ + a->0,
            )
            &&& a is Some && b is Some && a_is_file && !b_is_file ==> r == Err::<
                ProfileView,
                Seq<char>,
            >("MARSTART_PATH_B_CONFIG file not found: "@ + b->0)
        }),
{
}

} // verus!
