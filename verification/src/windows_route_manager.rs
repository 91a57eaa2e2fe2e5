//! The routes that this program has installed.
//!
//! The manager keeps a registry of its own routes and never touches others. The
//! plain operations work on the registry alone, which then stands for the
//! system's routing table. Those whose names end in `native` follow an operation
//! on the system's table and take the status code that it returned.

use crate::address::Ipv4Addr;
use crate::text::{decimal, opt_text, push_decimal, push_signed, same_text, signed_decimal, texts};
use vstd::prelude::*;

verus! {

/// The status of an operation without the privileges for it.
pub const ERROR_ACCESS_DENIED: u32 = 5;

/// The status of an operation on an entry that does not exist.
pub const ERROR_FILE_NOT_FOUND: u32 = 2;

/// The status of the creation of an entry that exists already.
pub const ERROR_OBJECT_ALREADY_EXISTS: u32 = 1117;

/// The tag of the routes that network management has installed.
pub const MIB_IPPROTO_NETMGMT: u32 = 3;

/// The metric of the preferred path.
pub const ACTIVE_METRIC: u32 = 10;

/// The metric of a path on standby.
pub const STANDBY_METRIC: u32 = 20;

/// A route of this program.
#[derive(Debug, Clone)]
pub struct ManagedRoute {
    pub path_id: String,
    pub destination: Ipv4Addr,
    pub prefix_length: u8,
    pub interface_luid: u64,
    pub interface_index: u32,
    pub next_hop: Ipv4Addr,
    pub metric: u32,
    pub generation: u64,
}

/// What a `ManagedRoute` holds.
#[verifier::ext_equal]
pub struct RouteEntry {
    pub path_id: Seq<char>,
    pub destination: Ipv4Addr,
    pub prefix_length: u8,
    pub interface_luid: u64,
    pub interface_index: u32,
    pub next_hop: Ipv4Addr,
    pub metric: u32,
    pub generation: u64,
}

impl View for ManagedRoute {
    type V = RouteEntry;

    open spec fn view(&self) -> RouteEntry {
        RouteEntry {
            path_id: self.path_id@,
            destination: self.destination,
            prefix_length: self.prefix_length,
            interface_luid: self.interface_luid,
            interface_index: self.interface_index,
            next_hop: self.next_hop,
            metric: self.metric,
            generation: self.generation,
        }
    }
}

impl ManagedRoute {
    fn copy(&self) -> (r: ManagedRoute)
        ensures
            r@ == self@,
    {
        ManagedRoute {
            path_id: self.path_id.clone(),
            destination: self.destination,
            prefix_length: self.prefix_length,
            interface_luid: self.interface_luid,
            interface_index: self.interface_index,
            next_hop: self.next_hop,
            metric: self.metric,
            generation: self.generation,
        }
    }
}

/// What a list of routes holds.
pub open spec fn entries(list: Seq<ManagedRoute>) -> Seq<RouteEntry> {
    Seq::new(list.len(), |i: int| list[i]@)
}

/// What tells one route of this program from another.
#[verifier::ext_equal]
pub struct RouteKey {
    pub destination: Ipv4Addr,
    pub prefix_length: u8,
    pub path_id: Seq<char>,
}

impl RouteEntry {
    /// What tells this route from others.
    pub open spec fn key(self) -> RouteKey {
        RouteKey {
            destination: self.destination,
            prefix_length: self.prefix_length,
            path_id: self.path_id,
        }
    }

    /// Whether this route leads to a range through an interface.
    pub open spec fn leads(self, destination: Ipv4Addr, prefix_length: u8, luid: u64) -> bool {
        self.destination == destination && self.prefix_length == prefix_length
            && self.interface_luid == luid
    }
}

/// A registry of routes.
pub type Registry = Map<RouteKey, RouteEntry>;

/// A registry with a route.
pub open spec fn installed(
    m: Registry,
    path_id: Seq<char>,
    destination: Ipv4Addr,
    prefix_length: u8,
    luid: u64,
    index: u32,
    metric: u32,
) -> Registry {
    let e = RouteEntry {
        path_id,
        destination,
        prefix_length,
        interface_luid: luid,
        interface_index: index,
        next_hop: Ipv4Addr { bits: 0 },
        metric,
        generation: 0,
    };
    m.insert(e.key(), e)
}

/// Whether a registry holds a route to a range through an interface.
pub open spec fn leads_somewhere(
    m: Registry,
    destination: Ipv4Addr,
    prefix_length: u8,
    luid: u64,
) -> bool {
    exists|k: RouteKey| #[trigger] m.dom().contains(k) && m[k].leads(destination, prefix_length, luid)
}

/// A registry without the routes to a range through an interface.
pub open spec fn without(
    m: Registry,
    destination: Ipv4Addr,
    prefix_length: u8,
    luid: u64,
) -> Registry {
    Map::new(
        |k: RouteKey| m.dom().contains(k) && !m[k].leads(destination, prefix_length, luid),
        |k: RouteKey| m[k],
    )
}

/// A registry with another metric for a route.
pub open spec fn remetered(m: Registry, k: RouteKey, metric: u32) -> Registry {
    m.insert(
        k,
        RouteEntry {
            metric,
            generation: if m[k].generation == u64::MAX {
                0
            } else {
                (m[k].generation + 1) as u64
            },
            ..m[k]
        },
    )
}

/// Whether a list holds every route of a registry once.
pub open spec fn lists_registry(list: Seq<RouteEntry>, m: Registry) -> bool {
    &&& forall|i: int|
        0 <= i < list.len() ==> m.dom().contains((#[trigger] list[i]).key()) && m[list[i].key()]
            == list[i]
    &&& forall|i: int, j: int|
        0 <= i < j < list.len() ==> (#[trigger] list[i]).key() != (#[trigger] list[j]).key()
    &&& forall|k: RouteKey| #[trigger]
        m.dom().contains(k) ==> exists|i: int| 0 <= i < list.len() && #[trigger] list[i] == m[k]
}

// ---------------------------------------------------------------------------
// Errors and results
// ---------------------------------------------------------------------------

/// Why an operation on a route failed.
#[derive(Debug, Clone)]
pub struct RouteError {
    pub error_code: i32,
    pub operation: String,
    pub destination: String,
    pub path_id: String,
    pub interface_luid: Option<u64>,
    pub stage: String,
    pub message: String,
}

/// What a `RouteError` holds.
#[verifier::ext_equal]
pub struct ErrorView {
    pub error_code: i32,
    pub operation: Seq<char>,
    pub destination: Seq<char>,
    pub path_id: Seq<char>,
    pub interface_luid: Option<u64>,
    pub stage: Seq<char>,
    pub message: Seq<char>,
}

impl View for RouteError {
    type V = ErrorView;

    open spec fn view(&self) -> ErrorView {
        ErrorView {
            error_code: self.error_code,
            operation: self.operation@,
            destination: self.destination@,
            path_id: self.path_id@,
            interface_luid: self.interface_luid,
            stage: self.stage@,
            message: self.message@,
        }
    }
}

impl ErrorView {
    /// The error in words.
    pub open spec fn words(self) -> Seq<char> {
        self.operation + " failed: "@ + self.message + " (code="@ + signed_decimal(
            self.error_code as int,
        ) + ", path="@ + self.path_id + ", dest="@ + self.destination + ", stage="@ + self.stage
            + ")"@
    }
}

impl RouteError {
    /// The error in words.
    pub fn text(&self) -> (r: String)
        ensures
            r@ == self@.words(),
    {
        let mut out = self.operation.clone();
        out.append(" failed: ");
        out.append(self.message.as_str());
        out.append(" (code=");
        push_signed(&mut out, self.error_code);
        out.append(", path=");
        out.append(self.path_id.as_str());
        out.append(", dest=");
        out.append(self.destination.as_str());
        out.append(", stage=");
        out.append(self.stage.as_str());
        out.append(")");
        out
    }
}

/// What an operation on a route came to.
pub open spec fn outcome(r: Result<(), RouteError>) -> Result<(), ErrorView> {
    match r {
        Ok(()) => Ok(()),
        Err(e) => Err(e@),
    }
}

/// What a switch from one path to another came to.
#[derive(Debug, Clone)]
pub struct SwitchResult {
    pub from_path: Option<String>,
    pub to_path: Option<String>,
    pub datapath_applied: bool,
    pub routes_added: Vec<String>,
    pub routes_removed: Vec<String>,
    pub error: Option<String>,
}

/// What a `SwitchResult` holds.
#[verifier::ext_equal]
pub struct SwitchView {
    pub from_path: Option<Seq<char>>,
    pub to_path: Option<Seq<char>>,
    pub datapath_applied: bool,
    pub routes_added: Seq<Seq<char>>,
    pub routes_removed: Seq<Seq<char>>,
    pub error: Option<Seq<char>>,
}

impl View for SwitchResult {
    type V = SwitchView;

    open spec fn view(&self) -> SwitchView {
        SwitchView {
            from_path: opt_text(self.from_path),
            to_path: opt_text(self.to_path),
            datapath_applied: self.datapath_applied,
            routes_added: texts(self.routes_added@),
            routes_removed: texts(self.routes_removed@),
            error: opt_text(self.error),
        }
    }
}

impl Default for SwitchResult {
    fn default() -> (r: SwitchResult)
        ensures
            r@ == (SwitchView {
                from_path: None,
                to_path: None,
                datapath_applied: false,
                routes_added: seq![],
                routes_removed: seq![],
                error: None,
            }),
    {
        let r = SwitchResult {
            from_path: None,
            to_path: None,
            datapath_applied: false,
            routes_added: Vec::new(),
            routes_removed: Vec::new(),
            error: None,
        };
        assert(r@.routes_added =~= Seq::<Seq<char>>::empty());
        assert(r@.routes_removed =~= Seq::<Seq<char>>::empty());
        r
    }
}

/// A range in words: `address/length`.
pub open spec fn range_words(destination: Ipv4Addr, prefix_length: u8) -> Seq<char> {
    destination.dotted() + "/"@ + decimal(prefix_length as nat)
}

/// A range in words: `address/length`.
pub fn range_text(destination: Ipv4Addr, prefix_length: u8) -> (r: String)
    ensures
        r@ == range_words(destination, prefix_length),
{
    let mut out = String::new();
    destination.push_dotted(&mut out);
    out.append("/");
    push_decimal(&mut out, prefix_length as u64);
    assert(out@ =~= range_words(destination, prefix_length));
    out
}

/// A status code with a sign.
pub open spec fn signed_code(code: u32) -> i32 {
    if code >= 0x8000_0000 {
        (code - 0x1_0000_0000) as i32
    } else {
        code as i32
    }
}

fn sign_code(code: u32) -> (r: i32)
    ensures
        r == signed_code(code),
{
    if code >= 0x8000_0000 {
        (code as i64 - 0x1_0000_0000) as i32
    } else {
        code as i32
    }
}

/// The error of an operation that the system refused.
pub open spec fn refused(
    code: u32,
    operation: Seq<char>,
    destination: Ipv4Addr,
    prefix_length: u8,
    path_id: Seq<char>,
    luid: u64,
    stage: Seq<char>,
) -> ErrorView {
    ErrorView {
        error_code: signed_code(code),
        operation,
        destination: range_words(destination, prefix_length),
        path_id,
        interface_luid: Some(luid),
        stage,
        message: "Win32 error "@ + decimal(code as nat),
    }
}

fn refusal(
    code: u32,
    operation: &str,
    destination: Ipv4Addr,
    prefix_length: u8,
    path_id: &str,
    luid: u64,
    stage: &str,
) -> (r: RouteError)
    ensures
        r@ == refused(code, operation@, destination, prefix_length, path_id@, luid, stage@),
{
    let mut message = "Win32 error ".to_string();
    push_decimal(&mut message, code as u64);
    RouteError {
        error_code: sign_code(code),
        operation: operation.to_string(),
        destination: range_text(destination, prefix_length),
        path_id: path_id.to_string(),
        interface_luid: Some(luid),
        stage: stage.to_string(),
        message,
    }
}

/// The error of an operation on a route that is not in the registry.
pub open spec fn unregistered(
    operation: Seq<char>,
    destination: Ipv4Addr,
    prefix_length: u8,
    path_id: Seq<char>,
    luid: Option<u64>,
    stage: Seq<char>,
    message: Seq<char>,
) -> ErrorView {
    ErrorView {
        error_code: 0,
        operation,
        destination: range_words(destination, prefix_length),
        path_id,
        interface_luid: luid,
        stage,
        message,
    }
}

fn missing(
    operation: &str,
    destination: Ipv4Addr,
    prefix_length: u8,
    path_id: &str,
    luid: Option<u64>,
    stage: &str,
    message: &str,
) -> (r: RouteError)
    ensures
        r@ == unregistered(
            operation@,
            destination,
            prefix_length,
            path_id@,
            luid,
            stage@,
            message@,
        ),
{
    RouteError {
        error_code: 0,
        operation: operation.to_string(),
        destination: range_text(destination, prefix_length),
        path_id: path_id.to_string(),
        interface_luid: luid,
        stage: stage.to_string(),
        message: message.to_string(),
    }
}

// ---------------------------------------------------------------------------
// Rows of the system's table
// ---------------------------------------------------------------------------

/// A row of the system's routing table.
#[derive(Debug, Clone, Copy, PartialEq, Eq, Structural)]
pub struct ForwardRow {
    pub destination: Ipv4Addr,
    pub prefix_length: u8,
    pub interface_luid: u64,
    pub interface_index: u32,
    pub next_hop: Ipv4Addr,
    pub metric: u32,
    pub protocol: u32,
}

/// The row for a route that leads straight into an interface.
pub fn build_row(destination: Ipv4Addr, prefix_length: u8, interface_luid: u64, metric: u32) -> (r:
    ForwardRow)
    ensures
        r == (ForwardRow {
            destination,
            prefix_length,
            interface_luid,
            interface_index: 0,
            next_hop: Ipv4Addr { bits: 0 },
            metric,
            protocol: MIB_IPPROTO_NETMGMT,
        }),
{
    ForwardRow {
        destination,
        prefix_length,
        interface_luid,
        interface_index: 0,
        next_hop: Ipv4Addr { bits: 0 },
        metric,
        protocol: MIB_IPPROTO_NETMGMT,
    }
}

/// The routes that rows of the system's table stand for: those with the tag of
/// network management.
pub open spec fn recovered(rows: Seq<ForwardRow>) -> Seq<RouteEntry>
    decreases rows.len(),
{
    if rows.len() == 0 {
        seq![]
    } else {
        let row = rows.last();
        if row.protocol == MIB_IPPROTO_NETMGMT {
            recovered(rows.drop_last()).push(
                RouteEntry {
                    path_id: "recovered"@,
                    destination: row.destination,
                    prefix_length: row.prefix_length,
                    interface_luid: row.interface_luid,
                    interface_index: row.interface_index,
                    next_hop: Ipv4Addr { bits: 0 },
                    metric: row.metric,
                    generation: 0,
                },
            )
        } else {
            recovered(rows.drop_last())
        }
    }
}

/// The routes that rows of the system's table stand for.
pub fn recover_routes(rows: &Vec<ForwardRow>) -> (r: Vec<ManagedRoute>)
    ensures
        entries(r@) == recovered(rows@),
{
    let mut out: Vec<ManagedRoute> = Vec::new();
    let mut i: usize = 0;
    assert(rows@.take(0) =~= Seq::<ForwardRow>::empty());
    assert(entries(out@) =~= recovered(rows@.take(0)));
    while i < rows.len()
        invariant
            i <= rows@.len(),
            entries(out@) == recovered(rows@.take(i as int)),
        decreases rows@.len() - i,
    {
        let row = rows[i];
        assert(rows@.take(i as int + 1).drop_last() =~= rows@.take(i as int));
        assert(rows@.take(i as int + 1).last() == row);
        if row.protocol == MIB_IPPROTO_NETMGMT {
            let route = ManagedRoute {
                path_id: "recovered".to_string(),
                destination: row.destination,
                prefix_length: row.prefix_length,
                interface_luid: row.interface_luid,
                interface_index: row.interface_index,
                next_hop: Ipv4Addr { bits: 0 },
                metric: row.metric,
                generation: 0,
            };
            let ghost before = out@;
            out.push(route);
            assert(entries(out@) =~= entries(before).push(route@));
        }
        i = i + 1;
    }
    assert(rows@.take(i as int) =~= rows@);
    out
}

// ---------------------------------------------------------------------------
// The manager
// ---------------------------------------------------------------------------

/// Keeps the registry of this program's routes.
#[derive(Debug)]
pub struct WindowsRouteManager {
    routes: Vec<ManagedRoute>,
}

/// The keys of a list of routes.
spec fn keys(list: Seq<ManagedRoute>) -> Seq<RouteKey> {
    Seq::new(list.len(), |i: int| list[i]@.key())
}

/// The registry that a list of routes stands for.
spec fn registry(list: Seq<ManagedRoute>) -> Registry {
    Map::new(
        |k: RouteKey| keys(list).contains(k),
        |k: RouteKey| list[keys(list).index_of(k)]@,
    )
}

impl View for WindowsRouteManager {
    type V = Registry;

    closed spec fn view(&self) -> Registry {
        registry(self.routes@)
    }
}

/// Whether no key occurs twice.
spec fn distinct(list: Seq<ManagedRoute>) -> bool {
    forall|i: int, j: int|
        0 <= i < j < list.len() ==> (#[trigger] list[i])@.key() != (#[trigger] list[j])@.key()
}

proof fn lemma_at(list: Seq<ManagedRoute>, i: int)
    requires
        distinct(list),
        0 <= i < list.len(),
    ensures
        registry(list).dom().contains(list[i]@.key()),
        registry(list)[list[i]@.key()] == list[i]@,
{
    let k = list[i]@.key();
    assert(keys(list)[i] == k);
    assert(keys(list).contains(k));
    let j = keys(list).index_of(k);
    assert(keys(list)[j] == k);
    if j < i {
        assert(list[j]@.key() != list[i]@.key());
    }
    if i < j {
        assert(list[i]@.key() != list[j]@.key());
    }
}

proof fn lemma_listed(list: Seq<ManagedRoute>)
    requires
        distinct(list),
    ensures
        lists_registry(entries(list), registry(list)),
{
    let e = entries(list);
    let m = registry(list);
    assert forall|i: int| 0 <= i < e.len() implies m.dom().contains((#[trigger] e[i]).key())
        && m[e[i].key()] == e[i] by {
        lemma_at(list, i);
    }
    assert forall|i: int, j: int| 0 <= i < j < e.len() implies (#[trigger] e[i]).key() != (
    #[trigger] e[j]).key() by {
        assert(list[i]@.key() != list[j]@.key());
    }
    assert forall|k: RouteKey| #[trigger] m.dom().contains(k) implies exists|i: int|
        0 <= i < e.len() && #[trigger] e[i] == m[k] by {
        let i = keys(list).index_of(k);
        assert(keys(list)[i] == k);
        assert(e[i] == m[k]);
    }
}

proof fn lemma_pushed(list: Seq<ManagedRoute>, r: ManagedRoute)
    requires
        distinct(list),
        !registry(list).dom().contains(r@.key()),
    ensures
        distinct(list.push(r)),
        registry(list.push(r)) == registry(list).insert(r@.key(), r@),
{
    let out = list.push(r);
    assert forall|i: int, j: int| 0 <= i < j < out.len() implies (#[trigger] out[i])@.key() != (
    #[trigger] out[j])@.key() by {
        if j == list.len() {
            lemma_at(list, i);
        }
    }
    let target = registry(list).insert(r@.key(), r@);
    assert forall|k: RouteKey| registry(out).dom().contains(k) <==> target.dom().contains(k) by {
        if keys(list).contains(k) {
            let i = keys(list).index_of(k);
            assert(keys(out)[i] == k);
        }
        if keys(out).contains(k) {
            let i = keys(out).index_of(k);
            if i < list.len() {
                assert(keys(list)[i] == k);
            }
        }
        assert(keys(out)[list.len() as int] == r@.key());
    }
    assert forall|k: RouteKey| registry(out).dom().contains(k) implies #[trigger] registry(out)[k]
        == target[k] by {
        let i = keys(out).index_of(k);
        assert(keys(out)[i] == k);
        lemma_at(out, i);
        if i < list.len() {
            lemma_at(list, i);
        }
    }
    assert(registry(out) =~= target);
}

proof fn lemma_replaced(list: Seq<ManagedRoute>, i: int, r: ManagedRoute)
    requires
        distinct(list),
        0 <= i < list.len(),
        r@.key() == list[i]@.key(),
    ensures
        distinct(list.update(i, r)),
        registry(list.update(i, r)) == registry(list).insert(r@.key(), r@),
{
    let out = list.update(i, r);
    assert(keys(out) =~= keys(list));
    assert forall|a: int, b: int| 0 <= a < b < out.len() implies (#[trigger] out[a])@.key() != (
    #[trigger] out[b])@.key() by {
        assert(list[a]@.key() != list[b]@.key());
    }
    let target = registry(list).insert(r@.key(), r@);
    lemma_at(list, i);
    assert forall|k: RouteKey| registry(out).dom().contains(k) implies #[trigger] registry(out)[k]
        == target[k] by {
        let j = keys(out).index_of(k);
        assert(keys(out)[j] == k);
        lemma_at(out, j);
        lemma_at(list, j);
    }
    assert(registry(out) =~= target);
}

proof fn lemma_removed(list: Seq<ManagedRoute>, i: int)
    requires
        distinct(list),
        0 <= i < list.len(),
    ensures
        distinct(list.remove(i)),
        registry(list.remove(i)) == registry(list).remove(list[i]@.key()),
{
    let out = list.remove(i);
    let gone = list[i]@.key();
    assert forall|a: int, b: int| 0 <= a < b < out.len() implies (#[trigger] out[a])@.key() != (
    #[trigger] out[b])@.key() by {
        let a0 = if a < i {
            a
        } else {
            a + 1
        };
        let b0 = if b < i {
            b
        } else {
            b + 1
        };
        assert(out[a] == list[a0] && out[b] == list[b0]);
    }
    let target = registry(list).remove(gone);
    assert forall|k: RouteKey| registry(out).dom().contains(k) <==> target.dom().contains(k) by {
        if keys(out).contains(k) {
            let a = keys(out).index_of(k);
            let a0 = if a < i {
                a
            } else {
                a + 1
            };
            assert(out[a] == list[a0]);
            assert(keys(list)[a0] == k);
            if a0 < i {
                assert(list[a0]@.key() != list[i]@.key());
            } else {
                assert(list[i]@.key() != list[a0]@.key());
            }
        }
        if keys(list).contains(k) && k != gone {
            let a0 = keys(list).index_of(k);
            assert(keys(list)[a0] == k);
            let a = if a0 < i {
                a0
            } else {
                a0 - 1
            };
            assert(out[a] == list[a0]);
            assert(keys(out)[a] == k);
        }
    }
    assert forall|k: RouteKey| registry(out).dom().contains(k) implies #[trigger] registry(out)[k]
        == target[k] by {
        let a = keys(out).index_of(k);
        assert(keys(out)[a] == k);
        let a0 = if a < i {
            a
        } else {
            a + 1
        };
        assert(out[a] == list[a0]);
        lemma_at(out, a);
        lemma_at(list, a0);
    }
    assert(registry(out) =~= target);
}

impl WindowsRouteManager {
    #[verifier::type_invariant]
    spec fn sound(&self) -> bool {
        distinct(self.routes@)
    }

    /// A manager without routes.
    pub fn new() -> (r: WindowsRouteManager)
        ensures
            r@ == Map::<RouteKey, RouteEntry>::empty(),
    {
        let r = WindowsRouteManager { routes: Vec::new() };
        assert(r@ =~= Map::<RouteKey, RouteEntry>::empty());
        r
    }

    fn find(&self, path_id: &str, destination: Ipv4Addr, prefix_length: u8) -> (r: Option<usize>)
        ensures
            ({
                let k = RouteKey { destination, prefix_length, path_id: path_id@ };
                match r {
                    Some(i) => i < self.routes@.len() && self.routes@[i as int]@.key() == k
                        && self@.dom().contains(k) && self@[k] == self.routes@[i as int]@,
                    None => !self@.dom().contains(k),
                }
            }),
    {
        proof {
            use_type_invariant(&*self);
        }
        let ghost k = RouteKey { destination, prefix_length, path_id: path_id@ };
        let mut i: usize = 0;
        while i < self.routes.len()
            invariant
                i <= self.routes@.len(),
                distinct(self.routes@),
                k == (RouteKey { destination, prefix_length, path_id: path_id@ }),
                forall|j: int| 0 <= j < i ==> (#[trigger] self.routes@[j])@.key() != k,
            decreases self.routes@.len() - i,
        {
            let r = &self.routes[i];
            if r.destination == destination && r.prefix_length == prefix_length && same_text(
                r.path_id.as_str(),
                path_id,
            ) {
                proof {
                    assert(self.routes@[i as int]@.key() =~= k);
                    lemma_at(self.routes@, i as int);
                }
                return Some(i);
            }
            i = i + 1;
        }
        proof {
            if keys(self.routes@).contains(k) {
                let j = keys(self.routes@).index_of(k);
                assert(self.routes@[j]@.key() == k);
            }
        }
        None
    }

    fn put(&mut self, route: ManagedRoute)
        ensures
            final(self)@ == old(self)@.insert(route@.key(), route@),
    {
        let found = self.find(route.path_id.as_str(), route.destination, route.prefix_length);
        proof {
            use_type_invariant(&*self);
            assert(route@.key() =~= RouteKey {
                destination: route.destination,
                prefix_length: route.prefix_length,
                path_id: route.path_id@,
            });
        }
        let ghost before = self.routes@;
        let mut routes: Vec<ManagedRoute> = Vec::new();
        std::mem::swap(&mut routes, &mut self.routes);
        match found {
            Some(i) => {
                proof {
                    lemma_replaced(before, i as int, route);
                }
                routes[i] = route;
                assert(routes@ =~= before.update(i as int, route));
            },
            None => {
                proof {
                    lemma_pushed(before, route);
                }
                routes.push(route);
            },
        }
        self.routes = routes;
    }

    fn drop_at(&mut self, i: usize)
        requires
            i < old(self).routes@.len(),
        ensures
            final(self)@ == old(self)@.remove(old(self).routes@[i as int]@.key()),
            final(self).routes@ == old(self).routes@.remove(i as int),
    {
        proof {
            use_type_invariant(&*self);
        }
        let ghost before = self.routes@;
        let mut routes: Vec<ManagedRoute> = Vec::new();
        std::mem::swap(&mut routes, &mut self.routes);
        let _ = routes.remove(i);
        proof {
            lemma_removed(before, i as int);
        }
        self.routes = routes;
    }

    /// Whether a route is in the registry.
    pub fn owns(&self, path_id: &str, destination: Ipv4Addr, prefix_length: u8) -> (r: bool)
        ensures
            r == self@.dom().contains(
                (RouteKey { destination, prefix_length, path_id: path_id@ }),
            ),
    {
        match self.find(path_id, destination, prefix_length) {
            Some(_) => true,
            None => false,
        }
    }

    /// Installs a route. Without a system table the interface has no index.
    pub fn install_route(
        &mut self,
        path_id: &str,
        destination: Ipv4Addr,
        prefix_length: u8,
        interface_luid: u64,
        _interface_index: u32,
        metric: u32,
    ) -> (r: Result<(), RouteError>)
        ensures
            r is Ok,
            final(self)@ == installed(
                old(self)@,
                path_id@,
                destination,
                prefix_length,
                interface_luid,
                0,
                metric,
            ),
    {
        self.put(
            ManagedRoute {
                path_id: path_id.to_string(),
                destination,
                prefix_length,
                interface_luid,
                interface_index: 0,
                next_hop: Ipv4Addr { bits: 0 },
                metric,
                generation: 0,
            },
        );
        Ok(())
    }

    /// Takes in a route after the system was asked to create it. A route that
    /// exists already counts as created; one that could not be created for lack
    /// of privileges is still kept in mind.
    pub fn install_route_native(
        &mut self,
        path_id: &str,
        destination: Ipv4Addr,
        prefix_length: u8,
        interface_luid: u64,
        interface_index: u32,
        metric: u32,
        code: u32,
    ) -> (r: Result<(), RouteError>)
        ensures
            if code == 0 || code == ERROR_OBJECT_ALREADY_EXISTS || code == ERROR_ACCESS_DENIED {
                r is Ok && final(self)@ == installed(
                    old(self)@,
                    path_id@,
                    destination,
                    prefix_length,
                    interface_luid,
                    interface_index,
                    metric,
                )
            } else {
                final(self)@ == old(self)@ && outcome(r) == Err::<(), ErrorView>(
                    refused(
                        code,
                        "CreateIpForwardEntry2"@,
                        destination,
                        prefix_length,
                        path_id@,
                        interface_luid,
                        "install"@,
                    ),
                )
            },
    {
        if code != 0 && code != ERROR_OBJECT_ALREADY_EXISTS && code != ERROR_ACCESS_DENIED {
            return Err(
                refusal(
                    code,
                    "CreateIpForwardEntry2",
                    destination,
                    prefix_length,
                    path_id,
                    interface_luid,
                    "install",
                ),
            );
        }
        self.put(
            ManagedRoute {
                path_id: path_id.to_string(),
                destination,
                prefix_length,
                interface_luid,
                interface_index,
                next_hop: Ipv4Addr { bits: 0 },
                metric,
                generation: 0,
            },
        );
        Ok(())
    }

    /// Removes a route of a path. What is not in the registry is not touched.
    pub fn remove_route(
        &mut self,
        path_id: &str,
        destination: Ipv4Addr,
        prefix_length: u8,
        interface_luid: u64,
    ) -> (r: Result<(), RouteError>)
        ensures
            ({
                let k = RouteKey { destination, prefix_length, path_id: path_id@ };
                if old(self)@.dom().contains(k) {
                    r is Ok && final(self)@ == old(self)@.remove(k)
                } else {
                    final(self)@ == old(self)@ && outcome(r) == Err::<(), ErrorView>(
                        unregistered(
                            "remove_route"@,
                            destination,
                            prefix_length,
                            path_id@,
                            Some(interface_luid),
                            "ownership_check"@,
                            "route not found in MARSTART registry"@,
                        ),
                    )
                }
            }),
    {
        match self.find(path_id, destination, prefix_length) {
            Some(i) => {
                self.drop_at(i);
                Ok(())
            },
            None => Err(
                missing(
                    "remove_route",
                    destination,
                    prefix_length,
                    path_id,
                    Some(interface_luid),
                    "ownership_check",
                    "route not found in MARSTART registry",
                ),
            ),
        }
    }

    /// Drops a route of a path after the system was asked to delete it. The system
    /// is asked only about routes in the registry. A route that the system does
    /// not have, or would not delete for lack of privileges, is dropped too.
    pub fn remove_route_native(
        &mut self,
        path_id: &str,
        destination: Ipv4Addr,
        prefix_length: u8,
        interface_luid: u64,
        code: u32,
    ) -> (r: Result<(), RouteError>)
        ensures
            ({
                let k = RouteKey { destination, prefix_length, path_id: path_id@ };
                if !old(self)@.dom().contains(k) {
                    final(self)@ == old(self)@ && outcome(r) == Err::<(), ErrorView>(
                        unregistered(
                            "remove_route"@,
                            destination,
                            prefix_length,
                            path_id@,
                            Some(interface_luid),
                            "ownership_check"@,
                            "route not found in MARSTART registry — refusing to delete"@,
                        ),
                    )
                } else if code == 0 || code == ERROR_FILE_NOT_FOUND || code == ERROR_ACCESS_DENIED {
                    r is Ok && final(self)@ == old(self)@.remove(k)
                } else {
                    final(self)@ == old(self)@ && outcome(r) == Err::<(), ErrorView>(
                        refused(
                            code,
                            "DeleteIpForwardEntry2"@,
                            destination,
                            prefix_length,
                            path_id@,
                            interface_luid,
                            "remove"@,
                        ),
                    )
                }
            }),
    {
        match self.find(path_id, destination, prefix_length) {
            None => Err(
                missing(
                    "remove_route",
                    destination,
                    prefix_length,
                    path_id,
                    Some(interface_luid),
                    "ownership_check",
                    "route not found in MARSTART registry — refusing to delete",
                ),
            ),
            Some(i) => {
                if code != 0 && code != ERROR_FILE_NOT_FOUND && code != ERROR_ACCESS_DENIED {
                    return Err(
                        refusal(
                            code,
                            "DeleteIpForwardEntry2",
                            destination,
                            prefix_length,
                            path_id,
                            interface_luid,
                            "remove",
                        ),
                    );
                }
                self.drop_at(i);
                Ok(())
            },
        }
    }

    /// The routes of the registry.
    pub fn all_routes(&self) -> (r: Vec<ManagedRoute>)
        ensures
            lists_registry(entries(r@), self@),
    {
        proof {
            use_type_invariant(&*self);
            lemma_listed(self.routes@);
        }
        let mut out: Vec<ManagedRoute> = Vec::new();
        let mut i: usize = 0;
        while i < self.routes.len()
            invariant
                i <= self.routes@.len(),
                out@.len() == i,
                forall|j: int| 0 <= j < i ==> (#[trigger] out@[j])@ == self.routes@[j]@,
            decreases self.routes@.len() - i,
        {
            out.push(self.routes[i].copy());
            i = i + 1;
        }
        assert(entries(out@) =~= entries(self.routes@));
        out
    }

    /// The routes of the registry.
    pub fn enumerate_owned_routes(&self) -> (r: Vec<ManagedRoute>)
        ensures
            lists_registry(entries(r@), self@),
    {
        self.all_routes()
    }

    /// The routes of the system's table; without one, those of the registry.
    pub fn enumerate_windows_routes(&self) -> (r: Vec<ManagedRoute>)
        ensures
            lists_registry(entries(r@), self@),
    {
        self.all_routes()
    }

    fn drop_leading(&mut self, destination: Ipv4Addr, prefix_length: u8, luid: u64)
        ensures
            final(self)@ == without(old(self)@, destination, prefix_length, luid),
    {
        let ghost m = self@;
        let mut i: usize = 0;
        proof {
            use_type_invariant(&*self);
        }
        assert(self@ =~= m);
        while i < self.routes.len()
            invariant
                i <= self.routes@.len(),
                distinct(self.routes@),
                forall|j: int|
                    0 <= j < i ==> !(#[trigger] self.routes@[j])@.leads(
                        destination,
                        prefix_length,
                        luid,
                    ),
                without(self@, destination, prefix_length, luid) == without(
                    m,
                    destination,
                    prefix_length,
                    luid,
                ),
            decreases self.routes@.len() - i,
        {
            let r = &self.routes[i];
            if r.destination == destination && r.prefix_length == prefix_length
                && r.interface_luid == luid {
                let ghost now = self@;
                proof {
                    lemma_at(self.routes@, i as int);
                }
                self.drop_at(i);
                proof {
                    use_type_invariant(&*self);
                }
                assert(without(self@, destination, prefix_length, luid) =~= without(
                    now,
                    destination,
                    prefix_length,
                    luid,
                ));
            } else {
                i = i + 1;
            }
        }
        assert forall|k: RouteKey| self@.dom().contains(k) implies !self@[k].leads(
            destination,
            prefix_length,
            luid,
        ) by {
            let j = keys(self.routes@).index_of(k);
            assert(keys(self.routes@)[j] == k);
            lemma_at(self.routes@, j);
        }
        assert(self@ =~= without(self@, destination, prefix_length, luid));
    }

    /// Removes every route to a range through an interface, whatever its path.
    /// That there is none is no error.
    pub fn remove_route_os(&mut self, destination: Ipv4Addr, prefix_length: u8, interface_luid: u64) -> (r:
        Result<(), RouteError>)
        ensures
            r is Ok,
            final(self)@ == without(old(self)@, destination, prefix_length, interface_luid),
    {
        self.drop_leading(destination, prefix_length, interface_luid);
        Ok(())
    }

    /// Drops every route to a range through an interface after the system was
    /// asked to delete it.
    pub fn remove_route_os_native(
        &mut self,
        destination: Ipv4Addr,
        prefix_length: u8,
        interface_luid: u64,
        code: u32,
    ) -> (r: Result<(), RouteError>)
        ensures
            if code == 0 || code == ERROR_FILE_NOT_FOUND || code == ERROR_ACCESS_DENIED {
                r is Ok && final(self)@ == without(
                    old(self)@,
                    destination,
                    prefix_length,
                    interface_luid,
                )
            } else {
                final(self)@ == old(self)@ && outcome(r) == Err::<(), ErrorView>(
                    refused(
                        code,
                        "DeleteIpForwardEntry2"@,
                        destination,
                        prefix_length,
                        "orphan"@,
                        interface_luid,
                        "remove_os"@,
                    ),
                )
            },
    {
        if code != 0 && code != ERROR_FILE_NOT_FOUND && code != ERROR_ACCESS_DENIED {
            return Err(
                refusal(
                    code,
                    "DeleteIpForwardEntry2",
                    destination,
                    prefix_length,
                    "orphan",
                    interface_luid,
                    "remove_os",
                ),
            );
        }
        self.drop_leading(destination, prefix_length, interface_luid);
        Ok(())
    }

    /// Whether the registry holds a route to a range through an interface.
    pub fn route_exists(&self, destination: Ipv4Addr, prefix_length: u8, interface_luid: u64) -> (r:
        bool)
        ensures
            r == leads_somewhere(self@, destination, prefix_length, interface_luid),
    {
        proof {
            use_type_invariant(&*self);
        }
        let mut i: usize = 0;
        while i < self.routes.len()
            invariant
                i <= self.routes@.len(),
                distinct(self.routes@),
                forall|j: int|
                    0 <= j < i ==> !(#[trigger] self.routes@[j])@.leads(
                        destination,
                        prefix_length,
                        interface_luid,
                    ),
            decreases self.routes@.len() - i,
        {
            let r = &self.routes[i];
            if r.destination == destination && r.prefix_length == prefix_length
                && r.interface_luid == interface_luid {
                proof {
                    lemma_at(self.routes@, i as int);
                }
                return true;
            }
            i = i + 1;
        }
        assert forall|k: RouteKey| self@.dom().contains(k) implies !self@[k].leads(
            destination,
            prefix_length,
            interface_luid,
        ) by {
            let j = keys(self.routes@).index_of(k);
            assert(keys(self.routes@)[j] == k);
            lemma_at(self.routes@, j);
        }
        false
    }

    /// Sets the metric of a route of the registry.
    pub fn update_route_metric(
        &mut self,
        path_id: &str,
        destination: Ipv4Addr,
        prefix_length: u8,
        metric: u32,
    ) -> (r: Result<(), RouteError>)
        ensures
            ({
                let k = RouteKey { destination, prefix_length, path_id: path_id@ };
                if old(self)@.dom().contains(k) {
                    r is Ok && final(self)@ == remetered(old(self)@, k, metric)
                } else {
                    final(self)@ == old(self)@ && outcome(r) == Err::<(), ErrorView>(
                        unregistered(
                            "update_route_metric"@,
                            destination,
                            prefix_length,
                            path_id@,
                            None,
                            "update"@,
                            "route not found in registry"@,
                        ),
                    )
                }
            }),
    {
        match self.find(path_id, destination, prefix_length) {
            Some(i) => {
                let mut route = self.routes[i].copy();
                route.metric = metric;
                route.generation = if route.generation == u64::MAX {
                    0
                } else {
                    route.generation + 1
                };
                assert(route@.key() == self.routes@[i as int]@.key());
                self.put(route);
                Ok(())
            },
            None => Err(
                missing(
                    "update_route_metric",
                    destination,
                    prefix_length,
                    path_id,
                    None,
                    "update",
                    "route not found in registry",
                ),
            ),
        }
    }

    /// Sets the metric of a route in the system's table; without one, in the
    /// registry.
    pub fn update_route_metric_os(
        &mut self,
        path_id: &str,
        destination: Ipv4Addr,
        prefix_length: u8,
        _interface_luid: u64,
        metric: u32,
    ) -> (r: Result<(), RouteError>)
        ensures
            ({
                let k = RouteKey { destination, prefix_length, path_id: path_id@ };
                if old(self)@.dom().contains(k) {
                    r is Ok && final(self)@ == remetered(old(self)@, k, metric)
                } else {
                    final(self)@ == old(self)@ && outcome(r) == Err::<(), ErrorView>(
                        unregistered(
                            "update_route_metric"@,
                            destination,
                            prefix_length,
                            path_id@,
                            None,
                            "update"@,
                            "route not found in registry"@,
                        ),
                    )
                }
            }),
    {
        self.update_route_metric(path_id, destination, prefix_length, metric)
    }

    /// Sets the metric of a route of the registry after the system was asked to
    /// set it. That privileges were lacking is no error.
    pub fn update_route_metric_native(
        &mut self,
        path_id: &str,
        destination: Ipv4Addr,
        prefix_length: u8,
        interface_luid: u64,
        metric: u32,
        code: u32,
    ) -> (r: Result<(), RouteError>)
        ensures
            ({
                let k = RouteKey { destination, prefix_length, path_id: path_id@ };
                if code != 0 && code != ERROR_ACCESS_DENIED {
                    final(self)@ == old(self)@ && outcome(r) == Err::<(), ErrorView>(
                        refused(
                            code,
                            "SetIpForwardEntry2"@,
                            destination,
                            prefix_length,
                            path_id@,
                            interface_luid,
                            "update_os"@,
                        ),
                    )
                } else if old(self)@.dom().contains(k) {
                    r is Ok && final(self)@ == remetered(old(self)@, k, metric)
                } else {
                    final(self)@ == old(self)@ && outcome(r) == Err::<(), ErrorView>(
                        unregistered(
                            "update_route_metric"@,
                            destination,
                            prefix_length,
                            path_id@,
                            None,
                            "update"@,
                            "route not found in registry"@,
                        ),
                    )
                }
            }),
    {
        if code != 0 && code != ERROR_ACCESS_DENIED {
            return Err(
                refusal(
                    code,
                    "SetIpForwardEntry2",
                    destination,
                    prefix_length,
                    path_id,
                    interface_luid,
                    "update_os",
                ),
            );
        }
        self.update_route_metric(path_id, destination, prefix_length, metric)
    }

    /// Removes all routes of the registry.
    pub fn cleanup_owned_routes(&mut self) -> (r: Vec<RouteError>)
        ensures
            r@.len() == 0,
            final(self)@ == Map::<RouteKey, RouteEntry>::empty(),
    {
        *self = WindowsRouteManager::new();
        Vec::new()
    }
}

// ---------------------------------------------------------------------------
// Laws
// ---------------------------------------------------------------------------

/// Removing a route that was just installed leaves the registry as if the route
/// had never been in it.
pub proof fn law_remove_undoes_install(
    m: Registry,
    path_id: Seq<char>,
    destination: Ipv4Addr,
    prefix_length: u8,
    luid: u64,
    index: u32,
    metric: u32,
)
    ensures
        ({
            let k = RouteKey { destination, prefix_length, path_id };
            installed(m, path_id, destination, prefix_length, luid, index, metric).remove(k)
                == m.remove(k)
        }),
{
    let k = RouteKey { destination, prefix_length, path_id };
    assert(installed(m, path_id, destination, prefix_length, luid, index, metric).remove(k)
        =~= m.remove(k));
}

/// A change of metric keeps the identity of a route and leaves all others alone.
pub proof fn law_metric_keeps_identity(m: Registry, k: RouteKey, metric: u32)
    requires
        m.dom().contains(k),
    ensures
        remetered(m, k, metric).dom() == m.dom(),
        remetered(m, k, metric)[k].metric == metric,
        remetered(m, k, metric)[k].key() == m[k].key(),
        remetered(m, k, metric)[k].interface_luid == m[k].interface_luid,
        remetered(m, k, metric)[k].interface_index == m[k].interface_index,
        forall|other: RouteKey|
            other != k && m.dom().contains(other) ==> #[trigger] remetered(m, k, metric)[other]
                == m[other],
{
    assert(remetered(m, k, metric).dom() =~= m.dom());
}

/// Removing by range and interface removes exactly the routes that lead there.
pub proof fn law_removal_is_exact(
    m: Registry,
    destination: Ipv4Addr,
    prefix_length: u8,
    luid: u64,
)
    ensures
        !leads_somewhere(without(m, destination, prefix_length, luid), destination, prefix_length, luid),
        forall|k: RouteKey| #[trigger]
            m.dom().contains(k) && !m[k].leads(destination, prefix_length, luid) ==> without(
                m,
                destination,
                prefix_length,
                luid,
            ).dom().contains(k) && without(m, destination, prefix_length, luid)[k] == m[k],
{
}

} // verus!
