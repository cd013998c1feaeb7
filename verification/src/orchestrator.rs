//! Desired-state reconciliation: configuration validation, dependency
//! ordering, and the orchestrator's `up` / `down` / `status` / `load`
//! contract.
//!
//! The orchestrator decides which supervisors to stop and which to spawn;
//! the process spawning, signalling and database I/O are the caller's, who
//! carries out the returned actions in order and hands fresh supervisor
//! PIDs in.

use vstd::prelude::*;

use crate::error::{MonocoreError, MonocoreResult};
use crate::monitor::SandboxTable;
use crate::state::{service_eq, Group, Service};

verus! {

/// A set of services and groups; the orchestrator's desired state.
#[derive(Debug)]
pub struct MonocoreConfig {
    /// The services, with unique names.
    pub services: Vec<Service>,
    /// The groups the services may belong to.
    pub groups: Vec<Group>,
}

/// Whether service `a` depends on service `b`: `b`'s name is among `a`'s
/// declared dependencies.
pub open spec fn dep_edge(services: Seq<Service>, a: int, b: int) -> bool {
    exists|k: int|
        0 <= k < services[a].depends_on@.len() && services[a].depends_on@[k]@
            == services[b].name@
}

/// Whether no two services share a name.
pub open spec fn unique_service_names(services: Seq<Service>) -> bool {
    forall|i: int, j: int|
        0 <= i < j < services.len() ==> services[i].name@ != services[j].name@
}

/// Whether the value `v` appears in `order`.
pub open spec fn appears_int(order: Seq<int>, v: int) -> bool {
    exists|i: int| 0 <= i < order.len() && order[i] == v
}

/// Whether `order` is a topological order of the services: it lists every
/// service exactly once, and every service comes after the services it
/// depends on.
pub open spec fn valid_order(services: Seq<Service>, order: Seq<int>) -> bool {
    &&& order.len() == services.len()
    &&& forall|i: int| 0 <= i < order.len() ==> 0 <= #[trigger] order[i] < services.len()
    &&& forall|i: int, j: int| 0 <= i < j < order.len() ==> order[i] != order[j]
    &&& forall|v: int| 0 <= v < services.len() ==> #[trigger] appears_int(order, v)
    &&& forall|i: int, j: int|
        0 <= i < order.len() && 0 <= j < order.len() && #[trigger] dep_edge(
            services,
            order[i],
            order[j],
        ) ==> j < i
}

/// Whether the dependency graph admits a topological order at all.
pub open spec fn sortable(services: Seq<Service>) -> bool {
    exists|order: Seq<int>| valid_order(services, order)
}

/// The first position at or after `i` whose service is not yet placed, or
/// `-1` where all are.
spec fn first_unplaced(order: Seq<int>, placed: Seq<bool>, i: int) -> int
    decreases order.len() - i,
{
    if i < 0 || i >= order.len() {
        -1
    } else if 0 <= order[i] < placed.len() && !placed[order[i]] {
        i
    } else {
        first_unplaced(order, placed, i + 1)
    }
}

/// Where some position at or after `i` holds an unplaced service, the scan
/// finds the first one.
proof fn lemma_first_unplaced(order: Seq<int>, placed: Seq<bool>, i: int, w: int)
    requires
        0 <= i <= w < order.len(),
        0 <= order[w] < placed.len(),
        !placed[order[w]],
        forall|p: int| 0 <= p < order.len() ==> 0 <= #[trigger] order[p] < placed.len(),
    ensures
        ({
            let f = first_unplaced(order, placed, i);
            &&& i <= f <= w
            &&& !placed[order[f]]
            &&& forall|q: int| i <= q < f ==> placed[#[trigger] order[q]]
        }),
    decreases w - i,
{
    if !placed[order[i]] {
    } else {
        lemma_first_unplaced(order, placed, i + 1, w);
    }
}

/// A stalled selection proves the graph cyclic: where some service is
/// unplaced and every unplaced service depends on an unplaced service, no
/// topological order exists.
proof fn lemma_stuck_unsortable(services: Seq<Service>, placed: Seq<bool>, u0: int)
    requires
        placed.len() == services.len(),
        0 <= u0 < services.len(),
        !placed[u0],
        forall|u: int|
            0 <= u < services.len() && !placed[u] ==> exists|v: int|
                0 <= v < services.len() && !placed[v] && #[trigger] dep_edge(services, u, v),
    ensures
        !sortable(services),
{
    if sortable(services) {
        let order = choose|order: Seq<int>| valid_order(services, order);
        assert(appears_int(order, u0));
        let w = choose|i: int| 0 <= i < order.len() && order[i] == u0;
        lemma_first_unplaced(order, placed, 0, w);
        let f = first_unplaced(order, placed, 0);
        let uf = order[f];
        assert(exists|v: int|
            0 <= v < services.len() && !placed[v] && #[trigger] dep_edge(services, uf, v));
        let v = choose|v: int|
            0 <= v < services.len() && !placed[v] && #[trigger] dep_edge(services, uf, v);
        assert(appears_int(order, v));
        let q = choose|i: int| 0 <= i < order.len() && order[i] == v;
        assert(dep_edge(services, order[f], order[q]));
        assert(q < f);
        assert(placed[order[q]]);
        assert(false);
    }
}

/// Whether `v` appears in `order`.
spec fn appears(order: Seq<usize>, v: int) -> bool {
    exists|p: int| 0 <= p < order.len() && order[p] as int == v
}

/// Pushing a value makes exactly it and the prior values appear.
proof fn lemma_appears_push(order: Seq<usize>, u: usize)
    ensures
        forall|v: int|
            #[trigger] appears(order.push(u), v) <==> (appears(order, v) || v == u as int),
{
    assert forall|v: int|
        #[trigger] appears(order.push(u), v) <==> (appears(order, v) || v == u as int) by {
        if appears(order.push(u), v) {
            let p = choose|p: int| 0 <= p < order.push(u).len() && order.push(u)[p] as int == v;
            if p < order.len() {
                assert(order[p] as int == v);
            }
        }
        if appears(order, v) {
            let p = choose|p: int| 0 <= p < order.len() && order[p] as int == v;
            assert(order.push(u)[p] as int == v);
        }
        if v == u as int {
            assert(order.push(u)[order.len() as int] as int == v);
        }
    }
}

/// The parts of the selection loop's state that make a finished order a
/// valid topological order.
proof fn lemma_order_complete(services: Seq<Service>, order: Seq<usize>, placed: Seq<bool>)
    requires
        placed.len() == services.len(),
        order.len() == services.len(),
        forall|p: int| 0 <= p < order.len() ==> 0 <= #[trigger] order[p] < services.len(),
        forall|p: int, q: int| 0 <= p < q < order.len() ==> order[p] != order[q],
        forall|p: int, q: int|
            0 <= p < order.len() && 0 <= q < order.len() && #[trigger] dep_edge(
                services,
                order[p] as int,
                order[q] as int,
            ) ==> q < p,
    ensures
        valid_order(services, order.map_values(|u: usize| u as int)),
{
    let m = order.map_values(|u: usize| u as int);
    assert(forall|i: int| 0 <= i < m.len() ==> #[trigger] m[i] == order[i] as int);
    assert forall|i: int, j: int| 0 <= i < j < m.len() implies m[i] != m[j] by {
        assert(order[i] != order[j]);
    }
    lemma_full_coverage(order, services.len() as int);
    assert forall|v: int| 0 <= v < services.len() implies #[trigger] appears_int(m, v) by {
        assert(appears(order, v));
        let p = choose|p: int| 0 <= p < order.len() && order[p] as int == v;
        assert(m[p] == v);
    }
    assert forall|i: int, j: int|
        0 <= i < m.len() && 0 <= j < m.len() && #[trigger] dep_edge(services, m[i], m[j]) implies j
        < i by {
        assert(dep_edge(services, order[i] as int, order[j] as int));
    }
}

/// Whether every declared dependency of service `a` that names a service at
/// all is already placed.
fn deps_placed(services: &Vec<Service>, a: usize, placed: &Vec<bool>) -> (r: bool)
    requires
        a < services@.len(),
        placed@.len() == services@.len(),
    ensures
        r <==> forall|b: int|
            0 <= b < services@.len() && #[trigger] dep_edge(services@, a as int, b)
                ==> placed@[b],
{
    let svc = &services[a];
    let mut k: usize = 0;
    while k < svc.depends_on.len()
        invariant
            a < services@.len(),
            placed@.len() == services@.len(),
            svc == services@[a as int],
            0 <= k <= svc.depends_on@.len(),
            forall|b: int, kk: int|
                0 <= b < services@.len() && 0 <= kk < k && services@[a as int].depends_on@[kk]@
                    == services@[b].name@ ==> placed@[b],
        decreases svc.depends_on@.len() - k,
    {
        let dep_name = &svc.depends_on[k];
        let mut b: usize = 0;
        while b < services.len()
            invariant
                a < services@.len(),
                placed@.len() == services@.len(),
                svc == services@[a as int],
                k < svc.depends_on@.len(),
                dep_name == svc.depends_on@[k as int],
                0 <= b <= services@.len(),
                forall|bb: int|
                    0 <= bb < b && services@[a as int].depends_on@[k as int]@
                        == services@[bb].name@ ==> placed@[bb],
            decreases services@.len() - b,
        {
            if crate::state::string_eq(dep_name.as_str(), services[b].name.as_str()) {
                if !placed[b] {
                    proof {
                        assert(dep_edge(services@, a as int, b as int));
                    }
                    return false;
                }
            }
            b += 1;
        }
        k += 1;
    }
    proof {
        assert forall|b: int|
            0 <= b < services@.len() && #[trigger] dep_edge(services@, a as int, b) implies
            placed@[b] by {
            let kk = choose|kk: int|
                0 <= kk < services@[a as int].depends_on@.len() && services@[a as
                    int].depends_on@[kk]@ == services@[b].name@;
        }
    }
    true
}

/// Computes a topological order of the services: every service is listed
/// once, after all the services it depends on.
///
/// Fails with `DependencyCycle` exactly when the dependency graph admits no
/// such order.
pub fn topological_order(services: &Vec<Service>) -> (r: MonocoreResult<Vec<usize>>)
    ensures
        match r {
            Result::Ok(order) => valid_order(
                services@,
                order@.map_values(|u: usize| u as int),
            ),
            Result::Err(e) => !sortable(services@) && e == MonocoreError::DependencyCycle,
        },
{
    let n = services.len();
    let mut placed: Vec<bool> = Vec::new();
    let mut i: usize = 0;
    while i < n
        invariant
            0 <= i <= n,
            placed@.len() == i,
            forall|j: int| 0 <= j < i ==> !placed@[j],
        decreases n - i,
    {
        placed.push(false);
        i += 1;
    }
    let mut order: Vec<usize> = Vec::new();
    loop
        invariant
            n == services@.len(),
            placed@.len() == n,
            order@.len() <= n,
            forall|p: int| 0 <= p < order@.len() ==> 0 <= #[trigger] order@[p] < n,
            forall|p: int, q: int| 0 <= p < q < order@.len() ==> order@[p] != order@[q],
            forall|v: int| 0 <= v < n ==> (placed@[v] <==> #[trigger] appears(order@, v)),
            forall|p: int, q: int|
                0 <= p < order@.len() && 0 <= q < order@.len() && #[trigger] dep_edge(
                    services@,
                    order@[p] as int,
                    order@[q] as int,
                ) ==> q < p,
            forall|p: int, b: int|
                0 <= p < order@.len() && 0 <= b < n && #[trigger] dep_edge(
                    services@,
                    order@[p] as int,
                    b,
                ) ==> placed@[b],
        decreases n - order@.len(),
    {
        if order.len() == n {
            proof {
                lemma_order_complete(services@, order@, placed@);
            }
            return Result::Ok(order);
        }
        // find an unplaced service whose dependencies are all placed
        let mut pick: Option<usize> = Option::None;
        let mut a: usize = 0;
        while a < n && pick.is_none()
            invariant
                n == services@.len(),
                placed@.len() == n,
                0 <= a <= n,
                pick is None ==> forall|u: int|
                    0 <= u < a ==> (placed@[u] || exists|v: int|
                        0 <= v < n && !placed@[v] && #[trigger] dep_edge(services@, u, v)),
                pick matches Option::Some(u) ==> u < n && !placed@[u as int] && forall|b: int|
                    0 <= b < n && #[trigger] dep_edge(services@, u as int, b) ==> placed@[b],
            decreases n - a + (if pick is None { 1int } else { 0int }),
        {
            if !placed[a] {
                if deps_placed(services, a, &placed) {
                    pick = Option::Some(a);
                } else {
                    proof {
                        let b = choose|b: int|
                            0 <= b < services@.len() && dep_edge(services@, a as int, b)
                                && !placed@[b];
                        assert(!placed@[b] && dep_edge(services@, a as int, b));
                    }
                    a += 1;
                }
            } else {
                a += 1;
            }
        }
        match pick {
            Option::Some(u) => {
                let ghost old_placed = placed@;
                let ghost old_order = order@;
                placed[u] = true;
                order.push(u);
                proof {
                    assert(placed@ == old_placed.update(u as int, true));
                    assert(order@ == old_order.push(u));
                    lemma_appears_push(old_order, u);
                    assert forall|p: int, q: int|
                        0 <= p < q < order@.len() implies order@[p] != order@[q] by {
                        let l = old_order.len() as int;
                        if q == l {
                            assert(old_order[p] as int == old_order[p] as int);
                            assert(appears(old_order, old_order[p] as int));
                            assert(old_placed[old_order[p] as int]);
                        }
                    }
                    assert forall|v: int|
                        0 <= v < n implies (placed@[v] <==> #[trigger] appears(order@, v)) by {
                        if v == u as int {
                            assert(appears(order@, v));
                        } else {
                            assert(placed@[v] == old_placed[v]);
                            assert(appears(order@, v) == appears(old_order, v));
                        }
                    }
                    // the new entry respects the order: its dependencies were
                    // all placed before, so none of them is the new entry
                    assert forall|p: int, q: int|
                        0 <= p < order@.len() && 0 <= q < order@.len() && #[trigger] dep_edge(
                            services@,
                            order@[p] as int,
                            order@[q] as int,
                        ) implies q < p by {
                        let l = old_order.len() as int;
                        if p < l && q < l {
                            assert(dep_edge(services@, old_order[p] as int, old_order[q] as int));
                        } else if p == l && q < l {
                        } else if p < l && q == l {
                            assert(dep_edge(services@, old_order[p] as int, u as int));
                            assert(old_placed[u as int]);
                        } else {
                            assert(dep_edge(services@, u as int, u as int));
                            assert(old_placed[u as int]);
                        }
                    }
                }
            },
            Option::None => {
                proof {
                    assert(order@.len() < n);
                    let v = lemma_missing_value(order@, n as int);
                    assert(!appears(order@, v)) by {
                        if appears(order@, v) {
                            let p = choose|p: int|
                                0 <= p < order@.len() && order@[p] as int == v;
                        }
                    }
                    assert(!placed@[v]);
                    lemma_stuck_unsortable(services@, placed@, v);
                }
                return Result::Err(MonocoreError::DependencyCycle);
            },
        }
    }
}

/// Whether the value `v` appears in `order`. (see `appears`)
spec fn used_below(order: Seq<usize>, n: int) -> Set<int> {
    Set::new(|v: int| 0 <= v < n && appears(order, v))
}

/// Fewer than `n` distinct values below `n` leave some value below `n`
/// unused; this names one.
proof fn lemma_missing_value(order: Seq<usize>, n: int) -> (v: int)
    requires
        forall|p: int| 0 <= p < order.len() ==> 0 <= #[trigger] order[p] < n,
        forall|p: int, q: int| 0 <= p < q < order.len() ==> order[p] != order[q],
        order.len() < n,
    ensures
        0 <= v < n,
        forall|p: int| 0 <= p < order.len() ==> #[trigger] order[p] as int != v,
{
    let used = used_below(order, n);
    let all = vstd::set_lib::set_int_range(0, n);
    assert(used.subset_of(all));
    lemma_distinct_len(order, n);
    vstd::set_lib::lemma_int_range(0, n);
    vstd::set_lib::lemma_len_subset(used, all);
    assert(exists|v0: int| all.contains(v0) && !used.contains(v0)) by {
        if forall|v0: int| all.contains(v0) ==> #[trigger] used.contains(v0) {
            assert(all.subset_of(used));
            vstd::set_lib::lemma_len_subset(all, used);
        }
    }
    let v = choose|v0: int| all.contains(v0) && !used.contains(v0);
    assert forall|p: int| 0 <= p < order.len() implies #[trigger] order[p] as int != v by {
        if order[p] as int == v {
            assert(appears(order, v));
        }
    }
    v
}

/// `n` distinct values below `n` use every value below `n`.
proof fn lemma_full_coverage(order: Seq<usize>, n: int)
    requires
        forall|p: int| 0 <= p < order.len() ==> 0 <= #[trigger] order[p] < n,
        forall|p: int, q: int| 0 <= p < q < order.len() ==> order[p] != order[q],
        order.len() == n,
    ensures
        forall|v: int| 0 <= v < n ==> #[trigger] appears(order, v),
{
    let used = used_below(order, n);
    let all = vstd::set_lib::set_int_range(0, n);
    assert(used.subset_of(all));
    lemma_distinct_len(order, n);
    vstd::set_lib::lemma_int_range(0, n);
    assert forall|v: int| 0 <= v < n implies #[trigger] appears(order, v) by {
        if !used.contains(v) {
            assert(all.contains(v));
            lemma_strict_subset(used, all, v);
        }
        assert(used.contains(v));
    }
}

/// A list of distinct values below `n` covers as many values as it has
/// entries.
proof fn lemma_distinct_len(order: Seq<usize>, n: int)
    requires
        forall|p: int| 0 <= p < order.len() ==> 0 <= #[trigger] order[p] < n,
        forall|p: int, q: int| 0 <= p < q < order.len() ==> order[p] != order[q],
    ensures
        used_below(order, n).finite(),
        used_below(order, n).len() == order.len(),
    decreases order.len(),
{
    let used = used_below(order, n);
    if order.len() == 0 {
        assert forall|v: int| !used.contains(v) by {
            if appears(order, v) {
                let p = choose|p: int| 0 <= p < order.len() && order[p] as int == v;
            }
        }
        assert(used =~= Set::<int>::empty());
    } else {
        let prefix = order.drop_last();
        assert(forall|p: int| 0 <= p < prefix.len() ==> prefix[p] == order[p]);
        lemma_distinct_len(prefix, n);
        let used_prefix = used_below(prefix, n);
        let last = order.last() as int;
        assert(0 <= last < n) by {
            assert(order[order.len() - 1] == order.last());
        }
        assert forall|v: int| used.contains(v) implies used_prefix.insert(last).contains(v) by {
            let p = choose|p: int| 0 <= p < order.len() && order[p] as int == v;
            if p < order.len() - 1 {
                assert(prefix[p] as int == v);
                assert(appears(prefix, v));
            } else {
                assert(v == last);
            }
        }
        assert forall|v: int| used_prefix.insert(last).contains(v) implies used.contains(v) by {
            if v == last {
                assert(order[order.len() - 1] as int == v);
                assert(appears(order, v));
            } else {
                let p = choose|p: int| 0 <= p < prefix.len() && prefix[p] as int == v;
                assert(order[p] as int == v);
                assert(appears(order, v));
            }
        }
        assert(used =~= used_prefix.insert(last));
        assert(!used_prefix.contains(last)) by {
            if used_prefix.contains(last) {
                let p = choose|p: int| 0 <= p < prefix.len() && prefix[p] as int == last;
                assert(order[p] == order[order.len() - 1]);
            }
        }
    }
}

/// A proper subset misses an element, so it is strictly smaller.
proof fn lemma_strict_subset(a: Set<int>, b: Set<int>, w: int)
    requires
        a.subset_of(b),
        b.finite(),
        b.contains(w),
        !a.contains(w),
    ensures
        a.len() < b.len(),
{
    assert(a.subset_of(b.remove(w)));
    vstd::set_lib::lemma_len_subset(a, b.remove(w));
    assert(b.remove(w).len() == b.len() - 1);
}

/// One live service as the orchestrator sees it.
pub struct RunningService {
    /// The service name; unique among running services.
    pub name: String,
    /// The PID of the service's supervisor process.
    pub supervisor_pid: u32,
    /// The descriptor the service was spawned with; `None` for a service
    /// adopted from a prior orchestrator, whose descriptor is unknown.
    pub descriptor: Option<Service>,
}

/// One step the caller carries out against the real processes.
#[derive(Debug)]
pub enum OrchAction {
    /// Stop a supervisor: SIGTERM, grace, then SIGKILL.
    Stop {
        /// The service name.
        name: String,
        /// The supervisor PID to signal.
        supervisor_pid: u32,
    },
    /// Spawn a supervisor for a service.
    Spawn {
        /// The service name.
        name: String,
        /// The supervisor PID the new process is recorded under.
        supervisor_pid: u32,
    },
}

/// Whether two optional descriptors are both present and equal.
pub open spec fn descriptors_eq(a: Option<Service>, b: Option<Service>) -> bool {
    match (a, b) {
        (Option::Some(da), Option::Some(db)) => service_eq(&da, &db),
        _ => false,
    }
}

/// Whether some running entry carries this name.
pub open spec fn running_has_name(rs: Seq<RunningService>, nm: Seq<char>) -> bool {
    exists|k: int| 0 <= k < rs.len() && rs[k].name@ == nm
}

/// Whether some service carries this name.
pub open spec fn services_have_name(ss: Seq<Service>, nm: Seq<char>) -> bool {
    exists|i: int| 0 <= i < ss.len() && ss[i].name@ == nm
}

/// Whether some running entry carries this supervisor PID.
pub open spec fn running_has_pid(rs: Seq<RunningService>, pid: u32) -> bool {
    exists|k: int| 0 <= k < rs.len() && rs[k].supervisor_pid == pid
}

/// Whether a running entry realizes a desired service: same name and an
/// equal, known descriptor.
pub open spec fn entry_realizes(e: RunningService, s: Service) -> bool {
    e.name@ == s.name@ && (e.descriptor matches Option::Some(d) && service_eq(&d, &s))
}

/// Whether a running entry is matched by some desired service.
pub open spec fn entry_matched(e: RunningService, ss: Seq<Service>) -> bool {
    exists|i: int| 0 <= i < ss.len() && #[trigger] entry_realizes(e, ss[i])
}

/// Whether some running entry realizes this service.
pub open spec fn matched_by(rs: Seq<RunningService>, s: Service) -> bool {
    exists|k: int| 0 <= k < rs.len() && #[trigger] entry_realizes(rs[k], s)
}

/// Whether the running set already realizes the desired services: every
/// desired service is matched by an entry, and every entry's name is
/// desired.
pub open spec fn reconciled(rs: Seq<RunningService>, ss: Seq<Service>) -> bool {
    &&& forall|i: int| 0 <= i < ss.len() ==> #[trigger] matched_by(rs, ss[i])
    &&& forall|k: int|
        0 <= k < rs.len() ==> services_have_name(ss, #[trigger] rs[k].name@)
}

/// Whether an entry was carried over from the prior running set: same name,
/// same supervisor PID, equal known descriptors.
pub open spec fn kept_from(old_rs: Seq<RunningService>, e: RunningService) -> bool {
    exists|m: int|
        0 <= m < old_rs.len() && old_rs[m].name@ == e.name@ && old_rs[m].supervisor_pid
            == e.supervisor_pid && descriptors_eq(old_rs[m].descriptor, e.descriptor)
}

/// Whether spawn actions respect the dependency graph: a service is spawned
/// only after every service it depends on.
pub open spec fn spawns_respect_deps(actions: Seq<OrchAction>, ss: Seq<Service>) -> bool {
    forall|x: int, y: int, a: int, b: int|
        #![trigger actions[x], actions[y], dep_edge(ss, a, b)]
        0 <= x < actions.len() && 0 <= y < actions.len() && 0 <= a < ss.len() && 0 <= b < ss.len()
            && (actions[x] matches OrchAction::Spawn { name: nx, .. } && nx@ == ss[a].name@) && (
        actions[y] matches OrchAction::Spawn { name: ny, .. } && ny@ == ss[b].name@) && dep_edge(
            ss,
            a,
            b,
        ) ==> y < x
}

/// Which running entries a `down` call leaves alone.
#[derive(Debug)]
pub enum DownFilter {
    /// Stop every service.
    All,
    /// Stop only the service with this name.
    ByName(String),
    /// Stop only the services of this group.
    ByGroup(String),
}

/// The entries that survive a `down` with this filter. An adopted entry
/// with an unknown descriptor has an unknown group, so a group filter does
/// not select it.
pub open spec fn down_keeps(f: DownFilter) -> spec_fn(RunningService) -> bool {
    |r: RunningService|
        match f {
            DownFilter::All => false,
            DownFilter::ByName(n) => r.name@ != n@,
            DownFilter::ByGroup(g) => match r.descriptor {
                Option::Some(d) => d.group@ != g@,
                Option::None => true,
            },
        }
}

/// Stopping everything keeps nothing.
pub proof fn lemma_down_all_empty(rs: Seq<RunningService>)
    ensures
        rs.filter(down_keeps(DownFilter::All)).len() == 0,
    decreases rs.len(),
{
    reveal(Seq::filter);
    if rs.len() > 0 {
        lemma_down_all_empty(rs.drop_last());
    }
}

/// The orchestrator: the desired-state reconciler over one home directory
/// and one supervisor binary.
pub struct Orchestrator {
    /// The home directory that holds the OCI store, rootfs trees and logs.
    pub home_dir: String,
    /// The path of the supervisor binary spawned per service.
    pub supervisor_bin: String,
    /// How long rolled log files are kept, in seconds.
    pub log_retention_secs: u64,
    /// The live services, in spawn order.
    pub running: Vec<RunningService>,
}

impl Orchestrator {
    /// Well-formedness: no two running entries share a name.
    pub open spec fn wf(self) -> bool {
        forall|i: int, j: int|
            0 <= i < j < self.running@.len() ==> self.running@[i].name@ != self.running@[j].name@
    }

    /// Creates a fresh orchestrator with no running services.
    pub fn new(home_dir: String, supervisor_bin: String, log_retention_secs: u64) -> (r:
        Orchestrator)
        ensures
            r.wf(),
            r.home_dir@ == home_dir@,
            r.supervisor_bin@ == supervisor_bin@,
            r.log_retention_secs == log_retention_secs,
            r.running@.len() == 0,
    {
        Orchestrator { home_dir, supervisor_bin, log_retention_secs, running: Vec::new() }
    }

    /// Recovers an orchestrator from the sandbox table: rows whose
    /// supervisor is still alive are adopted (with unknown descriptors);
    /// stale rows are dropped.
    pub fn load(
        home_dir: String,
        supervisor_bin: String,
        log_retention_secs: u64,
        rows: &SandboxTable,
        alive_pids: &Vec<u32>,
    ) -> (r: Orchestrator)
        requires
            rows.wf(),
        ensures
            r.wf(),
            r.home_dir@ == home_dir@,
            r.supervisor_bin@ == supervisor_bin@,
            r.log_retention_secs == log_retention_secs,
            r.running@.len() == rows.rows@.filter(
                |row: crate::monitor::SandboxRow| alive_pids@.contains(row.supervisor_pid),
            ).len(),
            forall|k: int|
                0 <= k < r.running@.len() ==> {
                    let kept = rows.rows@.filter(
                        |row: crate::monitor::SandboxRow| alive_pids@.contains(
                            row.supervisor_pid,
                        ),
                    );
                    #[trigger] r.running@[k].name@ == kept[k].name@ && r.running@[k].supervisor_pid
                        == kept[k].supervisor_pid && r.running@[k].descriptor is None
                },
    {
        let ghost pred = |row: crate::monitor::SandboxRow| alive_pids@.contains(
            row.supervisor_pid,
        );
        let mut running: Vec<RunningService> = Vec::new();
        let mut i: usize = 0;
        proof {
            reveal(Seq::filter);
            assert(rows.rows@.take(0).filter(pred) =~= Seq::<crate::monitor::SandboxRow>::empty());
        }
        while i < rows.rows.len()
            invariant
                rows.wf(),
                pred == (|row: crate::monitor::SandboxRow| alive_pids@.contains(
                    row.supervisor_pid,
                )),
                0 <= i <= rows.rows@.len(),
                running@.len() == rows.rows@.take(i as int).filter(pred).len(),
                forall|k: int|
                    0 <= k < running@.len() ==> {
                        let kept = rows.rows@.take(i as int).filter(pred);
                        #[trigger] running@[k].name@ == kept[k].name@
                            && running@[k].supervisor_pid == kept[k].supervisor_pid
                            && running@[k].descriptor is None
                    },
            decreases rows.rows@.len() - i,
        {
            let ghost prev = rows.rows@.take(i as int).filter(pred);
            let row = &rows.rows[i];
            let mut alive = false;
            let mut j: usize = 0;
            while j < alive_pids.len()
                invariant
                    0 <= j <= alive_pids@.len(),
                    i < rows.rows@.len(),
                    row == rows.rows@[i as int],
                    alive ==> alive_pids@.contains(row.supervisor_pid),
                    !alive ==> forall|p: int|
                        0 <= p < j ==> alive_pids@[p] != row.supervisor_pid,
                decreases alive_pids@.len() - j,
            {
                if alive_pids[j] == row.supervisor_pid {
                    alive = true;
                }
                j += 1;
            }
            proof {
                if !alive {
                    if alive_pids@.contains(row.supervisor_pid) {
                        let p = choose|p: int|
                            0 <= p < alive_pids@.len() && alive_pids@[p] == row.supervisor_pid;
                    }
                }
                reveal(Seq::filter);
                assert(rows.rows@.take(i + 1int).drop_last() =~= rows.rows@.take(i as int));
                assert(rows.rows@.take(i + 1int).last() == rows.rows@[i as int]);
            }
            if alive {
                running.push(
                    RunningService {
                        name: row.name.clone(),
                        supervisor_pid: row.supervisor_pid,
                        descriptor: Option::None,
                    },
                );
            }
            i += 1;
        }
        proof {
            assert(rows.rows@.take(rows.rows@.len() as int) =~= rows.rows@);
        }
        let r = Orchestrator { home_dir, supervisor_bin, log_retention_secs, running };
        proof {
            let kept = rows.rows@.filter(pred);
            assert forall|a: int, b: int|
                0 <= a < b < r.running@.len() implies r.running@[a].name@
                != r.running@[b].name@ by {
                crate::monitor::lemma_filter_distinct(rows.rows@, pred, a, b);
                let (i2, j2) = choose|i2: int, j2: int|
                    0 <= i2 < j2 < rows.rows@.len() && rows.rows@.filter(pred)[a] == rows.rows@[i2]
                        && rows.rows@.filter(pred)[b] == rows.rows@[j2];
            };
        }
        r
    }

    /// A snapshot of the live services: each name with its supervisor PID.
    pub fn status(&self) -> (r: Vec<(String, u32)>)
        ensures
            r@.len() == self.running@.len(),
            forall|k: int|
                0 <= k < r@.len() ==> (#[trigger] r@[k]).0@ == self.running@[k].name@
                    && r@[k].1 == self.running@[k].supervisor_pid,
    {
        let mut r: Vec<(String, u32)> = Vec::new();
        let mut i: usize = 0;
        while i < self.running.len()
            invariant
                0 <= i <= self.running@.len(),
                r@.len() == i,
                forall|k: int|
                    0 <= k < i ==> (#[trigger] r@[k]).0@ == self.running@[k].name@ && r@[k].1
                        == self.running@[k].supervisor_pid,
            decreases self.running@.len() - i,
        {
            r.push((self.running[i].name.clone(), self.running[i].supervisor_pid));
            i += 1;
        }
        r
    }

    /// Stops services: all of them, or those a filter selects. Returns the
    /// stop actions in reverse spawn order, so dependent services stop
    /// before their dependencies; the caller carries every one out even if
    /// some fail.
    pub fn down(&mut self, filter: &DownFilter) -> (stops: Vec<OrchAction>)
        requires
            old(self).wf(),
        ensures
            final(self).wf(),
            final(self).home_dir@ == old(self).home_dir@,
            final(self).running@ == old(self).running@.filter(down_keeps(*filter)),
            filter is All ==> final(self).running@.len() == 0,
            stops@.len() + final(self).running@.len() == old(self).running@.len(),
            forall|x: int|
                0 <= x < stops@.len() ==> (#[trigger] stops@[x] matches OrchAction::Stop {
                    name,
                    supervisor_pid,
                } && exists|m: int|
                    0 <= m < old(self).running@.len() && old(self).running@[m].name@ == name@
                        && old(self).running@[m].supervisor_pid == supervisor_pid && !(down_keeps(
                        *filter,
                    )(old(self).running@[m]))),
            // reverse spawn order: later-spawned services stop first
            forall|x: int, y: int, mx: int, my: int|
                #![trigger stops@[x], stops@[y], old(self).running@[mx], old(self).running@[my]]
                0 <= x < y < stops@.len() && 0 <= mx < old(self).running@.len() && 0 <= my < old(
                    self,
                ).running@.len() && (stops@[x] matches OrchAction::Stop {
                    name: nx,
                    ..
                } && nx@ == old(self).running@[mx].name@) && (stops@[y] matches
                OrchAction::Stop { name: ny, .. } && ny@ == old(self).running@[my].name@) ==> my
                    < mx,
    {
        let ghost pred = down_keeps(*filter);
        let ghost orig = self.running@;
        let mut rest: Vec<RunningService> = Vec::new();
        core::mem::swap(&mut self.running, &mut rest);
        let mut kept_rev: Vec<RunningService> = Vec::new();
        let mut stops: Vec<OrchAction> = Vec::new();
        let mut stop_src_exec: Ghost<Seq<int>> = Ghost(Seq::<int>::empty());
        proof {
            reveal(Seq::filter);
            assert(orig.skip(orig.len() as int).filter(pred) =~= Seq::<RunningService>::empty());
        }
        while rest.len() > 0
            invariant
                old(self).wf(),
                orig == old(self).running@,
                pred == down_keeps(*filter),
                rest@ == orig.take(rest@.len() as int),
                rest@.len() <= orig.len(),
                kept_rev@ == orig.skip(rest@.len() as int).filter(pred).reverse(),
                stops@.len() == stop_src_exec@.len(),
                forall|x: int|
                    0 <= x < stops@.len() ==> rest@.len() <= #[trigger] stop_src_exec@[x]
                        < orig.len(),
                forall|x: int|
                    0 <= x < stops@.len() ==> ((#[trigger] stops@[x]) matches OrchAction::Stop {
                        name,
                        supervisor_pid,
                    } && name@ == orig[stop_src_exec@[x]].name@ && supervisor_pid
                        == orig[stop_src_exec@[x]].supervisor_pid && !pred(
                        orig[stop_src_exec@[x]],
                    )),
                forall|x: int, y: int|
                    0 <= x < y < stops@.len() ==> stop_src_exec@[x] > stop_src_exec@[y],
                stops@.len() + kept_rev@.len() == orig.len() - rest@.len(),
            decreases rest@.len(),
        {
            let ghost i = rest@.len() - 1;
            let e = match rest.pop() {
                Option::Some(e) => e,
                Option::None => {
                    proof {
                        assert(false);
                    }
                    return stops;
                },
            };
            proof {
                assert(rest@ =~= orig.take(rest@.len() as int));
                assert(e == orig[i]);
            }
            let keep = match filter {
                DownFilter::All => false,
                DownFilter::ByName(n) => !crate::state::string_eq(e.name.as_str(), n.as_str()),
                DownFilter::ByGroup(g) => match &e.descriptor {
                    Option::Some(d) => !crate::state::string_eq(d.group.as_str(), g.as_str()),
                    Option::None => true,
                },
            };
            proof {
                assert(keep == pred(orig[i]));
                lemma_filter_skip_step(orig, pred, i);
            }
            if keep {
                kept_rev.push(e);
                proof {
                    assert(seq![orig[i]] + orig.skip(i + 1).filter(pred) == orig.skip(i).filter(
                        pred,
                    ));
                    assert(kept_rev@ =~= orig.skip(i).filter(pred).reverse());
                }
            } else {
                let pid = e.supervisor_pid;
                let ghost old_src = stop_src_exec@;
                stops.push(OrchAction::Stop { name: e.name, supervisor_pid: pid });
                proof {
                    stop_src_exec@ = stop_src_exec@.push(i);
                    assert forall|x: int, y: int|
                        0 <= x < y < stops@.len() implies stop_src_exec@[x]
                        > stop_src_exec@[y] by {
                        if y == stops@.len() - 1 {
                            assert(stop_src_exec@[x] == old_src[x]);
                            assert(old_src[x] >= i + 1);
                        }
                    }
                }
            }
        }
        proof {
            assert(orig.skip(0) =~= orig);
            assert(kept_rev@ == orig.filter(pred).reverse());
            assert(orig.filter(pred).reverse().take(kept_rev@.len() as int) =~= orig.filter(
                pred,
            ).reverse());
        }
        let mut fin: Vec<RunningService> = Vec::new();
        proof {
            assert(fin@ =~= orig.filter(pred).take(0));
        }
        while kept_rev.len() > 0
            invariant
                kept_rev@ == orig.filter(pred).reverse().take(kept_rev@.len() as int),
                fin@ == orig.filter(pred).take(fin@.len() as int),
                fin@.len() + kept_rev@.len() == orig.filter(pred).len(),
            decreases kept_rev@.len(),
        {
            let ghost fl = orig.filter(pred);
            let ghost m = kept_rev@.len() as int;
            let e = match kept_rev.pop() {
                Option::Some(e) => e,
                Option::None => {
                    proof {
                        assert(false);
                    }
                    return stops;
                },
            };
            proof {
                assert(e == fl.reverse().take(m)[m - 1]);
                assert(fl.reverse().take(m)[m - 1] == fl.reverse()[m - 1]);
                assert(fl.reverse()[m - 1] == fl[fl.len() - 1 - (m - 1)]);
                assert(e == fl[fin@.len() as int]);
                assert(kept_rev@ =~= fl.reverse().take(kept_rev@.len() as int));
            }
            fin.push(e);
            proof {
                assert(fin@ =~= orig.filter(pred).take(fin@.len() as int));
            }
        }
        proof {
            assert(fin@ =~= orig.filter(pred));
        }
        self.running = fin;
        proof {
            if filter is All {
                lemma_down_all_empty(orig);
            }
            assert forall|a: int, b: int|
                0 <= a < b < self.running@.len() implies self.running@[a].name@
                != self.running@[b].name@ by {
                crate::monitor::lemma_filter_distinct(orig, pred, a, b);
                let (i2, j2) = choose|i2: int, j2: int|
                    0 <= i2 < j2 < orig.len() && orig.filter(pred)[a] == orig[i2] && orig.filter(
                        pred,
                    )[b] == orig[j2];
            };
            assert forall|x: int, y: int, mx: int, my: int|
                #![trigger stops@[x], stops@[y], orig[mx], orig[my]]
                0 <= x < y < stops@.len() && 0 <= mx < orig.len() && 0 <= my < orig.len() && (
                stops@[x] matches OrchAction::Stop { name: nx, .. } && nx@
                    == orig[mx].name@) && (stops@[y] matches OrchAction::Stop {
                name: ny,
                ..
            } && ny@ == orig[my].name@) implies my < mx by {
                let sx = stop_src_exec@[x];
                let sy = stop_src_exec@[y];
                assert(orig[sx].name@ == orig[mx].name@);
                assert(orig[sy].name@ == orig[my].name@);
                assert(mx == sx && my == sy) by {
                    if mx != sx {
                        if mx < sx {
                            assert(orig[mx].name@ != orig[sx].name@);
                        } else {
                            assert(orig[sx].name@ != orig[mx].name@);
                        }
                    }
                    if my != sy {
                        if my < sy {
                            assert(orig[my].name@ != orig[sy].name@);
                        } else {
                            assert(orig[sy].name@ != orig[my].name@);
                        }
                    }
                }
            };
        }
        stops
    }
}

/// Whether a group with this name is declared.
pub open spec fn group_declared(groups: Seq<Group>, nm: Seq<char>) -> bool {
    exists|g: int| 0 <= g < groups.len() && groups[g].name@ == nm
}

/// Whether a configuration is acceptable: service names unique, every
/// referenced group declared, and the dependency graph acyclic.
pub open spec fn config_valid(c: &MonocoreConfig) -> bool {
    &&& unique_service_names(c.services@)
    &&& forall|i: int|
        0 <= i < c.services@.len() ==> #[trigger] group_declared(
            c.groups@,
            c.services@[i].group@,
        )
    &&& sortable(c.services@)
}

/// Validates a configuration and returns a topological order of its
/// services.
///
/// Fails with `InvalidConfig` exactly when a service name repeats or a
/// service names an undeclared group, and with `DependencyCycle` exactly
/// when the dependency graph admits no topological order.
pub fn validate_config(config: &MonocoreConfig) -> (r: MonocoreResult<Vec<usize>>)
    ensures
        match r {
            Result::Ok(order) => config_valid(config) && valid_order(
                config.services@,
                order@.map_values(|u: usize| u as int),
            ),
            Result::Err(e) => !config_valid(config) && (e matches MonocoreError::InvalidConfig(_)
                || e == MonocoreError::DependencyCycle),
        },
{
    let services = &config.services;
    let n = services.len();
    let mut i: usize = 0;
    while i < n
        invariant
            n == services@.len(),
            services == config.services,
            0 <= i <= n,
            forall|a: int, b: int| 0 <= a < b < i ==> services@[a].name@ != services@[b].name@,
            forall|a: int|
                0 <= a < i ==> #[trigger] group_declared(config.groups@, services@[a].group@),
        decreases n - i,
    {
        // unique names
        let mut j: usize = 0;
        while j < i
            invariant
                n == services@.len(),
                services == config.services,
                0 <= j <= i < n,
                forall|b: int| 0 <= b < j ==> services@[b].name@ != services@[i as int].name@,
            decreases i - j,
        {
            if crate::state::string_eq(services[j].name.as_str(), services[i].name.as_str()) {
                return Result::Err(MonocoreError::InvalidConfig(services[i].name.clone()));
            }
            j += 1;
        }
        // group exists
        let mut g: usize = 0;
        let mut found = false;
        while g < config.groups.len()
            invariant
                n == services@.len(),
                services == config.services,
                i < n,
                0 <= g <= config.groups@.len(),
                found ==> group_declared(config.groups@, services@[i as int].group@),
                !found ==> forall|g2: int|
                    0 <= g2 < g ==> config.groups@[g2].name@ != services@[i as int].group@,
            decreases config.groups@.len() - g,
        {
            if crate::state::string_eq(config.groups[g].name.as_str(), services[i].group.as_str())
                {
                found = true;
            }
            g += 1;
        }
        if !found {
            proof {
                assert(!config_valid(config)) by {
                    if config_valid(config) {
                        assert(group_declared(config.groups@, config.services@[i as int].group@));
                        let g2 = choose|g2: int|
                            0 <= g2 < config.groups@.len() && config.groups@[g2].name@
                                == services@[i as int].group@;
                        assert(config.groups@[g2].name@ != services@[i as int].group@);
                    }
                }
            }
            return Result::Err(MonocoreError::InvalidConfig(services[i].group.clone()));
        }
        i += 1;
    }
    match topological_order(services) {
        Result::Ok(order) => {
            proof {
                assert(valid_order(
                    config.services@,
                    order@.map_values(|u: usize| u as int),
                ));
                assert(sortable(config.services@));
                assert(unique_service_names(config.services@));
                assert forall|i2: int|
                    0 <= i2 < config.services@.len() implies #[trigger] group_declared(
                    config.groups@,
                    config.services@[i2].group@,
                ) by {
                    assert(group_declared(config.groups@, services@[i2].group@));
                }
                assert(config_valid(config));
            }
            Result::Ok(order)
        },
        Result::Err(e) => {
            proof {
                assert(!config_valid(config));
            }
            Result::Err(e)
        },
    }
}

/// A set rebuilt along a topological order, entry for entry from the
/// desired services, is well formed and realizes them.
#[verifier::rlimit(100)]
proof fn lemma_rebuild_reconciled(new_rs: Seq<RunningService>, ss: Seq<Service>, gorder: Seq<int>)
    requires
        valid_order(ss, gorder),
        unique_service_names(ss),
        new_rs.len() == gorder.len(),
        forall|k: int| 0 <= k < new_rs.len() ==> #[trigger] new_rs[k].name@ == ss[gorder[k]].name@,
        forall|k: int|
            0 <= k < new_rs.len() ==> entry_realizes(#[trigger] new_rs[k], ss[gorder[k]]),
    ensures
        reconciled(new_rs, ss),
        forall|a: int, b: int| 0 <= a < b < new_rs.len() ==> new_rs[a].name@ != new_rs[b].name@,
{
    assert forall|a: int, b: int|
        0 <= a < b < new_rs.len() implies new_rs[a].name@ != new_rs[b].name@ by {
        assert(gorder[a] != gorder[b]);
        if gorder[a] < gorder[b] {
            assert(ss[gorder[a]].name@ != ss[gorder[b]].name@);
        } else {
            assert(ss[gorder[b]].name@ != ss[gorder[a]].name@);
        }
    }
    assert forall|i: int| 0 <= i < ss.len() implies #[trigger] matched_by(new_rs, ss[i]) by {
        assert(appears_int(gorder, i));
        let p = choose|p: int| 0 <= p < gorder.len() && gorder[p] == i;
        assert(entry_realizes(new_rs[p], ss[gorder[p]]));
        assert(entry_realizes(new_rs[p], ss[i]));
    }
    assert forall|k: int|
        0 <= k < new_rs.len() implies services_have_name(ss, #[trigger] new_rs[k].name@) by {
        assert(ss[gorder[k]].name@ == new_rs[k].name@);
    }
    assert(reconciled(new_rs, ss));
}

/// The stop actions for a running set against desired services: one per
/// entry that no desired service matches, in reverse spawn order.
fn compute_stops(running: &Vec<RunningService>, services: &Vec<Service>) -> (stops: Vec<
    OrchAction,
>)
    requires
        forall|i: int, j: int|
            0 <= i < j < running@.len() ==> running@[i].name@ != running@[j].name@,
    ensures
        forall|x: int|
            0 <= x < stops@.len() ==> ((#[trigger] stops@[x]) matches OrchAction::Stop {
                name,
                supervisor_pid,
            } && exists|m2: int|
                0 <= m2 < running@.len() && running@[m2].name@ == name@
                    && running@[m2].supervisor_pid == supervisor_pid && !entry_matched(
                    running@[m2],
                    services@,
                )),
        reconciled(running@, services@) ==> stops@.len() == 0,
{
    let ghost olds = running@;
    let ghost ss = services@;
    let mut stops: Vec<OrchAction> = Vec::new();
    let mut m: usize = running.len();
    while m > 0
        invariant
            olds == running@,
            ss == services@,
            forall|i: int, j: int| 0 <= i < j < olds.len() ==> olds[i].name@ != olds[j].name@,
            0 <= m <= olds.len(),
            forall|x: int|
                0 <= x < stops@.len() ==> ((#[trigger] stops@[x]) matches OrchAction::Stop {
                    name,
                    supervisor_pid,
                } && exists|m2: int|
                    0 <= m2 < olds.len() && olds[m2].name@ == name@ && olds[m2].supervisor_pid
                        == supervisor_pid && !entry_matched(olds[m2], ss)),
            reconciled(olds, ss) ==> stops@.len() == 0,
        decreases m,
    {
        m -= 1;
        let e = &running[m];
        let mut matched = false;
        let mut i: usize = 0;
        while i < services.len()
            invariant
                olds == running@,
                ss == services@,
                m < olds.len(),
                e == olds[m as int],
                0 <= i <= ss.len(),
                matched ==> entry_matched(olds[m as int], ss),
                !matched ==> forall|i2: int|
                    0 <= i2 < i ==> !#[trigger] entry_realizes(olds[m as int], ss[i2]),
            decreases ss.len() - i,
        {
            let mut this_one = false;
            if crate::state::string_eq(e.name.as_str(), services[i].name.as_str()) {
                match &e.descriptor {
                    Option::Some(d) => {
                        if d.same_as(&services[i]) {
                            this_one = true;
                        }
                    },
                    Option::None => {},
                }
            }
            proof {
                if this_one {
                    assert(entry_realizes(olds[m as int], ss[i as int]));
                    assert(entry_matched(olds[m as int], ss));
                } else {
                    assert(!entry_realizes(olds[m as int], ss[i as int]));
                }
            }
            if this_one {
                matched = true;
            }
            i += 1;
        }
        if !matched {
            proof {
                assert(!entry_matched(olds[m as int], ss)) by {
                    if entry_matched(olds[m as int], ss) {
                        let i2 = choose|i2: int|
                            0 <= i2 < ss.len() && #[trigger] entry_realizes(
                                olds[m as int],
                                ss[i2],
                            );
                    }
                }
                if reconciled(olds, ss) {
                    assert(services_have_name(ss, olds[m as int].name@));
                    let i2 = choose|i2: int|
                        0 <= i2 < ss.len() && ss[i2].name@ == olds[m as int].name@;
                    assert(matched_by(olds, ss[i2]));
                    let k2 = choose|k2: int|
                        0 <= k2 < olds.len() && #[trigger] entry_realizes(olds[k2], ss[i2]);
                    assert(olds[k2].name@ == ss[i2].name@);
                    assert(k2 == m as int) by {
                        if k2 != m as int {
                            if k2 < m as int {
                                assert(olds[k2].name@ != olds[m as int].name@);
                            } else {
                                assert(olds[m as int].name@ != olds[k2].name@);
                            }
                        }
                    }
                    assert(entry_realizes(olds[m as int], ss[i2]));
                    assert(false);
                }
            }
            stops.push(
                OrchAction::Stop { name: e.name.clone(), supervisor_pid: e.supervisor_pid },
            );
        }
    }
    stops
}

/// Stops followed by topologically ordered spawns respect the dependency
/// graph.
proof fn lemma_actions_deps(
    actions: Seq<OrchAction>,
    stops_snap: Seq<OrchAction>,
    spawns_snap: Seq<OrchAction>,
    spawn_src: Seq<int>,
    ss: Seq<Service>,
    gorder: Seq<int>,
)
    requires
        actions == stops_snap + spawns_snap,
        forall|x: int| 0 <= x < stops_snap.len() ==> (#[trigger] stops_snap[x]) is Stop,
        spawns_snap.len() == spawn_src.len(),
        forall|x: int, y: int| 0 <= x < y < spawn_src.len() ==> spawn_src[x] < spawn_src[y],
        forall|x: int| 0 <= x < spawn_src.len() ==> 0 <= #[trigger] spawn_src[x] < gorder.len(),
        forall|x: int|
            0 <= x < spawns_snap.len() ==> ((#[trigger] spawns_snap[x]) matches
            OrchAction::Spawn { name, .. } && name@ == ss[gorder[spawn_src[x]]].name@),
        valid_order(ss, gorder),
        unique_service_names(ss),
    ensures
        spawns_respect_deps(actions, ss),
{
    let stops_len = stops_snap.len() as int;
    assert forall|x: int, y: int, a: int, b: int|
        #![trigger actions[x], actions[y], dep_edge(ss, a, b)]
        0 <= x < actions.len() && 0 <= y < actions.len() && 0 <= a < ss.len() && 0 <= b < ss.len()
            && (actions[x] matches OrchAction::Spawn { name: nx, .. } && nx@ == ss[a].name@) && (
        actions[y] matches OrchAction::Spawn { name: ny, .. } && ny@ == ss[b].name@) && dep_edge(
            ss,
            a,
            b,
        ) implies y < x by {
        assert(x >= stops_len) by {
            if x < stops_len {
                assert(actions[x] == stops_snap[x]);
            }
        }
        assert(y >= stops_len) by {
            if y < stops_len {
                assert(actions[y] == stops_snap[y]);
            }
        }
        let x2 = x - stops_len;
        let y2 = y - stops_len;
        assert(actions[x] == spawns_snap[x2]);
        assert(actions[y] == spawns_snap[y2]);
        let pa = spawn_src[x2];
        let pb = spawn_src[y2];
        assert(ss[gorder[pa]].name@ == ss[a].name@);
        assert(gorder[pa] == a) by {
            if gorder[pa] != a {
                if gorder[pa] < a {
                    assert(ss[gorder[pa]].name@ != ss[a].name@);
                } else {
                    assert(ss[a].name@ != ss[gorder[pa]].name@);
                }
            }
        }
        assert(ss[gorder[pb]].name@ == ss[b].name@);
        assert(gorder[pb] == b) by {
            if gorder[pb] != b {
                if gorder[pb] < b {
                    assert(ss[gorder[pb]].name@ != ss[b].name@);
                } else {
                    assert(ss[b].name@ != ss[gorder[pb]].name@);
                }
            }
        }
        assert(dep_edge(ss, gorder[pa], gorder[pb]));
        assert(pb < pa);
        assert(y2 < x2) by {
            if y2 >= x2 {
                if y2 > x2 {
                    assert(spawn_src[x2] < spawn_src[y2]);
                }
            }
        }
    }
}

/// When everything was already reconciled and every rebuilt entry was
/// carried over, the rebuilt set holds exactly the old supervisor PIDs.
proof fn lemma_reconciled_pids(
    olds: Seq<RunningService>,
    ss: Seq<Service>,
    new_rs: Seq<RunningService>,
    gorder: Seq<int>,
)
    requires
        reconciled(olds, ss),
        forall|i: int, j: int| 0 <= i < j < olds.len() ==> olds[i].name@ != olds[j].name@,
        valid_order(ss, gorder),
        new_rs.len() == gorder.len(),
        forall|k: int| 0 <= k < new_rs.len() ==> #[trigger] new_rs[k].name@ == ss[gorder[k]].name@,
        forall|k: int| 0 <= k < new_rs.len() ==> kept_from(olds, #[trigger] new_rs[k]),
    ensures
        forall|p: u32| running_has_pid(new_rs, p) <==> running_has_pid(olds, p),
{
    assert forall|p: u32| running_has_pid(new_rs, p) <==> running_has_pid(olds, p) by {
        if running_has_pid(new_rs, p) {
            let k = choose|k: int| 0 <= k < new_rs.len() && new_rs[k].supervisor_pid == p;
            assert(kept_from(olds, new_rs[k]));
            let m3 = choose|m3: int|
                0 <= m3 < olds.len() && olds[m3].name@ == new_rs[k].name@
                    && olds[m3].supervisor_pid == new_rs[k].supervisor_pid && descriptors_eq(
                    olds[m3].descriptor,
                    new_rs[k].descriptor,
                );
        }
        if running_has_pid(olds, p) {
            let k = choose|k: int| 0 <= k < olds.len() && olds[k].supervisor_pid == p;
            assert(services_have_name(ss, olds[k].name@));
            let i2 = choose|i2: int| 0 <= i2 < ss.len() && ss[i2].name@ == olds[k].name@;
            assert(matched_by(olds, ss[i2]));
            assert(appears_int(gorder, i2));
            let q = choose|q: int| 0 <= q < gorder.len() && gorder[q] == i2;
            assert(new_rs[q].name@ == ss[i2].name@);
            assert(kept_from(olds, new_rs[q]));
            let m3 = choose|m3: int|
                0 <= m3 < olds.len() && olds[m3].name@ == new_rs[q].name@
                    && olds[m3].supervisor_pid == new_rs[q].supervisor_pid && descriptors_eq(
                    olds[m3].descriptor,
                    new_rs[q].descriptor,
                );
            assert(m3 == k) by {
                if m3 != k {
                    if m3 < k {
                        assert(olds[m3].name@ != olds[k].name@);
                    } else {
                        assert(olds[k].name@ != olds[m3].name@);
                    }
                }
            }
            assert(new_rs[q].supervisor_pid == p);
        }
    }
}

impl Orchestrator {
    /// Reconciles the running set to a configuration.
    ///
    /// Computes which supervisors to stop (running services that no desired
    /// service matches: removed or changed) and which to spawn (desired
    /// services no running entry matches), orders the spawns by the
    /// dependency graph, and rebuilds the running set so that it realizes
    /// the configuration exactly. The stop actions come first, in reverse
    /// spawn order; fresh supervisor PIDs for the spawns are drawn from
    /// `spawn_pids` in order.
    ///
    /// Fails, changing nothing, exactly when the configuration is invalid.
    #[verifier::rlimit(100)]
    pub fn up(&mut self, config: &MonocoreConfig, spawn_pids: &Vec<u32>) -> (r: MonocoreResult<
        Vec<OrchAction>,
    >)
        requires
            old(self).wf(),
            spawn_pids@.len() >= config.services@.len(),
            forall|i: int, j: int|
                0 <= i < j < spawn_pids@.len() ==> spawn_pids@[i] != spawn_pids@[j],
            forall|i: int, m: int|
                0 <= i < spawn_pids@.len() && 0 <= m < old(self).running@.len()
                    ==> spawn_pids@[i] != old(self).running@[m].supervisor_pid,
        ensures
            final(self).wf(),
            final(self).home_dir@ == old(self).home_dir@,
            final(self).supervisor_bin@ == old(self).supervisor_bin@,
            final(self).log_retention_secs == old(self).log_retention_secs,
            r is Ok <==> config_valid(config),
            r is Err ==> final(self).running@ == old(self).running@,
            r matches Result::Ok(actions) ==> {
                &&& reconciled(final(self).running@, config.services@)
                &&& spawns_respect_deps(actions@, config.services@)
                &&& forall|k: int|
                    0 <= k < final(self).running@.len() ==> kept_from(
                        old(self).running@,
                        #[trigger] final(self).running@[k],
                    ) || spawn_pids@.contains(final(self).running@[k].supervisor_pid)
                &&& forall|x: int|
                    0 <= x < actions@.len() ==> ((#[trigger] actions@[x]) matches
                    OrchAction::Stop { name, supervisor_pid } ==> exists|m: int|
                        0 <= m < old(self).running@.len() && old(self).running@[m].name@ == name@
                            && old(self).running@[m].supervisor_pid == supervisor_pid
                            && !entry_matched(old(self).running@[m], config.services@))
                &&& (reconciled(old(self).running@, config.services@) ==> actions@.len() == 0 && (
                forall|p: u32|
                    running_has_pid(final(self).running@, p) <==> running_has_pid(
                        old(self).running@,
                        p,
                    )))
            },
    {
        let order = match validate_config(config) {
            Result::Ok(order) => order,
            Result::Err(e) => {
                return Result::Err(e);
            },
        };
        let services = &config.services;
        let ghost ss = services@;
        let ghost olds = self.running@;
        let ghost gorder = order@.map_values(|u: usize| u as int);
        // stop every running entry that no desired service matches, in
        // reverse spawn order
        let stops: Vec<OrchAction> = compute_stops(&self.running, services);
        // rebuild the running set in dependency order, spawning where no
        // running entry matches
        let mut new_running: Vec<RunningService> = Vec::new();
        let mut spawns: Vec<OrchAction> = Vec::new();
        let mut spawn_src: Ghost<Seq<int>> = Ghost(Seq::<int>::empty());
        let mut spawn_count: usize = 0;
        let mut t: usize = 0;
        while t < order.len()
            invariant
                olds == self.running@,
                olds == old(self).running@,
                old(self).wf(),
                ss == services@,
                services == config.services,
                gorder == order@.map_values(|u: usize| u as int),
                valid_order(ss, gorder),
                config_valid(config),
                spawn_pids@.len() >= ss.len(),
                forall|i: int, j: int|
                    0 <= i < j < spawn_pids@.len() ==> spawn_pids@[i] != spawn_pids@[j],
                0 <= t <= order@.len(),
                order@.len() == ss.len(),
                new_running@.len() == t,
                spawn_count <= t,
                forall|k: int|
                    0 <= k < t ==> #[trigger] new_running@[k].name@ == ss[gorder[k]].name@,
                forall|k: int|
                    0 <= k < t ==> entry_realizes(#[trigger] new_running@[k], ss[gorder[k]]),
                forall|k: int|
                    0 <= k < t ==> kept_from(olds, #[trigger] new_running@[k])
                        || spawn_pids@.contains(new_running@[k].supervisor_pid),
                spawns@.len() == spawn_count,
                spawns@.len() == spawn_src@.len(),
                forall|x: int, y: int|
                    0 <= x < y < spawns@.len() ==> spawn_src@[x] < spawn_src@[y],
                forall|x: int|
                    0 <= x < spawns@.len() ==> 0 <= #[trigger] spawn_src@[x] < t,
                forall|x: int|
                    0 <= x < spawns@.len() ==> ((#[trigger] spawns@[x]) matches
                    OrchAction::Spawn { name, supervisor_pid } && name@ == ss[gorder[spawn_src@[x]]].name@),
                reconciled(olds, ss) ==> spawns@.len() == 0,
                reconciled(olds, ss) ==> forall|k: int|
                    0 <= k < t ==> kept_from(olds, #[trigger] new_running@[k]),
            decreases order@.len() - t,
        {
            let idx = order[t];
            proof {
                assert(gorder[t as int] == idx as int);
                assert(0 <= idx < ss.len());
            }
            let svc = &services[idx];
            // look for a running entry this service already matches
            let mut found: Option<usize> = Option::None;
            let mut m2: usize = 0;
            while m2 < self.running.len()
                invariant
                    olds == self.running@,
                    ss == services@,
                    services == config.services,
                    idx < ss.len(),
                    svc == ss[idx as int],
                    0 <= m2 <= olds.len(),
                    found matches Option::Some(mm) ==> mm < olds.len() && entry_realizes(
                        olds[mm as int],
                        ss[idx as int],
                    ),
                    found is None ==> forall|m3: int|
                        0 <= m3 < m2 ==> !#[trigger] entry_realizes(olds[m3], ss[idx as int]),
                decreases olds.len() - m2,
            {
                if found.is_none() {
                    let e = &self.running[m2];
                    let mut this_one = false;
                    if crate::state::string_eq(e.name.as_str(), svc.name.as_str()) {
                        match &e.descriptor {
                            Option::Some(d) => {
                                if d.same_as(svc) {
                                    this_one = true;
                                }
                            },
                            Option::None => {},
                        }
                    }
                    proof {
                        if this_one {
                            assert(entry_realizes(olds[m2 as int], ss[idx as int]));
                        } else {
                            assert(!entry_realizes(olds[m2 as int], ss[idx as int]));
                        }
                    }
                    if this_one {
                        found = Option::Some(m2);
                    }
                }
                m2 += 1;
            }
            match found {
                Option::Some(mm) => {
                    let pid = self.running[mm].supervisor_pid;
                    new_running.push(
                        RunningService {
                            name: svc.name.clone(),
                            supervisor_pid: pid,
                            descriptor: Option::Some(svc.duplicate()),
                        },
                    );
                    proof {
                        assert(kept_from(olds, new_running@[t as int]));
                    }
                },
                Option::None => {
                    proof {
                        if reconciled(olds, ss) {
                            assert(matched_by(olds, ss[idx as int]));
                            let k2 = choose|k2: int|
                                0 <= k2 < olds.len() && #[trigger] entry_realizes(
                                    olds[k2],
                                    ss[idx as int],
                                );
                            assert(false);
                        }
                    }
                    let pid = spawn_pids[spawn_count];
                    spawns.push(
                        OrchAction::Spawn { name: svc.name.clone(), supervisor_pid: pid },
                    );
                    proof {
                        spawn_src@ = spawn_src@.push(t as int);
                    }
                    new_running.push(
                        RunningService {
                            name: svc.name.clone(),
                            supervisor_pid: pid,
                            descriptor: Option::Some(svc.duplicate()),
                        },
                    );
                    spawn_count += 1;
                    proof {
                        assert(spawn_pids@.contains(
                            new_running@[t as int].supervisor_pid,
                        )) by {
                            assert(spawn_pids@[spawn_count - 1int]
                                == new_running@[t as int].supervisor_pid);
                        }
                    }
                },
            }
            t += 1;
        }
        let ghost new_rs = new_running@;
        proof {
            lemma_rebuild_reconciled(new_rs, ss, gorder);
        }
        self.running = new_running;
        // stops first, then spawns in dependency order
        let ghost stops_snap = stops@;
        let ghost spawns_snap = spawns@;
        let mut actions = stops;
        let mut spawns = spawns;
        actions.append(&mut spawns);
        proof {
            assert(actions@ == stops_snap + spawns_snap);
            assert forall|x: int|
                0 <= x < stops_snap.len() implies (#[trigger] stops_snap[x]) is Stop by {}
            lemma_actions_deps(actions@, stops_snap, spawns_snap, spawn_src@, ss, gorder);
            assert(self.running@ == new_rs);
            assert(reconciled(self.running@, config.services@));
            assert forall|k: int|
                0 <= k < self.running@.len() implies kept_from(
                old(self).running@,
                #[trigger] self.running@[k],
            ) || spawn_pids@.contains(self.running@[k].supervisor_pid) by {
                assert(self.running@[k] == new_rs[k]);
                assert(kept_from(olds, new_rs[k]) || spawn_pids@.contains(
                    new_rs[k].supervisor_pid,
                ));
            }
            assert forall|x: int|
                0 <= x < actions@.len() implies ((#[trigger] actions@[x]) matches
            OrchAction::Stop { name, supervisor_pid } ==> exists|m3: int|
                0 <= m3 < olds.len() && olds[m3].name@ == name@ && olds[m3].supervisor_pid
                    == supervisor_pid && !entry_matched(olds[m3], ss)) by {
                if x < stops_snap.len() {
                    assert(actions@[x] == stops_snap[x]);
                } else {
                    assert(actions@[x] == spawns_snap[x - stops_snap.len()]);
                }
            }
            if reconciled(old(self).running@, config.services@) {
                assert(actions@.len() == 0);
                lemma_reconciled_pids(olds, ss, new_rs, gorder);
                assert(forall|p: u32|
                    running_has_pid(self.running@, p) <==> running_has_pid(
                        old(self).running@,
                        p,
                    ));
            }
            assert forall|a2: int, b2: int|
                0 <= a2 < b2 < self.running@.len() implies self.running@[a2].name@
                != self.running@[b2].name@ by {
                assert(self.running@[a2] == new_rs[a2] && self.running@[b2] == new_rs[b2]);
                assert(new_rs[a2].name@ != new_rs[b2].name@);
            }
            assert(self.wf());
        }
        Result::Ok(actions)
    }
}

/// A power of two.
pub open spec fn pow2(k: nat) -> nat
    decreases k,
{
    if k == 0 {
        1nat
    } else {
        2 * pow2((k - 1) as nat)
    }
}

/// The addresses a subnet can assign lie strictly between its network
/// address and its broadcast address.
pub open spec fn assignable(subnet: crate::state::Subnet, addr: u32) -> bool {
    subnet.network < addr < subnet.network + pow2((32 - subnet.prefix) as nat) - 1
}

/// Picks the lowest assignable address of a group's subnet not already in
/// use: deterministic, skipping the network and broadcast addresses.
///
/// Returns `None` exactly when every assignable address is used.
pub fn allocate_ip(subnet: crate::state::Subnet, used: &Vec<u32>) -> (r: Option<u32>)
    requires
        subnet.prefix <= 30,
        subnet.network + pow2((32 - subnet.prefix) as nat) - 1 <= u32::MAX,
    ensures
        match r {
            Option::Some(ip) => assignable(subnet, ip) && !used@.contains(ip) && forall|a: u32|
                assignable(subnet, a) && a < ip ==> used@.contains(a),
            Option::None => forall|a: u32| assignable(subnet, a) ==> used@.contains(a),
        },
{
    let width = 32 - subnet.prefix;
    proof {
        lemma_pow2_increases(0, width as nat);
        lemma_pow2_32();
        lemma_pow2_increases(width as nat, 32);
    }
    let mut size: u64 = 1;
    let mut k: u8 = 0;
    while k < width
        invariant
            0 <= k <= width <= 32,
            size == pow2(k as nat),
            size <= pow2(width as nat),
            pow2(width as nat) <= 0x100000000,
        decreases width - k,
    {
        proof {
            lemma_pow2_increases((k + 1) as nat, width as nat);
        }
        size = size * 2;
        k += 1;
    }
    proof {
        assert(pow2(2) == 4) by {
            reveal_with_fuel(pow2, 3);
        }
        lemma_pow2_increases(2, width as nat);
    }
    let mut offset: u64 = 1;
    while offset < size - 1
        invariant
            subnet.prefix <= 30,
            size == pow2((32 - subnet.prefix) as nat),
            4 <= size <= 0x100000000,
            subnet.network + size - 1 <= u32::MAX,
            1 <= offset <= size - 1,
            forall|a: u32|
                assignable(subnet, a) && a < subnet.network + offset ==> used@.contains(a),
        decreases size - offset,
    {
        let candidate = subnet.network + (offset as u32);
        let mut present = false;
        let mut j: usize = 0;
        while j < used.len()
            invariant
                0 <= j <= used@.len(),
                present ==> used@.contains(candidate),
                !present ==> forall|p: int| 0 <= p < j ==> used@[p] != candidate,
            decreases used@.len() - j,
        {
            if used[j] == candidate {
                present = true;
            }
            j += 1;
        }
        if !present {
            proof {
                if used@.contains(candidate) {
                    let p = choose|p: int| 0 <= p < used@.len() && used@[p] == candidate;
                }
            }
            return Option::Some(candidate);
        }
        offset += 1;
    }
    proof {
        assert(pow2((32 - subnet.prefix) as nat) >= 4) by {
            lemma_pow2_increases(2, (32 - subnet.prefix) as nat);
        }
    }
    Option::None
}

/// `2^32` written out.
proof fn lemma_pow2_32()
    ensures
        pow2(32) == 0x100000000,
{
    reveal_with_fuel(pow2, 33);
}

/// Powers of two never shrink as the exponent grows.
proof fn lemma_pow2_increases(a: nat, b: nat)
    requires
        a <= b,
    ensures
        pow2(a) <= pow2(b),
    decreases b,
{
    if a < b {
        lemma_pow2_increases(a, (b - 1) as nat);
        assert(pow2((b - 1) as nat) <= 2 * pow2((b - 1) as nat)) by (nonlinear_arith)
            requires
                pow2((b - 1) as nat) >= 0,
        ;
    }
}

/// One step of filtering a suffix: the filtered suffix at `i` is the entry
/// at `i` (if it passes) followed by the filtered suffix at `i + 1`.
proof fn lemma_filter_skip_step(s: Seq<RunningService>, pred: spec_fn(RunningService) -> bool, i: int)
    requires
        0 <= i < s.len(),
    ensures
        s.skip(i).filter(pred) == if pred(s[i]) {
            seq![s[i]] + s.skip(i + 1).filter(pred)
        } else {
            s.skip(i + 1).filter(pred)
        },
    decreases s.len() - i,
{
    reveal(Seq::filter);
    lemma_filter_cons(s.skip(i), pred);
    assert(s.skip(i).drop_first() =~= s.skip(i + 1));
    assert(s.skip(i)[0] == s[i]);
}

/// Filtering separates the head from the tail.
proof fn lemma_filter_cons(s: Seq<RunningService>, pred: spec_fn(RunningService) -> bool)
    requires
        s.len() > 0,
    ensures
        s.filter(pred) == if pred(s[0]) {
            seq![s[0]] + s.drop_first().filter(pred)
        } else {
            s.drop_first().filter(pred)
        },
    decreases s.len(),
{
    reveal(Seq::filter);
    if s.len() == 1 {
        assert(s.drop_last() =~= Seq::<RunningService>::empty());
        assert(s.drop_first() =~= Seq::<RunningService>::empty());
        if pred(s[0]) {
            assert(s.filter(pred) =~= seq![s[0]] + s.drop_first().filter(pred));
        }
    } else {
        lemma_filter_cons(s.drop_last(), pred);
        assert(s.drop_last()[0] == s[0]);
        assert(s.drop_last().drop_first() =~= s.drop_first().drop_last());
        assert(s.drop_first().last() == s.last());
        if pred(s.last()) {
            if pred(s[0]) {
                assert(s.filter(pred) =~= seq![s[0]] + s.drop_first().filter(pred)) by {
                    assert(s.filter(pred) == s.drop_last().filter(pred).push(s.last()));
                    assert(s.drop_first().filter(pred) == s.drop_first().drop_last().filter(
                        pred,
                    ).push(s.last()));
                }
            } else {
                assert(s.filter(pred) =~= s.drop_first().filter(pred)) by {
                    assert(s.filter(pred) == s.drop_last().filter(pred).push(s.last()));
                    assert(s.drop_first().filter(pred) == s.drop_first().drop_last().filter(
                        pred,
                    ).push(s.last()));
                }
            }
        } else {
            if pred(s[0]) {
                assert(s.filter(pred) =~= seq![s[0]] + s.drop_first().filter(pred)) by {
                    assert(s.drop_first().filter(pred) == s.drop_first().drop_last().filter(pred));
                }
            } else {
                assert(s.filter(pred) =~= s.drop_first().filter(pred)) by {
                    assert(s.drop_first().filter(pred) == s.drop_first().drop_last().filter(pred));
                }
            }
        }
    }
}

} // verus!
