//! The dispatcher: registered systems declare a unique name, predecessor
//! names and the resources they read or write. Building resolves the
//! names, rejects conflicting access declarations and cyclic dependency
//! graphs, and fixes an execution order consistent with the declared
//! predecessors; running executes one tick in that order.

use vstd::prelude::*;

use crate::EcsError;
use crate::inventory_system::{pickup_rel, pickup_safe, pickup_tick};
use crate::kv::{lemma_sum_by_update, sum_by};
use crate::movement_system::{movement_rel, movement_safe, movement_tick};
use crate::world::{ResourceId, World};

verus! {

/// The closed set of system behaviours the dispatcher can run. An
/// observer reads whatever it declares and changes nothing; it stands
/// for reporting systems.
#[derive(Clone, Copy, Debug, PartialEq, Eq, Structural)]
pub enum SystemKind {
    Movement,
    Pickup,
    Observer,
}

/// What a registered system declares: its unique name, the names of the
/// systems that must run before it each tick, the resources it reads
/// (shared) and writes (exclusive), and which behaviour it runs.
pub struct SystemSpec {
    pub name: String,
    pub deps: Vec<String>,
    pub reads: Vec<ResourceId>,
    pub writes: Vec<ResourceId>,
    pub kind: SystemKind,
}

impl SystemSpec {
    pub fn new(
        name: String,
        deps: Vec<String>,
        reads: Vec<ResourceId>,
        writes: Vec<ResourceId>,
        kind: SystemKind,
    ) -> (s: Self)
        ensures
            s.name == name,
            s.deps == deps,
            s.reads == reads,
            s.writes == writes,
            s.kind == kind,
    {
        SystemSpec { name, deps, reads, writes, kind }
    }

    /// The canonical kinematics declaration: reads target positions and
    /// velocities, writes current positions.
    pub fn movement(name: String, deps: Vec<String>) -> (s: Self)
        ensures
            s.name == name,
            s.deps == deps,
            s.kind == SystemKind::Movement,
            s.reads@ == seq![ResourceId::EndPositions, ResourceId::Velocities],
            s.writes@ == seq![ResourceId::StartPositions],
            !access_conflict(s),
    {
        let reads = vec![ResourceId::EndPositions, ResourceId::Velocities];
        let writes = vec![ResourceId::StartPositions];
        let s = SystemSpec { name, deps, reads, writes, kind: SystemKind::Movement };
        proof {
            assert(s.reads@ =~= seq![ResourceId::EndPositions, ResourceId::Velocities]);
            assert(s.writes@ =~= seq![ResourceId::StartPositions]);
        }
        s
    }

    /// The canonical pickup declaration: reads current positions, writes
    /// inventories and the asset map.
    pub fn pickup(name: String, deps: Vec<String>) -> (s: Self)
        ensures
            s.name == name,
            s.deps == deps,
            s.kind == SystemKind::Pickup,
            s.reads@ == seq![ResourceId::StartPositions],
            s.writes@ == seq![ResourceId::Inventories, ResourceId::Assets],
            !access_conflict(s),
    {
        let reads = vec![ResourceId::StartPositions];
        let writes = vec![ResourceId::Inventories, ResourceId::Assets];
        let s = SystemSpec { name, deps, reads, writes, kind: SystemKind::Pickup };
        proof {
            assert(s.reads@ =~= seq![ResourceId::StartPositions]);
            assert(s.writes@ =~= seq![ResourceId::Inventories, ResourceId::Assets]);
        }
        s
    }

    /// The canonical observer declaration: reads everything, writes
    /// nothing.
    pub fn observer(name: String, deps: Vec<String>) -> (s: Self)
        ensures
            s.name == name,
            s.deps == deps,
            s.kind == SystemKind::Observer,
            s.reads@ == seq![
                ResourceId::StartPositions,
                ResourceId::EndPositions,
                ResourceId::Velocities,
                ResourceId::Inventories,
                ResourceId::Assets,
            ],
            s.writes@ == Seq::<ResourceId>::empty(),
            !access_conflict(s),
    {
        let reads = vec![
            ResourceId::StartPositions,
            ResourceId::EndPositions,
            ResourceId::Velocities,
            ResourceId::Inventories,
            ResourceId::Assets,
        ];
        let writes: Vec<ResourceId> = Vec::new();
        let s = SystemSpec { name, deps, reads, writes, kind: SystemKind::Observer };
        proof {
            assert(s.reads@ =~= seq![
                ResourceId::StartPositions,
                ResourceId::EndPositions,
                ResourceId::Velocities,
                ResourceId::Inventories,
                ResourceId::Assets,
            ]);
            assert(s.writes@ =~= Seq::<ResourceId>::empty());
        }
        s
    }
}

/// A system that declares the same resource as read and written asks
/// for shared and exclusive access at once: the access-discipline
/// violation the dispatcher rejects.
pub open spec fn access_conflict(s: SystemSpec) -> bool {
    exists|i: int, j: int|
        0 <= i < s.reads@.len() && 0 <= j < s.writes@.len() && s.reads@[i] == s.writes@[j]
}

/// Whether some registered system's own declaration conflicts.
pub open spec fn any_conflict(ss: Seq<SystemSpec>) -> bool {
    exists|a: int| 0 <= a < ss.len() && #[trigger] access_conflict(ss[a])
}

/// System `a` declares the name of system `b` as a predecessor.
pub open spec fn dep_edge(ss: Seq<SystemSpec>, a: int, b: int) -> bool {
    exists|d: int| 0 <= d < ss[a].deps@.len() && (#[trigger] ss[a].deps@[d])@ == ss[b].name@
}

/// The predecessor name at position `d` of system `a` is registered.
pub open spec fn dep_known(ss: Seq<SystemSpec>, a: int, d: int) -> bool {
    exists|b: int| 0 <= b < ss.len() && (#[trigger] ss[b]).name@ == ss[a].deps@[d]@
}

/// Every declared predecessor name is registered.
pub open spec fn all_deps_known(ss: Seq<SystemSpec>) -> bool {
    forall|a: int, d: int|
        0 <= a < ss.len() && 0 <= d < ss[a].deps@.len() ==> #[trigger] dep_known(ss, a, d)
}

/// No two registered systems share a name.
pub open spec fn names_unique(ss: Seq<SystemSpec>) -> bool {
    forall|a: int, b: int| 0 <= a < b < ss.len() ==> ss[a].name@ != ss[b].name@
}

/// Whether some position of `ord` holds the index `x`.
pub open spec fn appears(ord: Seq<usize>, x: int) -> bool {
    exists|p: int| 0 <= p < ord.len() && (#[trigger] ord[p]) == x
}

/// `ord` is an execution order for `ss`: a permutation of all system
/// indices in which every system comes after all of its declared
/// predecessors.
pub open spec fn valid_order(ss: Seq<SystemSpec>, ord: Seq<usize>) -> bool {
    &&& ord.len() == ss.len()
    &&& forall|p: int| 0 <= p < ord.len() ==> (#[trigger] ord[p]) < ss.len()
    &&& forall|p: int, q: int| 0 <= p < q < ord.len() ==> ord[p] != ord[q]
    &&& forall|x: int| 0 <= x < ss.len() ==> #[trigger] appears(ord, x)
    &&& forall|p: int, q: int|
        0 <= p < ord.len() && 0 <= q < ord.len() && dep_edge(
            ss,
            #[trigger] ord[p] as int,
            #[trigger] ord[q] as int,
        ) ==> q < p
}

/// The number of scheduled systems: how many entries of `s` are true.
spec fn count_done(s: Seq<bool>) -> int {
    sum_by(
        s,
        |b: bool|
            if b {
                1int
            } else {
                0int
            },
    )
}

/// Scheduling one more system increments the count.
proof fn lemma_count_done_update(s: Seq<bool>, i: int)
    requires
        0 <= i < s.len(),
        !s[i],
    ensures
        count_done(s.update(i, true)) == count_done(s) + 1,
{
    lemma_sum_by_update(
        s,
        |b: bool|
            if b {
                1int
            } else {
                0int
            },
        i,
        true,
    );
}

/// The count never exceeds the length.
proof fn lemma_count_done_le_len(s: Seq<bool>)
    ensures
        count_done(s) <= s.len(),
    decreases s.len(),
{
    if s.len() == 0 {
    } else {
        lemma_count_done_le_len(s.subrange(1, s.len() as int));
    }
}

/// When the count reaches the length, every system is scheduled.
proof fn lemma_count_done_full(s: Seq<bool>)
    requires
        count_done(s) == s.len(),
    ensures
        forall|i: int| 0 <= i < s.len() ==> s[i],
    decreases s.len(),
{
    if s.len() == 0 {
    } else {
        let t = s.subrange(1, s.len() as int);
        lemma_count_done_le_len(t);
        assert(s[0]);
        lemma_count_done_full(t);
        assert(forall|i: int| 0 < i < s.len() ==> s[i] == t[i - 1]);
    }
}

/// When every system is scheduled, the count is the length.
proof fn lemma_count_done_all_true(s: Seq<bool>)
    requires
        forall|i: int| 0 <= i < s.len() ==> s[i],
    ensures
        count_done(s) == s.len(),
    decreases s.len(),
{
    if s.len() == 0 {
    } else {
        let t = s.subrange(1, s.len() as int);
        assert(forall|a: int| 0 <= a < t.len() ==> t[a] == s[a + 1]);
        lemma_count_done_all_true(t);
    }
}

/// System `x` has a declared predecessor that is not yet scheduled.
spec fn blocked(ss: Seq<SystemSpec>, done: Seq<bool>, x: int) -> bool {
    exists|b: int| 0 <= b < ss.len() && #[trigger] dep_edge(ss, x, b) && !done[b]
}

/// From any plan position holding an unscheduled system, the earliest
/// such position: everything before it is scheduled.
proof fn lemma_first_unscheduled(ord2: Seq<usize>, done: Seq<bool>, p0: int) -> (p: int)
    requires
        0 <= p0 < ord2.len(),
        forall|q: int| 0 <= q < ord2.len() ==> (ord2[q] as int) < done.len(),
        !done[ord2[p0] as int],
    ensures
        0 <= p <= p0,
        !done[ord2[p] as int],
        forall|q: int| 0 <= q < p ==> done[ord2[q] as int],
    decreases p0,
{
    if exists|q: int| 0 <= q < p0 && !(#[trigger] done[ord2[q] as int]) {
        let q0 = choose|q: int| 0 <= q < p0 && !(#[trigger] done[ord2[q] as int]);
        lemma_first_unscheduled(ord2, done, q0)
    } else {
        p0
    }
}

/// The index of the system registered under `name`, scanning in
/// registration order.
fn find_by_name(systems: &Vec<SystemSpec>, name: &String) -> (r: Option<usize>)
    ensures
        match r {
            Some(b) => b < systems@.len() && systems@[b as int].name@ == name@,
            None => forall|b: int| 0 <= b < systems@.len() ==> systems@[b].name@ != name@,
        },
{
    let n = systems.len();
    let mut b: usize = 0;
    while b < n
        invariant
            n == systems@.len(),
            0 <= b <= n,
            forall|c: int| 0 <= c < b ==> systems@[c].name@ != name@,
        decreases n - b,
    {
        if systems[b].name == *name {
            return Some(b);
        }
        b = b + 1;
    }
    None
}

/// Whether every predecessor of system `a` is already scheduled. A true
/// result covers every dependency edge out of `a`.
fn deps_done(systems: &Vec<SystemSpec>, done: &Vec<bool>, a: usize) -> (r: bool)
    requires
        names_unique(systems@),
        all_deps_known(systems@),
        a < systems@.len(),
        done@.len() == systems@.len(),
    ensures
        r ==> forall|b: int|
            0 <= b < systems@.len() && dep_edge(systems@, a as int, b) ==> done@[b],
        !r ==> blocked(systems@, done@, a as int),
{
    let nd = systems[a].deps.len();
    let mut d: usize = 0;
    while d < nd
        invariant
            names_unique(systems@),
            all_deps_known(systems@),
            a < systems@.len(),
            done@.len() == systems@.len(),
            nd == systems@[a as int].deps@.len(),
            0 <= d <= nd,
            forall|b: int|
                0 <= b < systems@.len() && (exists|e: int|
                    0 <= e < d && (#[trigger] systems@[a as int].deps@[e])@ == systems@[b].name@)
                    ==> done@[b],
        decreases nd - d,
    {
        let dep_name = &systems[a].deps[d];
        match find_by_name(systems, dep_name) {
            Some(b) => {
                if !done[b] {
                    proof {
                        assert(dep_edge(systems@, a as int, b as int));
                        assert(blocked(systems@, done@, a as int));
                    }
                    return false;
                }
                proof {
                    assert forall|c: int|
                        0 <= c < systems@.len() && (exists|e: int|
                            0 <= e < d + 1 && (#[trigger] systems@[a as int].deps@[e])@
                                == systems@[c].name@) implies done@[c] by {
                        let e = choose|e: int|
                            0 <= e < d + 1 && systems@[a as int].deps@[e]@ == systems@[c].name@;
                        if e == d {
                            assert(systems@[c].name@ == systems@[b as int].name@);
                            assert(c == b);
                        }
                    }
                }
            },
            None => {
                proof {
                    assert(dep_known(systems@, a as int, d as int));
                    let b = choose|b: int|
                        0 <= b < systems@.len() && systems@[b].name@
                            == systems@[a as int].deps@[d as int]@;
                    assert(false);
                }
                return false;
            },
        }
        d = d + 1;
    }
    proof {
        assert forall|b: int|
            0 <= b < systems@.len() && dep_edge(systems@, a as int, b) implies done@[b] by {
            let e = choose|e: int|
                0 <= e < systems@[a as int].deps@.len() && systems@[a as int].deps@[e]@
                    == systems@[b].name@;
        }
    }
    true
}

/// An execution plan over registered systems: one tick runs the systems
/// in the fixed order, which respects every declared predecessor.
pub struct Dispatcher {
    pub systems: Vec<SystemSpec>,
    pub order: Vec<usize>,
}

impl Dispatcher {
    /// The plan is an execution order for the registered systems.
    pub open spec fn wf(self) -> bool {
        valid_order(self.systems@, self.order@)
    }

    /// Build a dispatcher from system declarations. Fails with
    /// `AccessConflict` exactly when a system declares the same resource
    /// as read and written; otherwise with `UnknownDependency` exactly
    /// when a predecessor name is not registered; otherwise with
    /// `CyclicDependency` exactly when no execution order can respect
    /// the predecessors (the graph has a cycle); otherwise it succeeds.
    pub fn build(systems: Vec<SystemSpec>) -> (r: Result<Dispatcher, EcsError>)
        requires
            names_unique(systems@),
        ensures
            any_conflict(systems@) <==> r == Err::<Dispatcher, EcsError>(EcsError::AccessConflict),
            !any_conflict(systems@) ==> ((!all_deps_known(systems@)) <==> r == Err::<
                Dispatcher,
                EcsError,
            >(EcsError::UnknownDependency)),
            r == Err::<Dispatcher, EcsError>(EcsError::CyclicDependency) ==> forall|
                ord2: Seq<usize>,
            | !valid_order(systems@, ord2),
            r matches Ok(d) ==> d.systems == systems && d.wf(),
            r is Err ==> r->Err_0 == EcsError::AccessConflict || r->Err_0
                == EcsError::UnknownDependency || r->Err_0 == EcsError::CyclicDependency,
    {
        let n = systems.len();
        // Reject a system that asks for shared and exclusive access to
        // one resource at once.
        let mut a: usize = 0;
        while a < n
            invariant
                n == systems@.len(),
                0 <= a <= n,
                forall|c: int| 0 <= c < a ==> !access_conflict(systems@[c]),
            decreases n - a,
        {
            let nr = systems[a].reads.len();
            let nw = systems[a].writes.len();
            let mut i: usize = 0;
            while i < nr
                invariant
                    n == systems@.len(),
                    a < n,
                    nr == systems@[a as int].reads@.len(),
                    nw == systems@[a as int].writes@.len(),
                    0 <= i <= nr,
                    forall|x: int, y: int|
                        0 <= x < i && 0 <= y < nw ==> systems@[a as int].reads@[x]
                            != systems@[a as int].writes@[y],
                decreases nr - i,
            {
                let mut j: usize = 0;
                while j < nw
                    invariant
                        n == systems@.len(),
                        a < n,
                        nr == systems@[a as int].reads@.len(),
                        nw == systems@[a as int].writes@.len(),
                        i < nr,
                        0 <= j <= nw,
                        forall|y: int|
                            0 <= y < j ==> systems@[a as int].reads@[i as int]
                                != systems@[a as int].writes@[y],
                    decreases nw - j,
                {
                    if systems[a].reads[i] == systems[a].writes[j] {
                        proof {
                            assert(access_conflict(systems@[a as int]));
                        }
                        return Err(EcsError::AccessConflict);
                    }
                    j = j + 1;
                }
                i = i + 1;
            }
            proof {
                assert(!access_conflict(systems@[a as int]));
            }
            a = a + 1;
        }
        proof {
            assert(!any_conflict(systems@));
        }
        // Resolve every predecessor name.
        let mut a2: usize = 0;
        while a2 < n
            invariant
                n == systems@.len(),
                !any_conflict(systems@),
                0 <= a2 <= n,
                forall|c: int, d: int|
                    0 <= c < a2 && 0 <= d < systems@[c].deps@.len() ==> #[trigger] dep_known(
                        systems@,
                        c,
                        d,
                    ),
            decreases n - a2,
        {
            let nd = systems[a2].deps.len();
            let mut d: usize = 0;
            while d < nd
                invariant
                    n == systems@.len(),
                    !any_conflict(systems@),
                    a2 < n,
                    nd == systems@[a2 as int].deps@.len(),
                    0 <= d <= nd,
                    forall|e: int| 0 <= e < d ==> #[trigger] dep_known(systems@, a2 as int, e),
                decreases nd - d,
            {
                match find_by_name(&systems, &systems[a2].deps[d]) {
                    Some(_) => (),
                    None => {
                        proof {
                            assert(!dep_known(systems@, a2 as int, d as int));
                        }
                        return Err(EcsError::UnknownDependency);
                    },
                }
                d = d + 1;
            }
            a2 = a2 + 1;
        }
        proof {
            assert(all_deps_known(systems@));
        }
        // Schedule: repeatedly pick a system whose predecessors are all
        // scheduled; when none is ready the graph has a cycle.
        let mut done: Vec<bool> = Vec::new();
        let mut f: usize = 0;
        while f < n
            invariant
                0 <= f <= n,
                done@.len() == f,
                !any_conflict(systems@),
                all_deps_known(systems@),
                forall|x: int| 0 <= x < f ==> !done@[x],
                count_done(done@) == 0,
            decreases n - f,
        {
            let ghost d0 = done@;
            done.push(false);
            proof {
                crate::kv::lemma_sum_by_push(
                    d0,
                    |b: bool|
                        if b {
                            1int
                        } else {
                            0int
                        },
                    false,
                );
            }
            f = f + 1;
        }
        let mut order: Vec<usize> = Vec::new();
        while order.len() < n
            invariant
                n == systems@.len(),
                names_unique(systems@),
                !any_conflict(systems@),
                all_deps_known(systems@),
                done@.len() == n,
                order@.len() <= n,
                count_done(done@) == order@.len(),
                forall|p: int| 0 <= p < order@.len() ==> (#[trigger] order@[p]) < n,
                forall|p: int| 0 <= p < order@.len() ==> done@[order@[p] as int],
                forall|p: int, q: int| 0 <= p < q < order@.len() ==> order@[p] != order@[q],
                forall|x: int| 0 <= x < n && done@[x] ==> #[trigger] appears(order@, x),
                forall|p: int, b: int|
                    0 <= p < order@.len() && 0 <= b < n && #[trigger] dep_edge(
                        systems@,
                        order@[p] as int,
                        b,
                    ) ==> done@[b],
                forall|p: int, q: int|
                    0 <= p < order@.len() && 0 <= q < order@.len() && dep_edge(
                        systems@,
                        #[trigger] order@[p] as int,
                        #[trigger] order@[q] as int,
                    ) ==> q < p,
            decreases n - order.len(),
        {
            let mut found: Option<usize> = None;
            let mut c: usize = 0;
            while c < n
                invariant
                    n == systems@.len(),
                    names_unique(systems@),
                    all_deps_known(systems@),
                    done@.len() == n,
                    0 <= c <= n,
                    match found {
                        Some(x) => x < n && !done@[x as int] && forall|b: int|
                            0 <= b < n && dep_edge(systems@, x as int, b) ==> done@[b],
                        None => forall|x: int|
                            0 <= x < c && !done@[x] ==> #[trigger] blocked(systems@, done@, x),
                    },
                decreases n - c,
            {
                if found.is_none() && !done[c] {
                    if deps_done(&systems, &done, c) {
                        found = Some(c);
                    }
                }
                c = c + 1;
            }
            match found {
                Some(x) => {
                    let ghost done0 = done@;
                    let ghost order0 = order@;
                    done[x] = true;
                    order.push(x);
                    proof {
                        lemma_count_done_update(done0, x as int);
                        assert(order@ == order0.push(x));
                        assert(order@[order@.len() - 1] == x);
                        assert forall|p: int, q: int|
                            0 <= p < order@.len() && 0 <= q < order@.len() && dep_edge(
                                systems@,
                                #[trigger] order@[p] as int,
                                #[trigger] order@[q] as int,
                            ) implies q < p by {
                            if p < order0.len() && q < order0.len() {
                                assert(order@[p] == order0[p] && order@[q] == order0[q]);
                            } else if q == order0.len() {
                                if p < order0.len() {
                                    assert(dep_edge(systems@, order0[p] as int, x as int));
                                    assert(done0[x as int]);
                                }
                            }
                        }
                        assert forall|x2: int| 0 <= x2 < n && done@[x2] implies #[trigger] appears(
                            order@,
                            x2,
                        ) by {
                            if x2 == x as int {
                                assert(order@[order@.len() - 1] == x);
                            } else {
                                assert(done0[x2]);
                                assert(appears(order0, x2));
                                let p = choose|p: int|
                                    0 <= p < order0.len() && (#[trigger] order0[p]) == x2;
                                assert(order@[p] == x2);
                            }
                        }
                    }
                },
                None => {
                    proof {
                        assert(!(forall|x: int| 0 <= x < n ==> done@[x])) by {
                            if forall|x: int| 0 <= x < n ==> done@[x] {
                                lemma_count_done_all_true(done@);
                            }
                        }
                        assert forall|ord2: Seq<usize>| !valid_order(systems@, ord2) by {
                            if valid_order(systems@, ord2) {
                                let x0 = choose|x: int| 0 <= x < n && !done@[x];
                                assert(appears(ord2, x0));
                                let p0 = choose|q: int|
                                    0 <= q < ord2.len() && (#[trigger] ord2[q]) == x0;
                                assert(forall|q: int|
                                    0 <= q < ord2.len() ==> (#[trigger] ord2[q] as int)
                                        < done@.len());
                                let pmin = lemma_first_unscheduled(ord2, done@, p0);
                                let xm = ord2[pmin] as int;
                                assert(blocked(systems@, done@, xm));
                                let b = choose|b: int|
                                    0 <= b < systems@.len() && #[trigger] dep_edge(
                                        systems@,
                                        xm,
                                        b,
                                    ) && !done@[b];
                                assert(appears(ord2, b));
                                let qb = choose|q: int|
                                    0 <= q < ord2.len() && (#[trigger] ord2[q]) == b;
                                assert(dep_edge(systems@, ord2[pmin] as int, ord2[qb] as int));
                                assert(qb < pmin);
                                assert(done@[ord2[qb] as int]);
                            }
                        }
                    }
                    return Err(EcsError::CyclicDependency);
                },
            }
        }
        proof {
            lemma_count_done_full(done@);
            assert forall|x: int| 0 <= x < n implies #[trigger] appears(order@, x) by {
                assert(done@[x]);
            }
        }
        Ok(Dispatcher { systems, order })
    }
}

/// How one run of system behaviour `kind` relates two worlds.
pub open spec fn kind_rel(kind: SystemKind, w0: World, w1: World) -> bool {
    match kind {
        SystemKind::Movement => movement_rel(w0, w1),
        SystemKind::Pickup => pickup_rel(w0, w1),
        SystemKind::Observer => w1 == w0,
    }
}

/// The machine-limit precondition of one system behaviour.
pub open spec fn kind_safe(kind: SystemKind, w: World) -> bool {
    match kind {
        SystemKind::Movement => movement_safe(w),
        SystemKind::Pickup => pickup_safe(w),
        SystemKind::Observer => true,
    }
}

/// `ws` is a chain of worlds along a prefix of the plan: it starts at
/// `w0` and each next world is related to the previous one by the
/// system at that position of the order.
pub open spec fn prefix_chain(ss: Seq<SystemSpec>, ord: Seq<usize>, ws: Seq<World>, w0: World) -> bool {
    &&& 1 <= ws.len() <= ord.len() + 1
    &&& ws[0] == w0
    &&& forall|k: int|
        0 <= k < ws.len() - 1 ==> kind_rel(ss[ord[k] as int].kind, ws[k], #[trigger] ws[k + 1])
}

/// `w1` is reachable from `w0` by running the whole plan in order:
/// some chain of intermediate worlds connects them.
pub open spec fn plan_rel(ss: Seq<SystemSpec>, ord: Seq<usize>, w0: World, w1: World) -> bool {
    exists|ws: Seq<World>|
        #[trigger] prefix_chain(ss, ord, ws, w0) && ws.len() == ord.len() + 1 && ws[ws.len() - 1]
            == w1
}

/// Every world reachable along a proper prefix of the plan satisfies
/// the machine-limit precondition of the system that runs next.
pub open spec fn plan_safe(ss: Seq<SystemSpec>, ord: Seq<usize>, w0: World) -> bool {
    forall|ws: Seq<World>|
        #[trigger] prefix_chain(ss, ord, ws, w0) && ws.len() <= ord.len() ==> kind_safe(
            ss[ord[ws.len() - 1] as int].kind,
            ws[ws.len() - 1],
        )
}

impl Dispatcher {
    /// Execute exactly one tick: run every registered system once, in
    /// the fixed order, which respects all declared predecessors — a
    /// dependent system only ever runs on the state its predecessors
    /// left behind. The total asset amount is conserved; no entity is
    /// created or destroyed.
    pub fn run(&self, world: &mut World)
        requires
            self.wf(),
            old(world).wf(),
            plan_safe(self.systems@, self.order@, *old(world)),
        ensures
            final(world).wf(),
            plan_rel(self.systems@, self.order@, *old(world), *final(world)),
            final(world).spec_wealth() == old(world).spec_wealth(),
            final(world).registry == old(world).registry,
            final(world).same_registration(*old(world)),
    {
        let m = self.order.len();
        let ghost mut ws: Seq<World> = seq![*old(world)];
        let mut p: usize = 0;
        while p < m
            invariant
                self.wf(),
                old(world).wf(),
                plan_safe(self.systems@, self.order@, *old(world)),
                m == self.order@.len(),
                0 <= p <= m,
                world.wf(),
                ws.len() == p + 1,
                prefix_chain(self.systems@, self.order@, ws, *old(world)),
                ws[p as int] == *world,
                world.spec_wealth() == old(world).spec_wealth(),
                world.registry == old(world).registry,
                world.same_registration(*old(world)),
            decreases m - p,
        {
            let idx = self.order[p];
            proof {
                assert(ws.len() - 1 == p as int);
                assert(kind_safe(self.systems@[idx as int].kind, *world));
            }
            let ghost wm = *world;
            match self.systems[idx].kind {
                SystemKind::Movement => {
                    movement_tick(world);
                },
                SystemKind::Pickup => {
                    pickup_tick(world);
                },
                SystemKind::Observer => (),
            }
            proof {
                assert(kind_rel(self.systems@[idx as int].kind, wm, *world));
                let ws2 = ws.push(*world);
                assert(ws2[p as int] == wm);
                assert(ws2[p + 1] == *world);
                assert(forall|k: int| 0 <= k < ws.len() ==> ws2[k] == ws[k]);
                ws = ws2;
            }
            p = p + 1;
        }
        proof {
            assert(ws.len() == self.order@.len() + 1);
            assert(ws[ws.len() - 1] == *world);
        }
    }
}

/// Along any chain of the plan, the total asset amount never changes,
/// and until the first kinematics step the three kinematics storages
/// are untouched.
proof fn lemma_chain_state(ss: Seq<SystemSpec>, ord: Seq<usize>, ws: Seq<World>, w0: World)
    requires
        prefix_chain(ss, ord, ws, w0),
    ensures
        forall|k: int| 0 <= k < ws.len() ==> (#[trigger] ws[k]).spec_wealth() == w0.spec_wealth(),
        forall|k: int|
            0 <= k < ws.len() && (forall|j: int|
                0 <= j < k ==> ss[ord[j] as int].kind != SystemKind::Movement) ==> {
                &&& (#[trigger] ws[k]).start_positions == w0.start_positions
                &&& ws[k].end_positions == w0.end_positions
                &&& ws[k].velocities == w0.velocities
            },
    decreases ws.len(),
{
    if ws.len() <= 1 {
        assert(ws[0] == w0);
    } else {
        let wsp = ws.drop_last();
        assert(forall|k: int| 0 <= k < wsp.len() ==> wsp[k] == ws[k]);
        assert(prefix_chain(ss, ord, wsp, w0)) by {
            assert forall|k: int| 0 <= k < wsp.len() - 1 implies kind_rel(
                ss[ord[k] as int].kind,
                wsp[k],
                #[trigger] wsp[k + 1],
            ) by {
                assert(kind_rel(ss[ord[k] as int].kind, ws[k], ws[k + 1]));
            }
        }
        lemma_chain_state(ss, ord, wsp, w0);
        let m = ws.len() - 1;
        assert(kind_rel(ss[ord[m - 1] as int].kind, ws[m - 1], ws[(m - 1) + 1]));
        assert(kind_rel(ss[ord[m - 1] as int].kind, ws[m - 1], ws[m]));
        assert(ws[m - 1].spec_wealth() == w0.spec_wealth());
        match ss[ord[m - 1] as int].kind {
            SystemKind::Movement => {
                assert(movement_rel(ws[m - 1], ws[m]));
                assert(ws[m].world_map == ws[m - 1].world_map);
                assert(ws[m].inventories == ws[m - 1].inventories);
            },
            SystemKind::Pickup => {
                assert(pickup_rel(ws[m - 1], ws[m]));
            },
            SystemKind::Observer => {
                assert(ws[m] == ws[m - 1]);
            },
        }
        assert(ws[m].spec_wealth() == w0.spec_wealth());
        assert forall|k: int|
            0 <= k < ws.len() && (forall|j: int|
                0 <= j < k ==> ss[ord[j] as int].kind != SystemKind::Movement) implies {
                &&& (#[trigger] ws[k]).start_positions == w0.start_positions
                &&& ws[k].end_positions == w0.end_positions
                &&& ws[k].velocities == w0.velocities
            } by {
            if k < m {
                assert(wsp[k] == ws[k]);
            } else {
                assert(k == m);
                assert(ss[ord[m - 1] as int].kind != SystemKind::Movement);
                assert(forall|j: int| 0 <= j < m - 1 ==> ss[ord[j] as int].kind
                    != SystemKind::Movement);
                assert(wsp[m - 1].start_positions == w0.start_positions
                    && wsp[m - 1].end_positions == w0.end_positions && wsp[m - 1].velocities
                    == w0.velocities);
                match ss[ord[m - 1] as int].kind {
                    SystemKind::Movement => {
                        assert(false);
                    },
                    SystemKind::Pickup => {
                        assert(pickup_rel(ws[m - 1], ws[m]));
                    },
                    SystemKind::Observer => {
                        assert(ws[m] == ws[m - 1]);
                    },
                }
            }
        }
    }
}

/// A plan with at most one kinematics system is safe to run from any
/// well-bounded world: kinematics safety carries to the step where the
/// one kinematics system runs, and conservation keeps every pickup
/// merge within `u64`.
pub proof fn lemma_plan_safe_bounded(ss: Seq<SystemSpec>, ord: Seq<usize>, w0: World)
    requires
        movement_safe(w0),
        w0.spec_wealth() <= u64::MAX,
        forall|p: int, q: int|
            0 <= p < ord.len() && 0 <= q < ord.len() && ss[ord[p] as int].kind
                == SystemKind::Movement && ss[ord[q] as int].kind == SystemKind::Movement ==> p
                == q,
    ensures
        plan_safe(ss, ord, w0),
{
    assert forall|ws: Seq<World>|
        #[trigger] prefix_chain(ss, ord, ws, w0) && ws.len() <= ord.len() implies kind_safe(
        ss[ord[ws.len() - 1] as int].kind,
        ws[ws.len() - 1],
    ) by {
        let j = ws.len() - 1;
        lemma_chain_state(ss, ord, ws, w0);
        assert(ws[j].spec_wealth() == w0.spec_wealth());
        match ss[ord[j] as int].kind {
            SystemKind::Movement => {
                assert forall|j2: int| 0 <= j2 < j implies ss[ord[j2] as int].kind
                    != SystemKind::Movement by {
                    if ss[ord[j2] as int].kind == SystemKind::Movement {
                        assert(j2 == j);
                    }
                }
                assert(ws[j].start_positions == w0.start_positions && ws[j].end_positions
                    == w0.end_positions && ws[j].velocities == w0.velocities);
                crate::movement_system::lemma_movement_safe_same_kinematics(w0, ws[j]);
            },
            SystemKind::Pickup => {
                crate::inventory_system::lemma_pickup_safe_from_wealth(ws[j]);
            },
            SystemKind::Observer => (),
        }
    }
}

/// No execution order can satisfy a mutual predecessor cycle: together
/// with `build`'s guarantee that a successful build yields such an
/// order, two systems that (directly) depend on each other can never
/// build — the dispatcher reports `CyclicDependency` instead. A system
/// that names itself as its own predecessor is the special case `a == b`.
pub proof fn lemma_cycle_has_no_order(ss: Seq<SystemSpec>, ord: Seq<usize>, a: int, b: int)
    requires
        0 <= a < ss.len(),
        0 <= b < ss.len(),
        dep_edge(ss, a, b),
        dep_edge(ss, b, a),
    ensures
        !valid_order(ss, ord),
{
    if valid_order(ss, ord) {
        assert(appears(ord, a));
        assert(appears(ord, b));
        let p = choose|p: int| 0 <= p < ord.len() && (#[trigger] ord[p]) == a;
        let q = choose|q: int| 0 <= q < ord.len() && (#[trigger] ord[q]) == b;
        assert(dep_edge(ss, ord[p] as int, ord[q] as int));
        assert(dep_edge(ss, ord[q] as int, ord[p] as int));
        assert(q < p && p < q);
    }
}

} // verus!
