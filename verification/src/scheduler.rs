//! System scheduler: orders systems into stages by their dependencies.
//!
//! Each system names the systems that must complete before it runs.  The
//! scheduler sorts the dependency graph topologically (Kahn's algorithm,
//! level by level) into *stages*: the systems of one stage depend only on
//! systems of earlier stages, so they may run in parallel; stages run one
//! after the other.

use vstd::prelude::*;

verus! {

/// A registered system.
pub struct SystemDescriptor<R> {
    /// Unique name used for dependency resolution.
    pub name: &'static str,
    /// Names of systems that must complete before this one runs.
    pub dependencies: Vec<&'static str>,
    /// The system function.
    pub run: R,
}

/// Error returned when the dependency graph contains a cycle: the names of
/// the systems that could not be ordered.
#[derive(Debug)]
pub struct CycleError(pub Vec<&'static str>);

/// The system that dependency name `name` resolves to among the first
/// `upto` systems: the last one with that name, or -1 when there is none.
pub open spec fn resolve_name<R>(sys: Seq<SystemDescriptor<R>>, name: Seq<char>, upto: int) -> int
    decreases upto,
{
    if upto <= 0 {
        -1
    } else if sys[upto - 1].name@ == name {
        upto - 1
    } else {
        resolve_name(sys, name, upto - 1)
    }
}

/// The system that dependency `d` of system `i` resolves to.
pub open spec fn target<R>(sys: Seq<SystemDescriptor<R>>, i: int, d: int) -> int {
    resolve_name(sys, sys[i].dependencies@[d]@, sys.len() as int)
}

/// Every dependency names a registered system.
pub open spec fn resolvable<R>(sys: Seq<SystemDescriptor<R>>) -> bool {
    forall|i: int, d: int|
        0 <= i < sys.len() && 0 <= d < sys[i].dependencies@.len() ==> 0 <= #[trigger] target(
            sys,
            i,
            d,
        )
}

/// System `t` lies in one of the stages before stage `l`.
pub open spec fn placed_before(st: Seq<Seq<usize>>, t: int, l: int) -> bool {
    exists|l2: int| 0 <= l2 < l && #[trigger] st[l2].contains(t as usize)
}

/// Every dependency of a staged system lies in an earlier stage.
pub open spec fn deps_before<R>(sys: Seq<SystemDescriptor<R>>, st: Seq<Seq<usize>>) -> bool {
    forall|l: int, x: usize, d: int|
        #![trigger st[l].contains(x), target(sys, x as int, d)]
        0 <= l < st.len() && st[l].contains(x) && 0 <= d < sys[x as int].dependencies@.len()
            ==> placed_before(st, target(sys, x as int, d), l)
}

/// Every system of a stage after the first depends on a system of the stage
/// just before: no system could have run earlier.
pub open spec fn deps_tight<R>(sys: Seq<SystemDescriptor<R>>, st: Seq<Seq<usize>>) -> bool {
    forall|l: int, x: usize|
        0 < l < st.len() && #[trigger] st[l].contains(x) ==> exists|d: int|
            0 <= d < sys[x as int].dependencies@.len() && #[trigger] st[l - 1].contains(
                target(sys, x as int, d) as usize,
            )
}

/// The stages are non-empty, hold registered systems, each at most once.
pub open spec fn stages_disjoint<R>(sys: Seq<SystemDescriptor<R>>, st: Seq<Seq<usize>>) -> bool {
    &&& forall|l: int| 0 <= l < st.len() ==> (#[trigger] st[l]).no_duplicates() && st[l].len() > 0
    &&& forall|l: int, x: usize| 0 <= l < st.len() && #[trigger] st[l].contains(x) ==> x < sys.len()
    &&& forall|l1: int, l2: int, x: usize|
        #![trigger st[l1].contains(x), st[l2].contains(x)]
        0 <= l1 < l2 < st.len() && st[l1].contains(x) ==> !st[l2].contains(x)
}

/// `st` puts every system in the stage of the length of its longest chain of
/// dependencies: each system once, after all its dependencies, and as early
/// as that allows.
pub open spec fn layered<R>(sys: Seq<SystemDescriptor<R>>, st: Seq<Seq<usize>>) -> bool {
    &&& stages_disjoint(sys, st)
    &&& deps_before(sys, st)
    &&& deps_tight(sys, st)
    &&& forall|x: int| 0 <= x < sys.len() ==> #[trigger] placed_before(st, x, st.len() as int)
}

/// Every system of `s` is registered and depends on a system of `s`: no
/// system of `s` can ever run.
pub open spec fn blocked<R>(sys: Seq<SystemDescriptor<R>>, s: Set<int>) -> bool {
    forall|x: int| #[trigger] s.contains(x) ==> 0 <= x < sys.len() && exists|d: int|
        0 <= d < sys[x].dependencies@.len() && s.contains(#[trigger] target(sys, x, d))
}

/// System `x` waits, directly or not, on a dependency cycle.
pub open spec fn stuck<R>(sys: Seq<SystemDescriptor<R>>, x: int) -> bool {
    exists|s: Set<int>| #[trigger] s.contains(x) && blocked(sys, s)
}

/// Names of the stuck systems among the first `upto`, in order.
pub open spec fn stuck_names<R>(sys: Seq<SystemDescriptor<R>>, upto: int) -> Seq<Seq<char>>
    decreases upto,
{
    if upto <= 0 {
        Seq::empty()
    } else if stuck(sys, upto - 1) {
        stuck_names(sys, upto - 1).push(sys[upto - 1].name@)
    } else {
        stuck_names(sys, upto - 1)
    }
}

pub proof fn lemma_resolve_range<R>(sys: Seq<SystemDescriptor<R>>, name: Seq<char>, upto: int)
    requires
        0 <= upto <= sys.len(),
    ensures
        resolve_name(sys, name, upto) < upto,
        resolve_name(sys, name, upto) >= -1,
        resolve_name(sys, name, upto) >= 0 ==> sys[resolve_name(sys, name, upto)].name@ == name,
    decreases upto,
{
    if upto > 0 && sys[upto - 1].name@ != name {
        lemma_resolve_range(sys, name, upto - 1);
    }
}

proof fn lemma_resolve_last<R>(sys: Seq<SystemDescriptor<R>>, name: Seq<char>, upto: int)
    requires
        0 <= upto <= sys.len(),
    ensures
        (exists|j: int| 0 <= j < upto && #[trigger] sys[j].name@ == name) ==> {
            let r = resolve_name(sys, name, upto);
            &&& 0 <= r < upto
            &&& sys[r].name@ == name
            &&& forall|j: int| r < j < upto ==> #[trigger] sys[j].name@ != name
        },
        (forall|j: int| 0 <= j < upto ==> #[trigger] sys[j].name@ != name) ==> resolve_name(sys, name, upto)
            == -1,
    decreases upto,
{
    if upto > 0 {
        lemma_resolve_last(sys, name, upto - 1);
        if sys[upto - 1].name@ != name {
            if exists|j: int| 0 <= j < upto && #[trigger] sys[j].name@ == name {
                let j = choose|j: int| 0 <= j < upto && #[trigger] sys[j].name@ == name;
                assert(j < upto - 1);
            }
        }
    }
}

/// A dependency name resolves to the last registered system with that name,
/// whichever position it has, and to no system only when no registered
/// system has that name.
pub proof fn law_resolve_name<R>(sys: Seq<SystemDescriptor<R>>, name: Seq<char>)
    ensures
        (exists|j: int| 0 <= j < sys.len() && #[trigger] sys[j].name@ == name) ==> {
            let r = resolve_name(sys, name, sys.len() as int);
            &&& 0 <= r < sys.len()
            &&& sys[r].name@ == name
            &&& forall|j: int| r < j < sys.len() ==> #[trigger] sys[j].name@ != name
        },
        (forall|j: int| 0 <= j < sys.len() ==> #[trigger] sys[j].name@ != name) ==> resolve_name(
            sys,
            name,
            sys.len() as int,
        ) == -1,
{
    lemma_resolve_last(sys, name, sys.len() as int);
}

/// When every dependency names some registered system, every dependency
/// resolves: `build` accepts the registration and `missing_dependency`
/// finds nothing.
pub proof fn law_named_dependencies_resolve<R>(sys: Seq<SystemDescriptor<R>>)
    requires
        forall|i: int, d: int|
            0 <= i < sys.len() && 0 <= d < sys[i].dependencies@.len() ==> exists|j: int|
                0 <= j < sys.len() && #[trigger] sys[j].name@ == (#[trigger] sys[i].dependencies@[d])@,
    ensures
        resolvable(sys),
{
    assert forall|i: int, d: int|
        0 <= i < sys.len() && 0 <= d < sys[i].dependencies@.len() implies 0 <= #[trigger] target(
            sys,
            i,
            d,
        ) by {
        let name = sys[i].dependencies@[d]@;
        let j = choose|j: int| 0 <= j < sys.len() && #[trigger] sys[j].name@ == name;
        lemma_resolve_last(sys, name, sys.len() as int);
    }
}

proof fn lemma_target_range<R>(sys: Seq<SystemDescriptor<R>>, i: int, d: int)
    requires
        resolvable(sys),
        0 <= i < sys.len(),
        0 <= d < sys[i].dependencies@.len(),
    ensures
        0 <= target(sys, i, d) < sys.len(),
{
    lemma_resolve_range(sys, sys[i].dependencies@[d]@, sys.len() as int);
}

/// A system placed in a stage is never part of a blocked set.
pub proof fn lemma_staged_not_blocked<R>(
    sys: Seq<SystemDescriptor<R>>,
    st: Seq<Seq<usize>>,
    s: Set<int>,
    l: int,
    x: usize,
)
    requires
        sys.len() <= usize::MAX,
        deps_before(sys, st),
        blocked(sys, s),
        0 <= l < st.len(),
        st[l].contains(x),
    ensures
        !s.contains(x as int),
    decreases l,
{
    if s.contains(x as int) {
        let d = choose|d: int|
            0 <= d < sys[x as int].dependencies@.len() && s.contains(#[trigger] target(sys, x as int, d));
        let t = target(sys, x as int, d);
        assert(placed_before(st, t, l));
        let l2 = choose|l2: int| 0 <= l2 < l && #[trigger] st[l2].contains(t as usize);
        lemma_staged_not_blocked(sys, st, s, l2, t as usize);
        assert(0 <= x < sys.len());
        assert(s.contains(t));
        assert(0 <= t < sys.len());
        assert((t as usize) as int == t);
    }
}


/// Number of dependencies `d < k` of system `x` whose target lies outside `s`.
pub open spec fn open_deps<R>(sys: Seq<SystemDescriptor<R>>, x: int, s: Set<int>, k: int) -> nat
    decreases k,
{
    if k <= 0 {
        0
    } else {
        open_deps(sys, x, s, k - 1) + (if s.contains(target(sys, x, k - 1)) {
            0nat
        } else {
            1nat
        })
    }
}

/// Number of dependencies `d < k` of system `x` that resolve to `j`.
pub open spec fn edges<R>(sys: Seq<SystemDescriptor<R>>, x: int, j: int, k: int) -> nat
    decreases k,
{
    if k <= 0 {
        0
    } else {
        edges(sys, x, j, k - 1) + (if target(sys, x, k - 1) == j {
            1nat
        } else {
            0nat
        })
    }
}

/// Number of occurrences of `v` in `s`.
pub open spec fn occ(s: Seq<usize>, v: int) -> nat
    decreases s.len(),
{
    if s.len() == 0 {
        0
    } else {
        occ(s.drop_last(), v) + (if s.last() as int == v {
            1nat
        } else {
            0nat
        })
    }
}

/// Number of `x` in `0..n` that `s` holds.
pub open spec fn num_in(s: Set<int>, n: int) -> nat
    decreases n,
{
    if n <= 0 {
        0
    } else {
        num_in(s, n - 1) + (if s.contains(n - 1) {
            1nat
        } else {
            0nat
        })
    }
}

/// The values of `r`, as a set of integers.
pub open spec fn seq_set(r: Seq<usize>) -> Set<int> {
    Set::new(|x: int| exists|q: int| 0 <= q < r.len() && #[trigger] r[q] as int == x)
}

proof fn lemma_open_insert<R>(sys: Seq<SystemDescriptor<R>>, x: int, s: Set<int>, j: int, k: int)
    requires
        !s.contains(j),
    ensures
        open_deps(sys, x, s.insert(j), k) + edges(sys, x, j, k) == open_deps(sys, x, s, k),
    decreases k,
{
    if k > 0 {
        lemma_open_insert(sys, x, s, j, k - 1);
    }
}

proof fn lemma_open_zero<R>(sys: Seq<SystemDescriptor<R>>, x: int, s: Set<int>, k: int)
    requires
        k >= 0,
    ensures
        open_deps(sys, x, s, k) == 0 <==> forall|d: int|
            0 <= d < k ==> s.contains(#[trigger] target(sys, x, d)),
        open_deps(sys, x, s, k) <= k,
    decreases k,
{
    if k > 0 {
        lemma_open_zero(sys, x, s, k - 1);
        if open_deps(sys, x, s, k) == 0 {
            assert forall|d: int| 0 <= d < k implies s.contains(#[trigger] target(sys, x, d)) by {
                if d < k - 1 {
                } else {
                }
            }
        }
    }
}

proof fn lemma_occ_push(s: Seq<usize>, y: usize, v: int)
    ensures
        occ(s.push(y), v) == occ(s, v) + (if y as int == v {
            1nat
        } else {
            0nat
        }),
{
    assert(s.push(y).drop_last() =~= s);
}

proof fn lemma_occ_prefix(s: Seq<usize>, y: int, v: int)
    requires
        0 <= y < s.len(),
    ensures
        occ(s.subrange(0, y + 1), v) == occ(s.subrange(0, y), v) + (if s[y] as int == v {
            1nat
        } else {
            0nat
        }),
{
    assert(s.subrange(0, y + 1) =~= s.subrange(0, y).push(s[y]));
    lemma_occ_push(s.subrange(0, y), s[y], v);
}

proof fn lemma_occ_prefix_le(s: Seq<usize>, y: int, v: int)
    requires
        0 <= y <= s.len(),
    ensures
        occ(s.subrange(0, y), v) <= occ(s, v),
    decreases s.len() - y,
{
    if y < s.len() {
        lemma_occ_prefix(s, y, v);
        lemma_occ_prefix_le(s, y + 1, v);
    } else {
        assert(s.subrange(0, y) =~= s);
    }
}

proof fn lemma_num_insert(s: Set<int>, r: int, n: int)
    requires
        0 <= r < n,
        !s.contains(r),
    ensures
        num_in(s.insert(r), n) == num_in(s, n) + 1,
    decreases n,
{
    if n - 1 != r {
        lemma_num_insert(s, r, n - 1);
    } else {
        lemma_num_same(s, s.insert(r), n - 1);
    }
}

proof fn lemma_num_same(s1: Set<int>, s2: Set<int>, n: int)
    requires
        forall|x: int| 0 <= x < n ==> (s1.contains(x) <==> s2.contains(x)),
    ensures
        num_in(s1, n) == num_in(s2, n),
    decreases n,
{
    if n > 0 {
        lemma_num_same(s1, s2, n - 1);
    }
}

proof fn lemma_num_full(s: Set<int>, n: int)
    requires
        n >= 0,
    ensures
        num_in(s, n) <= n,
        num_in(s, n) == n <==> forall|x: int| 0 <= x < n ==> s.contains(x),
    decreases n,
{
    if n > 0 {
        lemma_num_full(s, n - 1);
    }
}


proof fn lemma_edges_pos<R>(sys: Seq<SystemDescriptor<R>>, x: int, j: int, k: int) -> (d: int)
    requires
        edges(sys, x, j, k) > 0,
    ensures
        0 <= d < k,
        target(sys, x, d) == j,
    decreases k,
{
    if target(sys, x, k - 1) == j {
        k - 1
    } else {
        lemma_edges_pos(sys, x, j, k - 1)
    }
}

proof fn lemma_open_none<R>(sys: Seq<SystemDescriptor<R>>, x: int, k: int)
    requires
        k >= 0,
    ensures
        open_deps(sys, x, Set::empty(), k) == k,
    decreases k,
{
    if k > 0 {
        lemma_open_none(sys, x, k - 1);
    }
}

proof fn lemma_num_empty(n: int)
    ensures
        num_in(Set::empty(), n) == 0,
    decreases n,
{
    if n > 0 {
        lemma_num_empty(n - 1);
    }
}

/// A system that some stage holds never waits on a cycle.
proof fn lemma_placed_not_stuck<R>(sys: Seq<SystemDescriptor<R>>, st: Seq<Seq<usize>>, x: int)
    requires
        sys.len() <= usize::MAX,
        deps_before(sys, st),
        0 <= x < sys.len(),
        placed_before(st, x, st.len() as int),
    ensures
        !stuck(sys, x),
{
    if stuck(sys, x) {
        let s = choose|s: Set<int>| #[trigger] s.contains(x) && blocked(sys, s);
        let l = choose|l: int| 0 <= l < st.len() && #[trigger] st[l].contains(x as usize);
        lemma_staged_not_blocked(sys, st, s, l, x as usize);
    }
}

/// When every system outside `p` still has a dependency outside `p`, the
/// systems outside `p` form a blocked set: each of them is stuck.
proof fn lemma_rest_stuck<R>(sys: Seq<SystemDescriptor<R>>, p: Set<int>, cnt: Seq<usize>)
    requires
        resolvable(sys),
        cnt.len() == sys.len(),
        forall|x: int|
            0 <= x < sys.len() && !p.contains(x) ==> #[trigger] cnt[x] == open_deps(
                sys,
                x,
                p,
                sys[x].dependencies@.len() as int,
            ),
        forall|x: int| 0 <= x < sys.len() && !p.contains(x) ==> #[trigger] cnt[x] > 0,
    ensures
        forall|x: int| 0 <= x < sys.len() && !p.contains(x) ==> #[trigger] stuck(sys, x),
{
    let u = Set::new(|y: int| 0 <= y < sys.len() && !p.contains(y));
    assert(blocked(sys, u)) by {
        assert forall|y: int| #[trigger] u.contains(y) implies 0 <= y < sys.len() && exists|d: int|
            0 <= d < sys[y].dependencies@.len() && u.contains(#[trigger] target(sys, y, d)) by {
            assert(cnt[y] > 0);
            lemma_open_zero(sys, y, p, sys[y].dependencies@.len() as int);
            let d = choose|d: int|
                0 <= d < sys[y].dependencies@.len() && !p.contains(#[trigger] target(sys, y, d));
            lemma_target_range(sys, y, d);
            assert(u.contains(target(sys, y, d)));
        }
    }
    assert forall|x: int| 0 <= x < sys.len() && !p.contains(x) implies #[trigger] stuck(sys, x) by {
        assert(u.contains(x));
    }
}

/// `q` is the position in stage `prev` of the last system of that stage
/// that system `y` depends on.
pub open spec fn last_dep_pos<R>(sys: Seq<SystemDescriptor<R>>, y: int, prev: Seq<usize>, q: int) -> bool {
    &&& 0 <= q < prev.len()
    &&& depends_on(sys, y, prev[q] as int)
    &&& forall|q2: int| q < q2 < prev.len() ==> !depends_on(sys, y, #[trigger] prev[q2] as int)
}

/// The systems of stage `cur` come in the order in which they are
/// discovered from stage `prev`: by the position in `prev` of the last of
/// their dependencies there, and by index when that is the same.
pub open spec fn discovery_ordered<R>(sys: Seq<SystemDescriptor<R>>, prev: Seq<usize>, cur: Seq<usize>) -> bool {
    forall|a: int, b: int, qa: int, qb: int|
        #![trigger last_dep_pos(sys, cur[a] as int, prev, qa), last_dep_pos(sys, cur[b] as int, prev, qb)]
        0 <= a < b < cur.len() && last_dep_pos(sys, cur[a] as int, prev, qa) && last_dep_pos(
            sys,
            cur[b] as int,
            prev,
            qb,
        ) ==> qa < qb || (qa == qb && cur[a] < cur[b])
}

/// The first stage lists its systems by increasing index; each later stage
/// in the order in which they are discovered from the stage before.
pub open spec fn stages_ordered<R>(sys: Seq<SystemDescriptor<R>>, st: Seq<Seq<usize>>) -> bool {
    &&& st.len() > 0 ==> forall|a: int, b: int| 0 <= a < b < st[0].len() ==> st[0][a] < st[0][b]
    &&& forall|l: int| 0 < l < st.len() ==> discovery_ordered(sys, #[trigger] st[l - 1], st[l])
}

proof fn lemma_last_dep_pos_unique<R>(sys: Seq<SystemDescriptor<R>>, y: int, prev: Seq<usize>, q1: int, q2: int)
    requires
        last_dep_pos(sys, y, prev, q1),
        last_dep_pos(sys, y, prev, q2),
    ensures
        q1 == q2,
{
    if q1 < q2 {
        assert(!depends_on(sys, y, prev[q2] as int));
    } else if q2 < q1 {
        assert(!depends_on(sys, y, prev[q1] as int));
    }
}

/// Process one stage: drop the dependency counts of the systems that depend
/// on the systems of `ready` (the stage), and collect the systems whose count
/// falls to zero: the next stage.
fn drain_level<R>(
    count: &mut Vec<usize>,
    dependents: &Vec<Vec<usize>>,
    ready: &Vec<usize>,
    Ghost(sys): Ghost<Seq<SystemDescriptor<R>>>,
    Ghost(p): Ghost<Set<int>>,
) -> (next: Vec<usize>)
    requires
        resolvable(sys),
        old(count)@.len() == sys.len(),
        dependents@.len() == sys.len(),
        forall|j: int, x: int|
            0 <= j < sys.len() && 0 <= x < sys.len() ==> #[trigger] occ(dependents@[j]@, x) == edges(
                sys,
                x,
                j,
                sys[x].dependencies@.len() as int,
            ),
        forall|j: int, q: int|
            0 <= j < sys.len() && 0 <= q < dependents@[j]@.len() ==> #[trigger] dependents@[j]@[q]
                < sys.len(),
        ready@.no_duplicates(),
        forall|q: int| 0 <= q < ready@.len() ==> #[trigger] ready@[q] < sys.len(),
        forall|q: int| 0 <= q < ready@.len() ==> !p.contains(#[trigger] ready@[q] as int),
        forall|x: int|
            0 <= x < sys.len() && !p.contains(x) ==> #[trigger] old(count)@[x] == open_deps(
                sys,
                x,
                p,
                sys[x].dependencies@.len() as int,
            ),
        forall|x: int| 0 <= x < sys.len() && p.contains(x) ==> #[trigger] old(count)@[x] == 0,
        forall|x: int|
            0 <= x < sys.len() && !p.contains(x) && !ready@.contains(x as usize) ==> #[trigger] old(count)@[x] > 0,
        forall|q: int| 0 <= q < ready@.len() ==> #[trigger] old(count)@[ready@[q] as int] == 0,
        forall|x: int, d: int|
            0 <= x < sys.len() && p.contains(x) && 0 <= d < sys[x].dependencies@.len() ==> p.contains(
                #[trigger] target(sys, x, d),
            ),
        forall|j: int, q1: int, q2: int|
            0 <= j < sys.len() && 0 <= q1 < q2 < dependents@[j]@.len() ==> #[trigger] dependents@[j]@[q1]
                <= #[trigger] dependents@[j]@[q2],
    ensures
        discovery_ordered(sys, ready@, next@),
        final(count)@.len() == sys.len(),
        forall|x: int|
            0 <= x < sys.len() && !p.union(seq_set(ready@)).contains(x) ==> #[trigger] final(count)@[x]
                == open_deps(sys, x, p.union(seq_set(ready@)), sys[x].dependencies@.len() as int),
        forall|x: int| 0 <= x < sys.len() && p.union(seq_set(ready@)).contains(x) ==> #[trigger] final(count)@[x] == 0,
        next@.no_duplicates(),
        forall|q: int| 0 <= q < next@.len() ==> #[trigger] next@[q] < sys.len(),
        forall|x: int|
            0 <= x < sys.len() ==> (#[trigger] next@.contains(x as usize) <==> (!p.union(
                seq_set(ready@),
            ).contains(x) && final(count)@[x] == 0)),
{
    let n = count.len();
    let ghost cnt0 = count@;
    let mut next: Vec<usize> = Vec::new();
    // the step of the outer loop in which each system of `next` was found
    let ghost mut pos: Seq<int> = Seq::empty();
    // the position in the current dependents list of the last system found
    let ghost mut lastp: int = -1;
    // systems of the stage depend only on systems of `p`
    proof {
        assert forall|q: int, d: int|
            0 <= q < ready@.len() && 0 <= d < sys[ready@[q] as int].dependencies@.len() implies p.contains(
                #[trigger] target(sys, ready@[q] as int, d),
            ) by {
            let x = ready@[q] as int;
            assert(cnt0[x] == 0);
            lemma_open_zero(sys, x, p, sys[x].dependencies@.len() as int);
        }
    }
    proof {
        assert(p.union(seq_set(ready@.subrange(0, 0))) =~= p);
    }
    let mut r: usize = 0;
    while r < ready.len()
        invariant
            n == sys.len(),
            resolvable(sys),
            count@.len() == n,
            dependents@.len() == n,
            r <= ready@.len(),
            forall|j: int, x: int|
                0 <= j < sys.len() && 0 <= x < sys.len() ==> #[trigger] occ(dependents@[j]@, x) == edges(
                    sys,
                    x,
                    j,
                    sys[x].dependencies@.len() as int,
                ),
            forall|j: int, q: int|
                0 <= j < sys.len() && 0 <= q < dependents@[j]@.len() ==> #[trigger] dependents@[j]@[q]
                    < sys.len(),
            ready@.no_duplicates(),
            forall|q: int| 0 <= q < ready@.len() ==> #[trigger] ready@[q] < sys.len(),
            forall|q: int| 0 <= q < ready@.len() ==> !p.contains(#[trigger] ready@[q] as int),
            forall|q: int, d: int|
                0 <= q < ready@.len() && 0 <= d < sys[ready@[q] as int].dependencies@.len() ==> p.contains(
                    #[trigger] target(sys, ready@[q] as int, d),
                ),
            forall|x: int, d: int|
                0 <= x < sys.len() && p.contains(x) && 0 <= d < sys[x].dependencies@.len() ==> p.contains(
                    #[trigger] target(sys, x, d),
                ),
            forall|x: int|
                0 <= x < sys.len() && !p.contains(x) ==> #[trigger] count@[x] == open_deps(
                    sys,
                    x,
                    p.union(seq_set(ready@.subrange(0, r as int))),
                    sys[x].dependencies@.len() as int,
                ),
            forall|x: int| 0 <= x < sys.len() && p.contains(x) ==> #[trigger] count@[x] == 0,
            next@.no_duplicates(),
            forall|q: int| 0 <= q < next@.len() ==> #[trigger] next@[q] < sys.len(),
            forall|x: int|
                0 <= x < sys.len() ==> (#[trigger] next@.contains(x as usize) <==> (!p.contains(x)
                    && !ready@.contains(x as usize) && count@[x] == 0)),
            forall|x: int|
                0 <= x < sys.len() && !p.contains(x) && !ready@.contains(x as usize) && count@[x] == 0
                    ==> next@.contains(x as usize),
            pos.len() == next@.len(),
            forall|t: int| 0 <= t < pos.len() ==> 0 <= #[trigger] pos[t] < r,
            forall|t1: int, t2: int|
                #![trigger pos[t1], pos[t2]]
                0 <= t1 < t2 < pos.len() ==> pos[t1] < pos[t2] || (pos[t1] == pos[t2] && next@[t1]
                    < next@[t2]),
            forall|t: int| 0 <= t < next@.len() ==> last_dep_pos(sys, #[trigger] next@[t] as int, ready@, pos[t]),
            forall|j: int, q1: int, q2: int|
                0 <= j < sys.len() && 0 <= q1 < q2 < dependents@[j]@.len() ==> #[trigger] dependents@[j]@[q1]
                    <= #[trigger] dependents@[j]@[q2],
        decreases ready@.len() - r,
    {
        let idx = ready[r];
        let ghost s_r = p.union(seq_set(ready@.subrange(0, r as int)));
        let ghost s_next = p.union(seq_set(ready@.subrange(0, r + 1)));
        proof {
            assert(!s_r.contains(idx as int)) by {
                if seq_set(ready@.subrange(0, r as int)).contains(idx as int) {
                    let q = choose|q: int| 0 <= q < r && #[trigger] ready@.subrange(0, r as int)[q] as int == idx as int;
                    assert(ready@[q] == ready@[r as int]);
                }
            }
            assert(s_next =~= s_r.insert(idx as int)) by {
                assert forall|x: int| s_next.contains(x) <==> s_r.insert(idx as int).contains(x) by {
                    if seq_set(ready@.subrange(0, r + 1)).contains(x) {
                        let q = choose|q: int| 0 <= q < r + 1 && #[trigger] ready@.subrange(0, r + 1)[q] as int == x;
                        if q < r {
                            assert(ready@.subrange(0, r as int)[q] as int == x);
                        }
                    }
                    if seq_set(ready@.subrange(0, r as int)).contains(x) {
                        let q = choose|q: int| 0 <= q < r && #[trigger] ready@.subrange(0, r as int)[q] as int == x;
                        assert(ready@.subrange(0, r + 1)[q] as int == x);
                    }
                    if x == idx as int {
                        assert(ready@.subrange(0, r + 1)[r as int] as int == x);
                    }
                }
            }
        }
        let deps = &dependents[idx];
        let mut y: usize = 0;
        while y < deps.len()
            invariant
                n == sys.len(),
                resolvable(sys),
                count@.len() == n,
                idx < n,
                *deps == dependents@[idx as int],
                !p.contains(idx as int),
                !s_r.contains(idx as int),
                !ready@.subrange(0, r as int).contains(idx),
                y <= deps@.len(),
                forall|x: int|
                    0 <= x < sys.len() ==> #[trigger] occ(deps@, x) == edges(
                        sys,
                        x,
                        idx as int,
                        sys[x].dependencies@.len() as int,
                    ),
                forall|q: int| 0 <= q < deps@.len() ==> #[trigger] deps@[q] < sys.len(),
                forall|q: int, d: int|
                    0 <= q < ready@.len() && 0 <= d < sys[ready@[q] as int].dependencies@.len() ==> p.contains(
                        #[trigger] target(sys, ready@[q] as int, d),
                    ),
                forall|x: int, d: int|
                    0 <= x < sys.len() && p.contains(x) && 0 <= d < sys[x].dependencies@.len() ==> p.contains(
                        #[trigger] target(sys, x, d),
                    ),
                forall|x: int|
                    0 <= x < sys.len() && !p.contains(x) ==> #[trigger] count@[x] + occ(
                        deps@.subrange(0, y as int),
                        x,
                    ) == open_deps(sys, x, s_r, sys[x].dependencies@.len() as int),
                forall|x: int| 0 <= x < sys.len() && p.contains(x) ==> #[trigger] count@[x] == 0,
                next@.no_duplicates(),
                forall|q: int| 0 <= q < next@.len() ==> #[trigger] next@[q] < sys.len(),
                forall|x: int|
                    0 <= x < sys.len() ==> (#[trigger] next@.contains(x as usize) <==> (!p.contains(x)
                        && !ready@.contains(x as usize) && count@[x] == 0)),
                r < ready@.len(),
                idx == ready@[r as int],
                ready@.no_duplicates(),
                forall|q: int| 0 <= q < ready@.len() ==> !p.contains(#[trigger] ready@[q] as int),
                s_next == s_r.insert(idx as int),
                s_next == p.union(seq_set(ready@.subrange(0, r + 1))),
                pos.len() == next@.len(),
                forall|t: int| 0 <= t < pos.len() ==> 0 <= #[trigger] pos[t] <= r,
                forall|t1: int, t2: int|
                    #![trigger pos[t1], pos[t2]]
                    0 <= t1 < t2 < pos.len() ==> pos[t1] < pos[t2] || (pos[t1] == pos[t2] && next@[t1]
                        < next@[t2]),
                forall|t: int| 0 <= t < next@.len() ==> last_dep_pos(sys, #[trigger] next@[t] as int, ready@, pos[t]),
                next@.len() > 0 && pos.last() == r ==> 0 <= lastp < y && next@.last() == deps@[lastp],
                forall|q1: int, q2: int| 0 <= q1 < q2 < deps@.len() ==> #[trigger] deps@[q1] <= #[trigger] deps@[q2],
            decreases deps@.len() - y,
        {
            let dep = deps[y];
            proof {
                let x = dep as int;
                lemma_occ_prefix(deps@, y as int, x);
                lemma_occ_prefix_le(deps@, y + 1, x);
                lemma_open_insert(sys, x, s_r, idx as int, sys[x].dependencies@.len() as int);
                let d = lemma_edges_pos(sys, x, idx as int, sys[x].dependencies@.len() as int);
                if p.contains(x) {
                    assert(p.contains(target(sys, x, d)));
                }
                if ready@.contains(dep) {
                    let q = choose|q: int| 0 <= q < ready@.len() && ready@[q] == dep;
                    assert(p.contains(target(sys, ready@[q] as int, d)));
                }
                assert(count@[x] > 0);
                assert(!next@.contains(x as usize));
                assert(x as usize == dep);
            }
            let ghost count_before = count@;
            let ghost next_before = next@;
            let c = count[dep] - 1;
            count.set(dep, c);
            if c == 0 {
                next.push(dep);
            }
            proof {
                if c == 0 {
                    let x = dep as int;
                    let k = sys[x].dependencies@.len() as int;
                    lemma_occ_prefix(deps@, y as int, x);
                    lemma_occ_prefix_le(deps@, y + 1, x);
                    lemma_open_insert(sys, x, s_r, idx as int, k);
                    lemma_open_zero(sys, x, s_next, k);
                    let d = lemma_edges_pos(sys, x, idx as int, k);
                    assert(depends_on(sys, x, ready@[r as int] as int));
                    assert forall|q2: int| r < q2 < ready@.len() implies !depends_on(
                        sys,
                        x,
                        #[trigger] ready@[q2] as int,
                    ) by {
                        if depends_on(sys, x, ready@[q2] as int) {
                            let d2 = choose|d2: int|
                                0 <= d2 < sys[x].dependencies@.len() && #[trigger] target(sys, x, d2)
                                    == ready@[q2] as int;
                            assert(s_next.contains(ready@[q2] as int));
                            assert(!p.contains(ready@[q2] as int));
                            let q = choose|q: int|
                                0 <= q < r + 1 && #[trigger] ready@.subrange(0, r + 1)[q] as int == ready@[q2] as int;
                            assert(ready@[q] == ready@[q2]);
                        }
                    }
                    assert(last_dep_pos(sys, x, ready@, r as int));
                    if next_before.len() > 0 && pos.last() == r {
                        assert(next_before.last() == deps@[lastp]);
                        assert(deps@[lastp] <= deps@[y as int]);
                        assert(next_before.contains(next_before.last()));
                    }
                    let pos0 = pos;
                    pos = pos.push(r as int);
                    lastp = y as int;
                    assert forall|t1: int, t2: int|
                        #![trigger pos[t1], pos[t2]]
                        0 <= t1 < t2 < pos.len() implies pos[t1] < pos[t2] || (pos[t1] == pos[t2]
                            && next@[t1] < next@[t2]) by {
                        assert(next@[t1] == next_before[t1]);
                        if t2 < pos0.len() {
                            assert(next@[t2] == next_before[t2]);
                        } else if t1 < pos0.len() - 1 && pos0[t1] == r {
                            assert(pos0[t1] <= pos0[pos0.len() - 1]);
                            assert(next_before[t1] <= next_before[pos0.len() - 1]);
                        }
                    }
                    assert forall|t: int| 0 <= t < next@.len() implies last_dep_pos(
                        sys,
                        #[trigger] next@[t] as int,
                        ready@,
                        pos[t],
                    ) by {
                        if t < next_before.len() {
                            assert(next@[t] == next_before[t]);
                        }
                    }
                }
            }
            y = y + 1;
            proof {
                assert forall|x: int|
                    0 <= x < sys.len() && !p.contains(x) implies #[trigger] count@[x] + occ(
                        deps@.subrange(0, y as int),
                        x,
                    ) == open_deps(sys, x, s_r, sys[x].dependencies@.len() as int) by {
                    lemma_occ_prefix(deps@, y - 1, x);
                }
                assert forall|x: int|
                    0 <= x < sys.len() implies (#[trigger] next@.contains(x as usize) <==> (!p.contains(x)
                        && !ready@.contains(x as usize) && count@[x] == 0)) by {
                    assert(count@[x] == if x == dep as int { c as int } else { count_before[x] as int });
                    if x != dep as int {
                        if next@.contains(x as usize) {
                            let q = choose|q: int| 0 <= q < next@.len() && next@[q] == x as usize;
                            if c == 0 && q == next@.len() - 1 {
                                assert(next@[q] == dep);
                            } else {
                                assert(next_before[q] == x as usize);
                            }
                        }
                        if next_before.contains(x as usize) {
                            let q = choose|q: int| 0 <= q < next_before.len() && next_before[q] == x as usize;
                            assert(next@[q] == x as usize);
                        }
                    } else if c == 0 {
                        assert(next@[next@.len() - 1] == dep);
                    } else {
                        if next@.contains(x as usize) {
                            let q = choose|q: int| 0 <= q < next@.len() && next@[q] == x as usize;
                            assert(next_before[q] == x as usize);
                        }
                    }
                }
            }
        }
        proof {
            assert forall|x: int|
                0 <= x < sys.len() && !p.contains(x) implies #[trigger] count@[x] == open_deps(
                    sys,
                    x,
                    s_next,
                    sys[x].dependencies@.len() as int,
                ) by {
                assert(deps@.subrange(0, deps@.len() as int) =~= deps@);
                lemma_open_insert(sys, x, s_r, idx as int, sys[x].dependencies@.len() as int);
            }
        }
        r = r + 1;
    }
    proof {
        let s_all = p.union(seq_set(ready@));
        assert(ready@.subrange(0, ready@.len() as int) =~= ready@);
        assert forall|x: int| 0 <= x < sys.len() && s_all.contains(x) implies #[trigger] count@[x] == 0 by {
            if !p.contains(x) {
                let q = choose|q: int| 0 <= q < ready@.len() && #[trigger] ready@[q] as int == x;
                lemma_open_zero(sys, x, s_all, sys[x].dependencies@.len() as int);
                assert forall|d: int| 0 <= d < sys[x].dependencies@.len() implies s_all.contains(
                    #[trigger] target(sys, x, d),
                ) by {
                    assert(p.contains(target(sys, ready@[q] as int, d)));
                }
            }
        }
        assert forall|x: int|
            0 <= x < sys.len() implies (#[trigger] next@.contains(x as usize) <==> (!s_all.contains(x)
                && count@[x] == 0)) by {
            if ready@.contains(x as usize) {
                let q = choose|q: int| 0 <= q < ready@.len() && ready@[q] == x as usize;
                assert(ready@[q] as int == x);
                assert(seq_set(ready@).contains(x));
            }
            if seq_set(ready@).contains(x) {
                let q = choose|q: int| 0 <= q < ready@.len() && #[trigger] ready@[q] as int == x;
                assert(ready@[q] == x as usize);
            }
        }
    }
    next
}

proof fn lemma_num_union_seq(p: Set<int>, r: Seq<usize>, n: int)
    requires
        n >= 0,
        r.no_duplicates(),
        forall|q: int| 0 <= q < r.len() ==> #[trigger] r[q] < n,
        forall|q: int| 0 <= q < r.len() ==> !p.contains(#[trigger] r[q] as int),
    ensures
        num_in(p.union(seq_set(r)), n) == num_in(p, n) + r.len(),
    decreases r.len(),
{
    if r.len() == 0 {
        assert(p.union(seq_set(r)) =~= p);
    } else {
        let r2 = r.drop_last();
        let last = r.last();
        lemma_num_union_seq(p, r2, n);
        assert forall|x: int| p.union(seq_set(r)).contains(x) <==> p.union(seq_set(r2)).insert(
            last as int,
        ).contains(x) by {
            if seq_set(r).contains(x) {
                let q = choose|q: int| 0 <= q < r.len() && #[trigger] r[q] as int == x;
                if q < r.len() - 1 {
                    assert(r2[q] as int == x);
                }
            }
            if seq_set(r2).contains(x) {
                let q = choose|q: int| 0 <= q < r2.len() && #[trigger] r2[q] as int == x;
                assert(r[q] as int == x);
            }
            if x == last as int {
                assert(r[r.len() - 1] as int == x);
            }
        }
        assert(p.union(seq_set(r)) =~= p.union(seq_set(r2)).insert(last as int));
        assert(!p.union(seq_set(r2)).contains(last as int)) by {
            assert(!p.contains(r[r.len() - 1] as int));
            if seq_set(r2).contains(last as int) {
                let q = choose|q: int| 0 <= q < r2.len() && #[trigger] r2[q] as int == last as int;
                assert(r[q] == r[r.len() - 1]);
            }
        }
        assert(r[r.len() - 1] < n);
        lemma_num_insert(p.union(seq_set(r2)), last as int, n);
    }
}

/// A copy of `v`.
fn copy_indices(v: &Vec<usize>) -> (r: Vec<usize>)
    ensures
        r@ == v@,
{
    let r = v.clone();
    proof {
        assert forall|i: int| 0 <= i < v@.len() implies r@[i] == v@[i] by {
            assert(vstd::pervasive::cloned(v@[i], r@[i]));
        }
        assert(r@ =~= v@);
    }
    r
}

/// `a` and `b` are the same name.
fn same_name(a: &str, b: &str) -> (r: bool)
    ensures
        r == (a@ == b@),
{
    let x = a.as_bytes();
    let y = b.as_bytes();
    proof {
        vstd::utf8::encode_utf8_decode_utf8(a@);
        vstd::utf8::encode_utf8_decode_utf8(b@);
    }
    if x.len() != y.len() {
        return false;
    }
    let mut i: usize = 0;
    while i < x.len()
        invariant
            x@.len() == y@.len(),
            a@ == b@ ==> x@ == y@,
            i <= x@.len(),
            forall|j: int| 0 <= j < i ==> x@[j] == y@[j],
        decreases x@.len() - i,
    {
        if x[i] != y[i] {
            return false;
        }
        i = i + 1;
    }
    assert(x@ =~= y@);
    true
}

/// Topological-sort-based parallel scheduler.
pub struct Scheduler<R> {
    systems: Vec<SystemDescriptor<R>>,
    /// Stages computed by `build`: each stage lists indices of systems that
    /// can run concurrently.
    stages: Option<Vec<Vec<usize>>>,
}

/// The index lists of `v`.
pub open spec fn stage_lists(v: Seq<Vec<usize>>) -> Seq<Seq<usize>> {
    v.map_values(|s: Vec<usize>| s@)
}

impl<R> Scheduler<R> {
    /// The registered systems, in registration order.
    pub closed spec fn registered(&self) -> Seq<SystemDescriptor<R>> {
        self.systems@
    }

    /// The stages compiled by the last successful `build`, if still valid.
    pub closed spec fn compiled(&self) -> Option<Seq<Seq<usize>>> {
        match self.stages {
            Some(v) => Some(stage_lists(v@)),
            None => None,
        }
    }

    /// Compiled stages always layer the registered systems.
    #[verifier::type_invariant]
    spec fn stages_layer_systems(&self) -> bool {
        match self.compiled() {
            Some(st) => layered(self.systems@, st),
            None => true,
        }
    }

    pub fn new() -> (r: Self)
        ensures
            r.registered() == Seq::<SystemDescriptor<R>>::empty(),
            r.compiled() is None,
    {
        Scheduler { systems: Vec::new(), stages: None }
    }

    /// Register a system; the compiled stages are dropped until the next
    /// `build`.
    pub fn add_system(&mut self, desc: SystemDescriptor<R>)
        ensures
            final(self).registered() == old(self).registered().push(desc),
            final(self).compiled() is None,
    {
        self.stages = None;
        let mut systems: Vec<SystemDescriptor<R>> = Vec::new();
        std::mem::swap(&mut systems, &mut self.systems);
        systems.push(desc);
        self.systems = systems;
    }

    /// The registered systems.
    pub fn systems(&self) -> (r: &[SystemDescriptor<R>])
        ensures
            r@ == self.registered(),
    {
        self.systems.as_slice()
    }

    /// The compiled stages, if `build` succeeded since the last `add_system`.
    pub fn stages(&self) -> (r: Option<&Vec<Vec<usize>>>)
        ensures
            r is None <==> self.compiled() is None,
            r matches Some(v) ==> self.compiled() == Some(stage_lists(v@)) && layered(
                self.registered(),
                stage_lists(v@),
            ),
    {
        proof {
            use_type_invariant(self);
        }
        match &self.stages {
            Some(v) => Some(v),
            None => None,
        }
    }

    /// Number of compiled stages (0 when none are compiled).
    pub fn stage_count(&self) -> (r: usize)
        ensures
            r == (match self.compiled() {
                Some(st) => st.len(),
                None => 0,
            }),
            self.compiled() matches Some(st) ==> layered(self.registered(), st),
    {
        proof {
            use_type_invariant(self);
        }
        match &self.stages {
            Some(s) => s.len(),
            None => 0,
        }
    }

    /// The system that dependency name `name` resolves to: the last
    /// registered system with that name.
    fn resolve(&self, name: &str) -> (r: Option<usize>)
        ensures
            r is None <==> resolve_name(self.systems@, name@, self.systems@.len() as int) < 0,
            r matches Some(j) ==> j == resolve_name(self.systems@, name@, self.systems@.len() as int),
    {
        let mut j = self.systems.len();
        while j > 0
            invariant
                j <= self.systems@.len(),
                resolve_name(self.systems@, name@, self.systems@.len() as int) == resolve_name(
                    self.systems@,
                    name@,
                    j as int,
                ),
            decreases j,
        {
            j = j - 1;
            if same_name(self.systems[j].name, name) {
                return Some(j);
            }
        }
        None
    }

    /// For every system, the number of its dependencies, and for every
    /// system the list of systems that depend on it (once per dependency).
    fn adjacency(&self) -> (r: (Vec<usize>, Vec<Vec<usize>>))
        requires
            resolvable(self.systems@),
        ensures
            r.0@.len() == self.systems@.len(),
            r.1@.len() == self.systems@.len(),
            forall|i: int| 0 <= i < self.systems@.len() ==> #[trigger] r.0@[i] == self.systems@[i].dependencies@.len(),
            forall|j: int, x: int|
                0 <= j < self.systems@.len() && 0 <= x < self.systems@.len() ==> #[trigger] occ(r.1@[j]@, x)
                    == edges(self.systems@, x, j, self.systems@[x].dependencies@.len() as int),
            forall|j: int, q: int|
                0 <= j < self.systems@.len() && 0 <= q < r.1@[j]@.len() ==> #[trigger] r.1@[j]@[q]
                    < self.systems@.len(),
            forall|j: int, q1: int, q2: int|
                0 <= j < self.systems@.len() && 0 <= q1 < q2 < r.1@[j]@.len() ==> #[trigger] r.1@[j]@[q1]
                    <= #[trigger] r.1@[j]@[q2],
    {
        let n = self.systems.len();
        let ghost sys = self.systems@;
        let mut dep_count: Vec<usize> = Vec::new();
        let mut dependents: Vec<Vec<usize>> = Vec::new();
        let mut k: usize = 0;
        while k < n
            invariant
                k <= n,
                dep_count@.len() == k,
                dependents@.len() == k,
                forall|q: int| 0 <= q < k ==> #[trigger] dep_count@[q] == 0,
                forall|q: int| 0 <= q < k ==> #[trigger] dependents@[q]@ == Seq::<usize>::empty(),
            decreases n - k,
        {
            dep_count.push(0);
            dependents.push(Vec::new());
            k = k + 1;
        }
        let mut i: usize = 0;
        while i < n
            invariant
                n == sys.len(),
                sys == self.systems@,
                resolvable(sys),
                i <= n,
                dep_count@.len() == n,
                dependents@.len() == n,
                forall|q: int| 0 <= q < i ==> #[trigger] dep_count@[q] == sys[q].dependencies@.len(),
                forall|q: int| i <= q < n ==> #[trigger] dep_count@[q] == 0,
                forall|j: int, x: int|
                    0 <= j < n && 0 <= x < n ==> #[trigger] occ(dependents@[j]@, x) == (if x < i {
                        edges(sys, x, j, sys[x].dependencies@.len() as int)
                    } else {
                        0
                    }),
                forall|j: int, q: int|
                    0 <= j < n && 0 <= q < dependents@[j]@.len() ==> #[trigger] dependents@[j]@[q] < n,
                forall|j: int, q: int|
                    0 <= j < n && 0 <= q < dependents@[j]@.len() ==> #[trigger] dependents@[j]@[q] < i,
                forall|j: int, q1: int, q2: int|
                    0 <= j < n && 0 <= q1 < q2 < dependents@[j]@.len() ==> #[trigger] dependents@[j]@[q1]
                        <= #[trigger] dependents@[j]@[q2],
            decreases n - i,
        {
            let deps = &self.systems[i].dependencies;
            let mut d: usize = 0;
            while d < deps.len()
                invariant
                    n == sys.len(),
                    sys == self.systems@,
                    resolvable(sys),
                    i < n,
                    *deps == sys[i as int].dependencies,
                    d <= deps@.len(),
                    dep_count@.len() == n,
                    dependents@.len() == n,
                    forall|q: int| 0 <= q < i ==> #[trigger] dep_count@[q] == sys[q].dependencies@.len(),
                    dep_count@[i as int] == d,
                    forall|q: int| i < q < n ==> #[trigger] dep_count@[q] == 0,
                    forall|j: int, x: int|
                        0 <= j < n && 0 <= x < n ==> #[trigger] occ(dependents@[j]@, x) == (if x < i {
                            edges(sys, x, j, sys[x].dependencies@.len() as int)
                        } else if x == i {
                            edges(sys, x, j, d as int)
                        } else {
                            0
                        }),
                    forall|j: int, q: int|
                        0 <= j < n && 0 <= q < dependents@[j]@.len() ==> #[trigger] dependents@[j]@[q]
                            < n,
                    forall|j: int, q: int|
                        0 <= j < n && 0 <= q < dependents@[j]@.len() ==> #[trigger] dependents@[j]@[q]
                            <= i,
                    forall|j: int, q1: int, q2: int|
                        0 <= j < n && 0 <= q1 < q2 < dependents@[j]@.len() ==> #[trigger] dependents@[j]@[q1]
                            <= #[trigger] dependents@[j]@[q2],
                decreases deps@.len() - d,
            {
                let j = match self.resolve(deps[d]) {
                    Some(j) => j,
                    None => {
                        proof {
                            assert(0 <= target(sys, i as int, d as int));
                        }
                        return (dep_count, dependents);
                    },
                };
                proof {
                    lemma_target_range(sys, i as int, d as int);
                }
                dep_count.set(i, d + 1);
                let ghost before = dependents@;
                dependents[j].push(i);
                proof {
                    assert forall|jj: int, x: int|
                        0 <= jj < n && 0 <= x < n implies #[trigger] occ(dependents@[jj]@, x) == (if x < i {
                            edges(sys, x, jj, sys[x].dependencies@.len() as int)
                        } else if x == i {
                            edges(sys, x, jj, d + 1)
                        } else {
                            0
                        }) by {
                        if jj == j {
                            lemma_occ_push(before[jj]@, i, x);
                        } else {
                            assert(dependents@[jj] == before[jj]);
                        }
                    }
                    assert forall|jj: int, q: int|
                        0 <= jj < n && 0 <= q < dependents@[jj]@.len() implies #[trigger] dependents@[jj]@[q]
                            < n && dependents@[jj]@[q] <= i by {
                        if jj == j && q == before[jj]@.len() {
                        } else {
                            assert(dependents@[jj]@[q] == before[jj]@[q]);
                        }
                    }
                    assert forall|jj: int, q1: int, q2: int|
                        0 <= jj < n && 0 <= q1 < q2 < dependents@[jj]@.len() implies #[trigger] dependents@[jj]@[q1]
                            <= #[trigger] dependents@[jj]@[q2] by {
                        assert(dependents@[jj]@[q1] == before[jj]@[q1]);
                        if jj == j && q2 == before[jj]@.len() {
                        } else {
                            assert(dependents@[jj]@[q2] == before[jj]@[q2]);
                        }
                    }
                }
                d = d + 1;
            }
            i = i + 1;
        }
        (dep_count, dependents)
    }

    /// Compile the dependency graph into stages (Kahn's algorithm, level by
    /// level).  The first stage lists its systems by index; each later stage
    /// in the order they become ready while the stage before is processed.
    ///
    /// Returns `Err` with the names of the systems that could not be ordered
    /// (those on a cycle or depending on one), in registration order, when
    /// the graph has a cycle; no stages are compiled then.  Every dependency
    /// must name a registered system.
    pub fn build(&mut self) -> (r: Result<(), CycleError>)
        requires
            resolvable(old(self).registered()),
        ensures
            final(self).registered() == old(self).registered(),
            r is Ok <==> forall|x: int|
                0 <= x < old(self).registered().len() ==> !#[trigger] stuck(old(self).registered(), x),
            r is Ok <==> !has_cycle(old(self).registered()),
            r is Ok ==> (final(self).compiled() matches Some(st) && layered(old(self).registered(), st)
                && stages_ordered(old(self).registered(), st)),
            r is Err ==> final(self).compiled() is None,
            r matches Err(e) ==> e.0@.map_values(
                |nm: &'static str| nm@,
            ) == stuck_names(old(self).registered(), old(self).registered().len() as int),
    {
        proof {
            use_type_invariant(&*self);
            law_none_stuck_iff_acyclic(self.systems@);
        }
        let n = self.systems.len();
        let ghost sys = self.systems@;
        let (mut dep_count, dependents) = self.adjacency();
        let mut stages: Vec<Vec<usize>> = Vec::new();
        let mut ready: Vec<usize> = Vec::new();
        let mut i: usize = 0;
        while i < n
            invariant
                n == sys.len(),
                sys == self.systems@,
                dep_count@.len() == n,
                i <= n,
                forall|q: int| 0 <= q < ready@.len() ==> #[trigger] ready@[q] < i,
                forall|a: int, b: int| 0 <= a < b < ready@.len() ==> ready@[a] < ready@[b],
                forall|x: int| 0 <= x < n ==> (#[trigger] ready@.contains(x as usize) <==> (x < i
                    && dep_count@[x] == 0)),
            decreases n - i,
        {
            let ghost before = ready@;
            if dep_count[i] == 0 {
                ready.push(i);
            }
            i = i + 1;
            proof {
                assert forall|x: int| 0 <= x < n implies (#[trigger] ready@.contains(x as usize) <==> (x < i
                    && dep_count@[x] == 0)) by {
                    if ready@.contains(x as usize) {
                        let q = choose|q: int| 0 <= q < ready@.len() && ready@[q] == x as usize;
                        if q < before.len() {
                            assert(before[q] == x as usize);
                            assert(before.contains(x as usize));
                        }
                    }
                    if x < i - 1 && dep_count@[x] == 0 {
                        assert(before.contains(x as usize));
                        let q = choose|q: int| 0 <= q < before.len() && before[q] == x as usize;
                        assert(ready@[q] == x as usize);
                    }
                    if x == i - 1 && dep_count@[x] == 0 {
                        assert(ready@[ready@.len() - 1] == x as usize);
                    }
                }
            }
        }
        let mut processed: usize = 0;
        let ghost mut p: Set<int> = Set::empty();
        proof {
            assert forall|x: int| 0 <= x < n implies #[trigger] dep_count@[x] == open_deps(
                sys,
                x,
                p,
                sys[x].dependencies@.len() as int,
            ) by {
                lemma_open_none(sys, x, sys[x].dependencies@.len() as int);
            }
            assert(ready@.no_duplicates()) by {
                assert forall|a: int, b: int| 0 <= a < ready@.len() && 0 <= b < ready@.len() && a != b
                    implies ready@[a] != ready@[b] by {
                    if a < b {
                        assert(ready@[a] < ready@[b]);
                    } else {
                        assert(ready@[b] < ready@[a]);
                    }
                }
            }
            lemma_num_empty(n as int);
            assert(stage_lists(stages@) =~= Seq::<Seq<usize>>::empty());
        }
        while !ready.is_empty()
            invariant
                n == sys.len(),
                sys == self.systems@,
                resolvable(sys),
                dep_count@.len() == n,
                dependents@.len() == n,
                forall|j: int, x: int|
                    0 <= j < n && 0 <= x < n ==> #[trigger] occ(dependents@[j]@, x) == edges(
                        sys,
                        x,
                        j,
                        sys[x].dependencies@.len() as int,
                    ),
                forall|j: int, q: int|
                    0 <= j < n && 0 <= q < dependents@[j]@.len() ==> #[trigger] dependents@[j]@[q] < n,
                forall|x: int|
                    #[trigger] p.contains(x) <==> (0 <= x < n && placed_before(
                        stage_lists(stages@),
                        x,
                        stages@.len() as int,
                    )),
                stages_disjoint(sys, stage_lists(stages@)),
                deps_before(sys, stage_lists(stages@)),
                deps_tight(sys, stage_lists(stages@)),
                ready@.no_duplicates(),
                forall|q: int| 0 <= q < ready@.len() ==> #[trigger] ready@[q] < n,
                forall|x: int|
                    0 <= x < n ==> (#[trigger] ready@.contains(x as usize) <==> (!p.contains(x)
                        && dep_count@[x] == 0)),
                forall|x: int|
                    0 <= x < n && !p.contains(x) ==> #[trigger] dep_count@[x] == open_deps(
                        sys,
                        x,
                        p,
                        sys[x].dependencies@.len() as int,
                    ),
                forall|x: int| 0 <= x < n && p.contains(x) ==> #[trigger] dep_count@[x] == 0,
                stages@.len() > 0 ==> forall|x: usize| #[trigger]
                    ready@.contains(x) ==> exists|d: int|
                        0 <= d < sys[x as int].dependencies@.len() && #[trigger] stage_lists(
                            stages@,
                        )[stages@.len() - 1].contains(target(sys, x as int, d) as usize),
                processed == num_in(p, n as int),
                forall|j: int, q1: int, q2: int|
                    0 <= j < n && 0 <= q1 < q2 < dependents@[j]@.len() ==> #[trigger] dependents@[j]@[q1]
                        <= #[trigger] dependents@[j]@[q2],
                stages@.len() == 0 ==> forall|a: int, b: int| 0 <= a < b < ready@.len() ==> ready@[a] < ready@[b],
                stages_ordered(sys, stage_lists(stages@)),
                stages@.len() > 0 ==> discovery_ordered(sys, stage_lists(stages@)[stages@.len() - 1], ready@),
            decreases n - processed,
        {
            let ghost st = stage_lists(stages@);
            let ghost l = stages@.len() as int;
            proof {
                lemma_num_full(p, n as int);
                // ready systems depend only on placed systems
                assert forall|x: int, d: int|
                    0 <= x < n && ready@.contains(x as usize) && 0 <= d < sys[x].dependencies@.len()
                        implies p.contains(#[trigger] target(sys, x, d)) by {
                    lemma_open_zero(sys, x, p, sys[x].dependencies@.len() as int);
                }
                assert forall|x: int, d: int|
                    0 <= x < n && p.contains(x) && 0 <= d < sys[x].dependencies@.len() implies p.contains(
                        #[trigger] target(sys, x, d),
                    ) by {
                    let l2 = choose|l2: int| 0 <= l2 < l && #[trigger] st[l2].contains(x as usize);
                    assert(st[l2].contains(x as usize));
                    assert(placed_before(st, target(sys, x, d), l2));
                    lemma_target_range(sys, x, d);
                    let l3 = choose|l3: int| 0 <= l3 < l2 && #[trigger] st[l3].contains(target(sys, x, d) as usize);
                }
                assert forall|q: int| 0 <= q < ready@.len() implies !p.contains(#[trigger] ready@[q] as int) by {
                    assert(ready@.contains(ready@[q]));
                }
                assert forall|x: int|
                    0 <= x < n && !p.contains(x) && !ready@.contains(x as usize) implies #[trigger] dep_count@[x] > 0 by {
                }
                assert forall|q: int| 0 <= q < ready@.len() implies #[trigger] dep_count@[ready@[q] as int] == 0 by {
                    assert(ready@.contains(ready@[q]));
                }
                lemma_num_union_seq(p, ready@, n as int);
                lemma_num_full(p.union(seq_set(ready@)), n as int);
            }
            stages.push(copy_indices(&ready));
            processed = processed + ready.len();
            let ghost cnt_before = dep_count@;
            let next = drain_level::<R>(&mut dep_count, &dependents, &ready, Ghost(sys), Ghost(p));
            proof {
                let st2 = stage_lists(stages@);
                let p2 = p.union(seq_set(ready@));
                assert(st2 =~= st.push(ready@));
                assert forall|x: int| #[trigger] p2.contains(x) <==> (0 <= x < n && placed_before(
                    st2,
                    x,
                    l + 1,
                )) by {
                    if p2.contains(x) {
                        if p.contains(x) {
                            let l2 = choose|l2: int| 0 <= l2 < l && #[trigger] st[l2].contains(x as usize);
                            assert(st2[l2] == st[l2]);
                        } else {
                            let q = choose|q: int| 0 <= q < ready@.len() && #[trigger] ready@[q] as int == x;
                            assert(st2[l].contains(x as usize));
                        }
                    }
                    if 0 <= x < n && placed_before(st2, x, l + 1) {
                        let l2 = choose|l2: int| 0 <= l2 < l + 1 && #[trigger] st2[l2].contains(x as usize);
                        if l2 < l {
                            assert(st[l2].contains(x as usize));
                            assert(placed_before(st, x, l));
                        } else {
                            let q = choose|q: int| 0 <= q < ready@.len() && ready@[q] == x as usize;
                            assert(ready@[q] as int == x);
                            assert(seq_set(ready@).contains(x));
                        }
                    }
                }
                assert(stages_disjoint(sys, st2)) by {
                    assert forall|l1: int, l3: int, x: usize|
                        #![trigger st2[l1].contains(x), st2[l3].contains(x)]
                        0 <= l1 < l3 < st2.len() && st2[l1].contains(x) implies !st2[l3].contains(x) by {
                        if l3 == l {
                            assert(st[l1].contains(x));
                            assert((x as int) as usize == x);
                            assert(placed_before(st, x as int, l));
                            assert(p.contains(x as int));
                        }
                    }
                }
                assert(deps_before(sys, st2)) by {
                    assert forall|l1: int, x: usize, d: int|
                        #![trigger st2[l1].contains(x), target(sys, x as int, d)]
                        0 <= l1 < st2.len() && st2[l1].contains(x) && 0 <= d < sys[x as int].dependencies@.len()
                            implies placed_before(st2, target(sys, x as int, d), l1) by {
                        lemma_target_range(sys, x as int, d);
                        let t = target(sys, x as int, d);
                        if l1 < l {
                            assert(st[l1].contains(x));
                            assert(placed_before(st, t, l1));
                            let l2 = choose|l2: int| 0 <= l2 < l1 && #[trigger] st[l2].contains(t as usize);
                            assert(st2[l2] == st[l2]);
                        } else {
                            assert(ready@.contains(x));
                            assert(p.contains(t));
                            let l2 = choose|l2: int| 0 <= l2 < l && #[trigger] st[l2].contains(t as usize);
                            assert(st2[l2] == st[l2]);
                        }
                    }
                }
                assert(deps_tight(sys, st2)) by {
                    assert forall|l1: int, x: usize|
                        0 < l1 < st2.len() && #[trigger] st2[l1].contains(x) implies exists|d: int|
                            0 <= d < sys[x as int].dependencies@.len() && #[trigger] st2[l1 - 1].contains(
                                target(sys, x as int, d) as usize,
                            ) by {
                        if l1 < l {
                            assert(st[l1].contains(x));
                            let d = choose|d: int|
                                0 <= d < sys[x as int].dependencies@.len() && #[trigger] st[l1 - 1].contains(
                                    target(sys, x as int, d) as usize,
                                );
                            assert(st2[l1 - 1] == st[l1 - 1]);
                        } else {
                            assert(ready@.contains(x));
                            let d = choose|d: int|
                                0 <= d < sys[x as int].dependencies@.len() && #[trigger] st[l - 1].contains(
                                    target(sys, x as int, d) as usize,
                                );
                            assert(st2[l1 - 1] == st[l - 1]);
                        }
                    }
                }
                // systems of the next stage depend on a system of this one
                assert forall|x: usize| #[trigger] next@.contains(x) implies exists|d: int|
                    0 <= d < sys[x as int].dependencies@.len() && #[trigger] stage_lists(stages@)[stages@.len() - 1].contains(
                        target(sys, x as int, d) as usize,
                    ) by {
                    let q = choose|q: int| 0 <= q < next@.len() && next@[q] == x;
                    assert(x < n);
                    assert(next@.contains((x as int) as usize));
                    assert(!ready@.contains(x)) by {
                        if ready@.contains(x) {
                            let q2 = choose|q2: int| 0 <= q2 < ready@.len() && ready@[q2] == x;
                            assert(seq_set(ready@).contains(x as int));
                        }
                    }
                    assert(!p.contains(x as int)) by {
                        if p.contains(x as int) {
                            assert(p2.contains(x as int));
                        }
                    }
                    assert(cnt_before[x as int] > 0);
                    lemma_open_zero(sys, x as int, p, sys[x as int].dependencies@.len() as int);
                    lemma_open_zero(sys, x as int, p2, sys[x as int].dependencies@.len() as int);
                    let d = choose|d: int|
                        0 <= d < sys[x as int].dependencies@.len() && !p.contains(#[trigger] target(sys, x as int, d));
                    let t = target(sys, x as int, d);
                    lemma_target_range(sys, x as int, d);
                    assert(p2.contains(t));
                    let q3 = choose|q3: int| 0 <= q3 < ready@.len() && #[trigger] ready@[q3] as int == t;
                    assert(ready@[q3] == t as usize);
                    assert(st2[l] == ready@);
                    assert(st2[l].contains(t as usize));
                    assert(stage_lists(stages@)[stages@.len() - 1].contains(
                        target(sys, x as int, d) as usize,
                    ));
                }
                lemma_num_union_seq(p, ready@, n as int);
                p = p2;
            }
            ready = next;
            proof {
                assert forall|x: usize| #[trigger] ready@.contains(x) implies exists|d: int|
                    0 <= d < sys[x as int].dependencies@.len() && #[trigger] stage_lists(stages@)[stages@.len() - 1].contains(
                        target(sys, x as int, d) as usize,
                    ) by {
                    assert(next@.contains(x));
                }
            }
        }
        let ghost st = stage_lists(stages@);
        proof {
            lemma_num_full(p, n as int);
            assert forall|x: int| 0 <= x < n && !p.contains(x) implies #[trigger] dep_count@[x] > 0 by {
                if dep_count@[x] == 0 {
                    assert(ready@.contains(x as usize));
                }
            }
            lemma_rest_stuck(sys, p, dep_count@);
            assert forall|x: int| 0 <= x < n && p.contains(x) implies !#[trigger] stuck(sys, x) by {
                lemma_placed_not_stuck(sys, st, x);
            }
            assert forall|x: int| 0 <= x < n implies (#[trigger] dep_count@[x] > 0 <==> stuck(sys, x)) by {
                if p.contains(x) {
                    assert(!stuck(sys, x));
                } else {
                    assert(stuck(sys, x));
                }
            }
        }
        if processed < n {
            proof {
                let x = choose|x: int| 0 <= x < n && !p.contains(x);
                assert(stuck(sys, x));
                // stages compiled earlier would layer these same systems,
                // leaving none stuck: there are none
                if self.stages is Some {
                    let st0 = self.compiled()->0;
                    assert(layered(sys, st0));
                    lemma_placed_not_stuck(sys, st0, x);
                }
            }
            let mut names: Vec<&'static str> = Vec::new();
            let mut i: usize = 0;
            while i < n
                invariant
                    n == sys.len(),
                    sys == self.systems@,
                    i <= n,
                    dep_count@.len() == n,
                    forall|x: int| 0 <= x < n ==> (#[trigger] dep_count@[x] > 0 <==> stuck(sys, x)),
                    names@.map_values(|nm: &'static str| nm@) == stuck_names(sys, i as int),
                decreases n - i,
            {
                if dep_count[i] > 0 {
                    names.push(self.systems[i].name);
                }
                i = i + 1;
                proof {
                    assert(names@.map_values(|nm: &'static str| nm@) =~= stuck_names(sys, i as int));
                }
            }
            return Err(CycleError(names));
        }
        proof {
            assert forall|x: int| 0 <= x < n implies #[trigger] placed_before(st, x, st.len() as int) by {
                assert(p.contains(x));
            }
        }
        self.stages = Some(stages);
        Ok(())
    }

    /// The first dependency, in registration order and then in the order
    /// the system lists them, that names no registered system, as the pair
    /// (name of the system, name of the dependency); `None` when every
    /// dependency resolves.
    pub fn missing_dependency(&self) -> (r: Option<(&'static str, &'static str)>)
        ensures
            r is None <==> resolvable(self.registered()),
            r matches Some(p) ==> exists|i: int, d: int|
                0 <= i < self.registered().len() && 0 <= d < self.registered()[i].dependencies@.len()
                    && p.0 == self.registered()[i].name && p.1 == self.registered()[i].dependencies@[d]
                    && #[trigger] target(self.registered(), i, d) < 0
                    && (forall|i2: int, d2: int|
                    0 <= i2 < self.registered().len() && 0 <= d2 < self.registered()[i2].dependencies@.len()
                        && (i2 < i || (i2 == i && d2 < d)) ==> 0 <= #[trigger] target(
                        self.registered(),
                        i2,
                        d2,
                    )),
    {
        let n = self.systems.len();
        let mut i: usize = 0;
        while i < n
            invariant
                n == self.systems@.len(),
                i <= n,
                forall|i2: int, d: int|
                    0 <= i2 < i && 0 <= d < self.systems@[i2].dependencies@.len() ==> 0 <= #[trigger] target(
                        self.systems@,
                        i2,
                        d,
                    ),
            decreases n - i,
        {
            let deps = &self.systems[i].dependencies;
            let mut d: usize = 0;
            while d < deps.len()
                invariant
                    n == self.systems@.len(),
                    i < n,
                    *deps == self.systems@[i as int].dependencies,
                    d <= deps@.len(),
                    forall|i2: int, d2: int|
                        0 <= i2 < i && 0 <= d2 < self.systems@[i2].dependencies@.len() ==> 0
                            <= #[trigger] target(self.systems@, i2, d2),
                    forall|d2: int| 0 <= d2 < d ==> 0 <= #[trigger] target(self.systems@, i as int, d2),
                decreases deps@.len() - d,
            {
                match self.resolve(deps[d]) {
                    Some(_) => {},
                    None => {
                        let p = (self.systems[i].name, deps[d]);
                        proof {
                            assert(target(self.registered(), i as int, d as int) < 0);
                            assert(p.0 == self.systems@[i as int].name);
                            assert(p.1 == self.systems@[i as int].dependencies@[d as int]);
                        }
                        return Some(p);
                    },
                }
                d = d + 1;
            }
            i = i + 1;
        }
        None
    }
}

/// System `a` lists a dependency that resolves to system `b`.
pub open spec fn depends_on<R>(sys: Seq<SystemDescriptor<R>>, a: int, b: int) -> bool {
    exists|d: int| 0 <= d < sys[a].dependencies@.len() && #[trigger] target(sys, a, d) == b
}

/// `w` starts at system `x`, each of its systems depends on the next, and
/// its last system occurs earlier in it: following dependencies from `x`
/// leads into a dependency cycle (a system that depends on itself counts).
pub open spec fn leads_into_cycle<R>(sys: Seq<SystemDescriptor<R>>, x: int, w: Seq<int>) -> bool {
    &&& w.len() >= 2
    &&& w[0] == x
    &&& forall|i: int| 0 <= i < w.len() ==> 0 <= #[trigger] w[i] < sys.len()
    &&& forall|i: int, j: int|
        #![trigger w[i], w[j]]
        0 <= i && j == i + 1 && j < w.len() ==> depends_on(sys, w[i], w[j])
    &&& exists|j: int| 0 <= j < w.len() - 1 && #[trigger] w[j] == w[w.len() - 1]
}

/// Some system of `sys` lies on a dependency cycle.
pub open spec fn has_cycle<R>(sys: Seq<SystemDescriptor<R>>) -> bool {
    exists|x: int, w: Seq<int>| 0 <= x < sys.len() && #[trigger] leads_into_cycle(sys, x, w)
}

/// A dependency of `v` that lies in `s`.
spec fn step_in<R>(sys: Seq<SystemDescriptor<R>>, s: Set<int>, v: int) -> int {
    target(
        sys,
        v,
        choose|d: int| 0 <= d < sys[v].dependencies@.len() && s.contains(#[trigger] target(sys, v, d)),
    )
}

/// The walk of `k` steps from `x` that always steps to a dependency in `s`.
spec fn walk_in<R>(sys: Seq<SystemDescriptor<R>>, s: Set<int>, x: int, k: nat) -> Seq<int>
    decreases k,
{
    if k == 0 {
        seq![x]
    } else {
        let w = walk_in(sys, s, x, (k - 1) as nat);
        w.push(step_in(sys, s, w.last()))
    }
}

proof fn lemma_walk_in<R>(sys: Seq<SystemDescriptor<R>>, s: Set<int>, x: int, k: nat)
    requires
        blocked(sys, s),
        s.contains(x),
    ensures
        walk_in(sys, s, x, k).len() == k + 1,
        walk_in(sys, s, x, k)[0] == x,
        forall|i: int| 0 <= i <= k ==> s.contains(#[trigger] walk_in(sys, s, x, k)[i]),
        forall|i: int, j: int|
            #![trigger walk_in(sys, s, x, k)[i], walk_in(sys, s, x, k)[j]]
            0 <= i && j == i + 1 && j <= k ==> depends_on(sys, walk_in(sys, s, x, k)[i], walk_in(sys, s, x, k)[j]),
    decreases k,
{
    if k > 0 {
        lemma_walk_in(sys, s, x, (k - 1) as nat);
        let w0 = walk_in(sys, s, x, (k - 1) as nat);
        let v = w0.last();
        assert(s.contains(w0[k - 1]));
        assert(s.contains(v));
        let d = choose|d: int| 0 <= d < sys[v].dependencies@.len() && s.contains(#[trigger] target(sys, v, d));
        assert(s.contains(step_in(sys, s, v)));
        let w = walk_in(sys, s, x, k);
        assert forall|i: int, j: int| 0 <= i && j == i + 1 && j <= k implies depends_on(
            sys,
            #[trigger] w[i],
            #[trigger] w[j],
        ) by {
            if i < k - 1 {
                assert(w[i] == w0[i]);
                assert(w[j] == w0[j]);
            } else {
                let d2 = choose|d2: int|
                    0 <= d2 < sys[v].dependencies@.len() && s.contains(#[trigger] target(sys, v, d2));
                assert(target(sys, v, d2) == w[j]);
            }
        }
        assert forall|i: int| 0 <= i <= k implies s.contains(#[trigger] w[i]) by {
            if i < k {
                assert(w[i] == w0[i]);
            }
        }
    }
}

/// Values below `n` repeat in any sequence of more than `n` of them.
proof fn lemma_pigeonhole(w: Seq<int>, n: int)
    requires
        0 <= n < w.len(),
        forall|i: int| 0 <= i < w.len() ==> 0 <= #[trigger] w[i] < n,
    ensures
        exists|i: int, j: int| 0 <= i < j < w.len() && w[i] == w[j],
{
    if w.no_duplicates() {
        w.unique_seq_to_set();
        vstd::set_lib::lemma_int_range(0, n);
        assert(w.to_set().subset_of(vstd::set_lib::set_int_range(0, n))) by {
            assert forall|v: int| w.to_set().contains(v) implies vstd::set_lib::set_int_range(0, n).contains(v) by {
                let i = choose|i: int| 0 <= i < w.len() && w[i] == v;
            }
        }
        vstd::set_lib::lemma_len_subset(w.to_set(), vstd::set_lib::set_int_range(0, n));
    } else {
        let (i, j) = choose|i: int, j: int| 0 <= i < w.len() && 0 <= j < w.len() && i != j && w[i] == w[j];
        if j < i {
            assert(w[j] == w[i]);
        }
    }
}

/// From a stuck system, dependencies lead into a cycle.
proof fn lemma_stuck_leads_into_cycle<R>(sys: Seq<SystemDescriptor<R>>, x: int) -> (c: Seq<int>)
    requires
        0 <= x < sys.len(),
        stuck(sys, x),
    ensures
        leads_into_cycle(sys, x, c),
{
    let s = choose|s: Set<int>| #[trigger] s.contains(x) && blocked(sys, s);
    let n = sys.len() as int;
    let w = walk_in(sys, s, x, n as nat);
    lemma_walk_in(sys, s, x, n as nat);
    assert forall|i: int| 0 <= i < w.len() implies 0 <= #[trigger] w[i] < n by {
        assert(s.contains(w[i]));
    }
    lemma_pigeonhole(w, n);
    let (i, j) = choose|i: int, j: int| 0 <= i < j < w.len() && w[i] == w[j];
    let c = w.subrange(0, j + 1);
    assert(c[i] == c[c.len() - 1]);
    assert forall|a: int, b: int| 0 <= a && b == a + 1 && b < c.len() implies depends_on(
        sys,
        #[trigger] c[a],
        #[trigger] c[b],
    ) by {
        assert(c[a] == w[a]);
        assert(c[b] == w[b]);
    }
    assert forall|a: int| 0 <= a < c.len() implies 0 <= #[trigger] c[a] < sys.len() by {
        assert(c[a] == w[a]);
    }
    c
}

/// A system from which dependencies lead into a cycle is stuck: the systems
/// of the walk form a blocked set.
proof fn lemma_cycle_stuck<R>(sys: Seq<SystemDescriptor<R>>, x: int, w: Seq<int>)
    requires
        leads_into_cycle(sys, x, w),
    ensures
        stuck(sys, x),
{
    let last = w.len() - 1;
    let j = choose|j: int| 0 <= j < last && #[trigger] w[j] == w[last];
    let s = Set::new(|v: int| exists|i: int| 0 <= i < w.len() && w[i] == v);
    assert forall|v: int| #[trigger] s.contains(v) implies 0 <= v < sys.len() && exists|d: int|
        0 <= d < sys[v].dependencies@.len() && s.contains(#[trigger] target(sys, v, d)) by {
        let i = choose|i: int| 0 <= i < w.len() && w[i] == v;
        let i2 = if i < last {
            i
        } else {
            j
        };
        assert(w[i2] == v);
        assert(depends_on(sys, w[i2], w[i2 + 1]));
        let d = choose|d: int| 0 <= d < sys[v].dependencies@.len() && #[trigger] target(sys, v, d) == w[i2 + 1];
        assert(s.contains(w[i2 + 1]));
    }
    assert(blocked(sys, s));
    assert(s.contains(w[0]));
}

/// A system is stuck exactly when following its dependencies leads into a
/// dependency cycle.
pub proof fn law_stuck_iff_leads_into_cycle<R>(sys: Seq<SystemDescriptor<R>>, x: int)
    requires
        0 <= x < sys.len(),
    ensures
        stuck(sys, x) <==> exists|w: Seq<int>| #[trigger] leads_into_cycle(sys, x, w),
{
    if stuck(sys, x) {
        let c = lemma_stuck_leads_into_cycle(sys, x);
    }
    if exists|w: Seq<int>| #[trigger] leads_into_cycle(sys, x, w) {
        let w = choose|w: Seq<int>| #[trigger] leads_into_cycle(sys, x, w);
        lemma_cycle_stuck(sys, x, w);
    }
}

/// No system is stuck exactly when the dependency graph has no cycle.
pub proof fn law_none_stuck_iff_acyclic<R>(sys: Seq<SystemDescriptor<R>>)
    ensures
        (forall|x: int| 0 <= x < sys.len() ==> !#[trigger] stuck(sys, x)) <==> !has_cycle(sys),
{
    if has_cycle(sys) {
        let (x, w) = choose|x: int, w: Seq<int>| 0 <= x < sys.len() && #[trigger] leads_into_cycle(sys, x, w);
        lemma_cycle_stuck(sys, x, w);
    }
    if exists|x: int| 0 <= x < sys.len() && #[trigger] stuck(sys, x) {
        let x = choose|x: int| 0 <= x < sys.len() && #[trigger] stuck(sys, x);
        let w = lemma_stuck_leads_into_cycle(sys, x);
        assert(leads_into_cycle(sys, x, w));
    }
}

/// In a layering, a system without dependencies runs in the first stage.
pub proof fn law_roots_first<R>(sys: Seq<SystemDescriptor<R>>, st: Seq<Seq<usize>>, x: usize)
    requires
        layered(sys, st),
        x < sys.len(),
        sys[x as int].dependencies@.len() == 0,
    ensures
        st.len() > 0,
        st[0].contains(x),
{
    assert(placed_before(st, x as int, st.len() as int));
    let l = choose|l: int| 0 <= l < st.len() && #[trigger] st[l].contains((x as int) as usize);
    assert((x as int) as usize == x);
    if l > 0 {
        assert(st[l].contains(x));
    }
}

/// Systems that depend on nothing all run together in a single stage.
pub proof fn law_independent_single_stage<R>(sys: Seq<SystemDescriptor<R>>, st: Seq<Seq<usize>>)
    requires
        layered(sys, st),
        sys.len() > 0,
        forall|x: int| 0 <= x < sys.len() ==> #[trigger] sys[x].dependencies@.len() == 0,
    ensures
        st.len() == 1,
{
    law_roots_first(sys, st, 0);
    if st.len() > 1 {
        assert(st[1].len() > 0);
        let x = st[1][0];
        assert(st[1].contains(x));
        assert(x < sys.len());
        assert(sys[x as int].dependencies@.len() == 0);
    }
}

/// A system in stage `l` of one layering is in stage `l` of any other.
proof fn lemma_same_stage<R>(
    sys: Seq<SystemDescriptor<R>>,
    st1: Seq<Seq<usize>>,
    st2: Seq<Seq<usize>>,
    l: int,
    x: usize,
)
    requires
        layered(sys, st1),
        layered(sys, st2),
        0 <= l < st1.len(),
        st1[l].contains(x),
    ensures
        l < st2.len(),
        st2[l].contains(x),
    decreases l,
{
    assert(x < sys.len());
    assert(placed_before(st2, x as int, st2.len() as int));
    let l2 = choose|l2: int| 0 <= l2 < st2.len() && #[trigger] st2[l2].contains((x as int) as usize);
    assert((x as int) as usize == x);
    if l2 > l {
        assert(st2[l2].contains(x));
        let d = choose|d: int|
            0 <= d < sys[x as int].dependencies@.len() && #[trigger] st2[l2 - 1].contains(
                target(sys, x as int, d) as usize,
            );
        let t = target(sys, x as int, d);
        assert(placed_before(st1, t, l));
        let l3 = choose|l3: int| 0 <= l3 < l && #[trigger] st1[l3].contains(t as usize);
        lemma_same_stage(sys, st1, st2, l3, t as usize);
        assert(st2[l3].contains(t as usize));
        assert(!st2[l2 - 1].contains(t as usize));
    } else if l2 < l {
        let d = choose|d: int|
            0 <= d < sys[x as int].dependencies@.len() && #[trigger] st1[l - 1].contains(
                target(sys, x as int, d) as usize,
            );
        let t = target(sys, x as int, d);
        lemma_same_stage(sys, st1, st2, l - 1, t as usize);
        assert(st2[l2].contains(x));
        assert(placed_before(st2, t, l2));
        let l4 = choose|l4: int| 0 <= l4 < l2 && #[trigger] st2[l4].contains(t as usize);
        assert(!st2[l - 1].contains(t as usize));
    }
}

/// The layering of a dependency graph is unique: any two layerings have the
/// same stages, holding the same systems.
pub proof fn law_layering_unique<R>(
    sys: Seq<SystemDescriptor<R>>,
    st1: Seq<Seq<usize>>,
    st2: Seq<Seq<usize>>,
)
    requires
        layered(sys, st1),
        layered(sys, st2),
    ensures
        st1.len() == st2.len(),
        forall|l: int, x: usize| 0 <= l < st1.len() ==> (#[trigger] st1[l].contains(x) <==> st2[l].contains(x)),
{
    assert forall|l: int, x: usize| 0 <= l < st1.len() && #[trigger] st1[l].contains(x) implies l < st2.len()
        && st2[l].contains(x) by {
        lemma_same_stage(sys, st1, st2, l, x);
    }
    assert forall|l: int, x: usize| 0 <= l < st2.len() && #[trigger] st2[l].contains(x) implies l < st1.len()
        && st1[l].contains(x) by {
        lemma_same_stage(sys, st2, st1, l, x);
    }
    if st1.len() > st2.len() {
        let l = st1.len() - 1;
        assert(st1[l].contains(st1[l][0]));
    } else if st2.len() > st1.len() {
        let l = st2.len() - 1;
        assert(st2[l].contains(st2[l][0]));
    }
}

impl<R> Default for Scheduler<R> {
    fn default() -> (r: Self)
        ensures
            r.registered() == Seq::<SystemDescriptor<R>>::empty(),
            r.compiled() is None,
    {
        Self::new()
    }
}

} // verus!
