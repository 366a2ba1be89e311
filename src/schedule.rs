//! The schedule builder: named units of work with dependency names, validated
//! and compiled into a staged schedule.
use vstd::prelude::*;
use vstd::set_lib::{lemma_int_range, lemma_len_subset, set_int_range};

verus! {

/// What a concurrently schedulable unit of work does.
#[derive(PartialEq, Eq, Structural, Debug, Clone, Copy)]
pub enum SystemKind {
    /// Loads and refreshes font assets.
    FontProcessor,
    /// Core UI state update.
    Ui,
    /// Reacts to screen resizes for UI elements.
    UiResize,
    /// Mouse handling for UI elements, specialised by the input axis types.
    UiMouse,
    /// UI layout.
    UiLayout,
    /// Resolution of UI parent relationships.
    UiParent,
    /// Ordering of visible and transparent surfaces before rendering.
    VisibilitySorting,
    /// A unit contributed by another bundle, known here by its name only.
    Other,
}

/// A concurrently schedulable unit: what it does, its name, and the names of
/// the units that must finish before it starts in each tick.
pub struct Registration {
    pub system: SystemKind,
    pub name: String,
    pub dependencies: Vec<String>,
}

impl Registration {
    /// The dependency names, as character sequences.
    pub open spec fn dependency_names(self) -> Seq<Seq<char>> {
        self.dependencies@.map_values(|d: String| d@)
    }

    /// The unit declares a dependency on the name `n`.
    pub open spec fn declares(self, n: Seq<char>) -> bool {
        exists|k: int| 0 <= k < self.dependencies@.len() && #[trigger] self.dependencies@[k]@ == n
    }
}

/// `r` is a unit doing `system`, registered under `name`, with the dependency names `deps`.
pub open spec fn registered_as(r: Registration, system: SystemKind, name: Seq<char>, deps: Seq<Seq<char>>) -> bool {
    &&& r.system == system
    &&& r.name@ == name
    &&& r.dependency_names() == deps
}

/// `after` is `before` followed by units as `added` describes them, in order.
pub open spec fn extends_with(
    before: Seq<Registration>,
    after: Seq<Registration>,
    added: Seq<(SystemKind, Seq<char>, Seq<Seq<char>>)>,
) -> bool {
    &&& after.len() == before.len() + added.len()
    &&& after.take(before.len() as int) == before
    &&& forall|k: int|
        0 <= k < added.len() ==> registered_as(
            #[trigger] after[before.len() + k],
            added[k].0,
            added[k].1,
            added[k].2,
        )
}

/// No two of the first `m` units share a name.
pub open spec fn names_unique_upto(units: Seq<Registration>, m: int) -> bool {
    forall|a: int, b: int|
        #![trigger units[a], units[b]]
        0 <= a < b < m ==> units[a].name@ != units[b].name@
}

/// No two units share a name.
pub open spec fn names_unique(units: Seq<Registration>) -> bool {
    names_unique_upto(units, units.len() as int)
}

/// Unit `j` is the first whose name an earlier unit already has.
pub open spec fn first_duplicate(units: Seq<Registration>, j: int) -> bool {
    &&& 0 <= j < units.len()
    &&& names_unique_upto(units, j)
    &&& exists|i: int| 0 <= i < j && #[trigger] units[i].name@ == units[j].name@
}

/// Some unit is registered under the name `n`.
pub open spec fn registers(units: Seq<Registration>, n: Seq<char>) -> bool {
    exists|j: int| 0 <= j < units.len() && #[trigger] units[j].name@ == n
}

/// Dependency `k` of unit `i` names a registered unit.
pub open spec fn resolved(units: Seq<Registration>, i: int, k: int) -> bool {
    registers(units, units[i].dependencies@[k]@)
}

/// Every dependency of every unit names a registered unit.
pub open spec fn all_resolved(units: Seq<Registration>) -> bool {
    forall|i: int, k: int|
        0 <= i < units.len() && 0 <= k < units[i].dependencies@.len() ==> #[trigger] resolved(
            units,
            i,
            k,
        )
}

/// Dependency `k` of unit `i` is the first unresolved one, taking units in
/// registration order and each unit's dependencies in declared order.
pub open spec fn first_unresolved(units: Seq<Registration>, i: int, k: int) -> bool {
    &&& 0 <= i < units.len()
    &&& 0 <= k < units[i].dependencies@.len()
    &&& !resolved(units, i, k)
    &&& forall|i2: int, k2: int|
        0 <= i2 < i && 0 <= k2 < units[i2].dependencies@.len() ==> #[trigger] resolved(
            units,
            i2,
            k2,
        )
    &&& forall|k2: int| 0 <= k2 < k ==> #[trigger] resolved(units, i, k2)
}

/// Unit `b` depends directly on unit `a`.
pub open spec fn depends_on(units: Seq<Registration>, b: int, a: int) -> bool {
    &&& 0 <= a < units.len()
    &&& 0 <= b < units.len()
    &&& units[b].declares(units[a].name@)
}

/// `rank` gives every unit a number above those of its dependencies.
pub open spec fn ranks_respect(units: Seq<Registration>, rank: Seq<nat>) -> bool {
    &&& rank.len() == units.len()
    &&& forall|a: int, b: int| #[trigger] depends_on(units, b, a) ==> rank[a] < rank[b]
}

/// The dependency graph has no cycle: its units can be ranked.
pub open spec fn acyclic(units: Seq<Registration>) -> bool {
    exists|rank: Seq<nat>| ranks_respect(units, rank)
}

/// `stage` and `order` are a valid staging of `units`: `order` lists every
/// unit once, by non-decreasing stage, and each unit's stage lies above the
/// stages of all its dependencies.
pub open spec fn staging_valid(units: Seq<Registration>, stage: Seq<usize>, order: Seq<usize>) -> bool {
    let n = units.len();
    &&& stage.len() == n
    &&& order.len() == n
    &&& forall|p: int| 0 <= p < n ==> #[trigger] order[p] < n
    &&& forall|p: int, q: int| #![trigger order[p], order[q]] 0 <= p < q < n ==> order[p] != order[q]
    &&& forall|i: usize| i < n ==> #[trigger] order.contains(i)
    &&& forall|a: int, b: int| #[trigger] depends_on(units, b, a) ==> stage[a] < stage[b]
    &&& forall|p: int, q: int|
        #![trigger order[p], order[q]]
        0 <= p < q < n ==> stage[order[p] as int] <= stage[order[q] as int]
}

/// Each unit sits in the lowest stage that its dependencies allow, one above
/// the highest of theirs, and the units of one stage are listed in
/// registration order.
pub open spec fn staging_canonical(units: Seq<Registration>, stage: Seq<usize>, order: Seq<usize>) -> bool {
    &&& forall|b: int|
        0 <= b < units.len() && #[trigger] stage[b] > 0 ==> exists|a: int|
            #[trigger] depends_on(units, b, a) && stage[a] + 1 == stage[b]
    &&& forall|p: int, q: int|
        #![trigger order[p], order[q]]
        0 <= p < q < order.len() && stage[order[p] as int] == stage[order[q] as int] ==> order[p]
            < order[q]
}

/// The abstract content of a schedule builder.
pub struct BuilderView<T> {
    /// Concurrently schedulable units, in registration order.
    pub units: Seq<Registration>,
    /// Thread-confined units, in registration order.
    pub thread_confined: Seq<T>,
}

/// Accumulates units of work; consumed by `compile`. `T` is the type of the
/// thread-confined units.
pub struct ScheduleBuilder<T> {
    units: Vec<Registration>,
    thread_confined: Vec<T>,
}

impl<T> View for ScheduleBuilder<T> {
    type V = BuilderView<T>;

    closed spec fn view(&self) -> BuilderView<T> {
        BuilderView { units: self.units@, thread_confined: self.thread_confined@ }
    }
}

/// A configuration error found when a builder is compiled.
#[derive(Debug)]
pub enum ScheduleError {
    /// Two units were registered under this name.
    DuplicateName(String),
    /// The unit `unit` depends on `dependency`, which no unit is registered as.
    UnresolvedDependency { unit: String, dependency: String },
    /// The dependencies form a cycle.
    DependencyCycle,
}

/// The abstract content of a compiled schedule.
pub struct ScheduleView<T> {
    pub units: Seq<Registration>,
    /// The stage of each unit: units of one stage may run in parallel.
    pub stage: Seq<usize>,
    /// The indices of all units, by stage.
    pub order: Seq<usize>,
    pub thread_confined: Seq<T>,
}

/// A compiled schedule, run once per tick: its stages in turn, then the
/// thread-confined units on the orchestrating thread.
pub struct Schedule<T> {
    units: Vec<Registration>,
    stage: Vec<usize>,
    order: Vec<usize>,
    thread_confined: Vec<T>,
}

impl<T> View for Schedule<T> {
    type V = ScheduleView<T>;

    closed spec fn view(&self) -> ScheduleView<T> {
        ScheduleView {
            units: self.units@,
            stage: self.stage@,
            order: self.order@,
            thread_confined: self.thread_confined@,
        }
    }
}

/// A compiled schedule holds a valid staging of the builder's units.
pub open spec fn schedule_valid<T>(s: ScheduleView<T>) -> bool {
    &&& names_unique(s.units)
    &&& all_resolved(s.units)
    &&& staging_valid(s.units, s.stage, s.order)
    &&& staging_canonical(s.units, s.stage, s.order)
}

/// `row[k]` is the index of the unit that dependency `k` of unit `i` names.
pub open spec fn row_resolves(units: Seq<Registration>, i: int, row: Seq<usize>) -> bool {
    &&& row.len() == units[i].dependencies@.len()
    &&& forall|k: int|
        #![trigger row[k]]
        0 <= k < row.len() ==> {
            &&& row[k] < units.len()
            &&& units[row[k] as int].name@ == units[i].dependencies@[k]@
        }
}

/// `dep[i][k]` is the index of the unit that dependency `k` of unit `i` names.
pub open spec fn index_table(units: Seq<Registration>, dep: Seq<Vec<usize>>) -> bool {
    &&& dep.len() == units.len()
    &&& forall|i: int| 0 <= i < units.len() ==> #[trigger] row_resolves(units, i, dep[i]@)
}

/// A sequence of distinct indices below `n` that avoids `x < n` is shorter than `n`.
proof fn lemma_distinct_below(order: Seq<usize>, n: int, x: int)
    requires
        0 <= x < n,
        forall|p: int| 0 <= p < order.len() ==> #[trigger] order[p] < n && order[p] != x,
        forall|p: int, q: int|
            #![trigger order[p], order[q]]
            0 <= p < q < order.len() ==> order[p] != order[q],
    ensures
        order.len() < n,
{
    let s = order.map_values(|v: usize| v as int);
    assert forall|p: int, q: int| 0 <= p < s.len() && 0 <= q < s.len() && p != q implies s[p]
        != s[q] by {
        if p < q {
            assert(order[p] != order[q]);
        } else {
            assert(order[q] != order[p]);
        }
    }
    assert(s.no_duplicates());
    s.unique_seq_to_set();
    lemma_int_range(0, n);
    let r = set_int_range(0, n).remove(x);
    assert(s.to_set().subset_of(r)) by {
        assert forall|v: int| s.to_set().contains(v) implies r.contains(v) by {
            let p = choose|p: int| 0 <= p < s.len() && s[p] == v;
            assert(order[p] < n && order[p] != x);
        }
    }
    lemma_len_subset(s.to_set(), r);
}

/// Where every unit outside `placed` depends on another unit outside it, and
/// some unit is outside it, the units cannot be ranked.
proof fn lemma_stuck_not_acyclic(units: Seq<Registration>, placed: Seq<bool>, x: int)
    requires
        placed.len() == units.len(),
        0 <= x < units.len(),
        !placed[x],
        forall|b: int|
            0 <= b < units.len() && !#[trigger] placed[b] ==> exists|a: int|
                depends_on(units, b, a) && !#[trigger] placed[a],
    ensures
        !acyclic(units),
{
    if acyclic(units) {
        let rank = choose|rank: Seq<nat>| ranks_respect(units, rank);
        lemma_rank_unbounded(units, placed, rank, rank[x] + 1);
        assert(rank[x] >= rank[x] + 1);
    }
}

/// Under the conditions above, every unit outside `placed` has a rank of at least `m`.
proof fn lemma_rank_unbounded(units: Seq<Registration>, placed: Seq<bool>, rank: Seq<nat>, m: nat)
    requires
        placed.len() == units.len(),
        ranks_respect(units, rank),
        forall|b: int|
            0 <= b < units.len() && !#[trigger] placed[b] ==> exists|a: int|
                depends_on(units, b, a) && !#[trigger] placed[a],
    ensures
        forall|b: int| 0 <= b < units.len() && !#[trigger] placed[b] ==> rank[b] >= m,
    decreases m,
{
    if m > 0 {
        lemma_rank_unbounded(units, placed, rank, (m - 1) as nat);
        assert forall|b: int| 0 <= b < units.len() && !#[trigger] placed[b] implies rank[b] >= m by {
            let a = choose|a: int| depends_on(units, b, a) && !#[trigger] placed[a];
            assert(rank[a] < rank[b]);
        }
    }
}

impl<T> ScheduleBuilder<T> {
    /// An empty builder.
    pub fn new() -> (b: ScheduleBuilder<T>)
        ensures
            b@.units == Seq::<Registration>::empty(),
            b@.thread_confined == Seq::<T>::empty(),
    {
        ScheduleBuilder { units: Vec::new(), thread_confined: Vec::new() }
    }

    /// The concurrently schedulable units registered so far.
    pub fn units(&self) -> (r: &Vec<Registration>)
        ensures
            r@ == self@.units,
    {
        &self.units
    }

    /// The thread-confined units registered so far.
    pub fn thread_confined(&self) -> (r: &Vec<T>)
        ensures
            r@ == self@.thread_confined,
    {
        &self.thread_confined
    }

    /// Adds a concurrently schedulable unit under `name`, to start in each tick
    /// only after the units named in `dependencies` have finished.
    pub fn register(self, system: SystemKind, name: &str, dependencies: &[&str]) -> (b:
        ScheduleBuilder<T>)
        ensures
            b@.thread_confined == self@.thread_confined,
            b@.units.len() == self@.units.len() + 1,
            b@.units.drop_last() == self@.units,
            b@.units.last().system == system,
            b@.units.last().name@ == name@,
            b@.units.last().dependency_names() == dependencies@.map_values(|d: &str| d@),
    {
        let mut deps: Vec<String> = Vec::new();
        let mut k: usize = 0;
        while k < dependencies.len()
            invariant
                k <= dependencies@.len(),
                deps@.len() == k,
                forall|j: int| 0 <= j < k ==> #[trigger] deps@[j]@ == dependencies@[j]@,
            decreases dependencies@.len() - k,
        {
            deps.push(dependencies[k].to_owned());
            k = k + 1;
        }
        let ScheduleBuilder { mut units, thread_confined } = self;
        let ghost before = units@;
        units.push(Registration { system, name: name.to_owned(), dependencies: deps });
        let b = ScheduleBuilder { units, thread_confined };
        assert(b@.units.drop_last() =~= before);
        assert(b@.units.last().dependency_names() =~= dependencies@.map_values(|d: &str| d@));
        b
    }

    /// Adds a unit that runs on the orchestrating thread, after the concurrent
    /// units of each tick and after the thread-confined units registered before it.
    pub fn register_thread_confined(self, unit: T) -> (b: ScheduleBuilder<T>)
        ensures
            b@.units == self@.units,
            b@.thread_confined == self@.thread_confined.push(unit),
    {
        let ScheduleBuilder { units, mut thread_confined } = self;
        thread_confined.push(unit);
        ScheduleBuilder { units, thread_confined }
    }
}

/// A sequence of distinct indices below `n` that lists every index below `n` has length `n`.
proof fn lemma_distinct_covering(order: Seq<usize>, n: int)
    requires
        0 <= n <= usize::MAX,
        forall|p: int| 0 <= p < order.len() ==> #[trigger] order[p] < n,
        forall|p: int, q: int|
            #![trigger order[p], order[q]]
            0 <= p < q < order.len() ==> order[p] != order[q],
        forall|i: usize| i < n ==> #[trigger] order.contains(i),
    ensures
        order.len() == n,
{
    let s = order.map_values(|v: usize| v as int);
    assert forall|p: int, q: int| 0 <= p < s.len() && 0 <= q < s.len() && p != q implies s[p]
        != s[q] by {
        if p < q {
            assert(order[p] != order[q]);
        } else {
            assert(order[q] != order[p]);
        }
    }
    assert(s.no_duplicates());
    s.unique_seq_to_set();
    lemma_int_range(0, n);
    assert(s.to_set() =~= set_int_range(0, n)) by {
        assert forall|v: int| set_int_range(0, n).contains(v) implies s.to_set().contains(v) by {
            assert(order.contains(v as usize));
            let p = choose|p: int| 0 <= p < order.len() && order[p] == v as usize;
            assert(s[p] == v);
        }
        assert forall|v: int| s.to_set().contains(v) implies set_int_range(0, n).contains(v) by {
            let p = choose|p: int| 0 <= p < s.len() && s[p] == v;
            assert(order[p] < n);
        }
    }
}

/// The index of the unit registered under `name`, if any.
fn index_of(units: &Vec<Registration>, name: &String) -> (r: Option<usize>)
    ensures
        match r {
            Some(j) => j < units@.len() && units@[j as int].name@ == name@,
            None => !registers(units@, name@),
        },
{
    let mut j: usize = 0;
    while j < units.len()
        invariant
            j <= units@.len(),
            forall|x: int| 0 <= x < j ==> #[trigger] units@[x].name@ != name@,
        decreases units@.len() - j,
    {
        if units[j].name == *name {
            return Some(j);
        }
        j = j + 1;
    }
    None
}

/// The first unit whose name an earlier unit already has, if any.
fn find_duplicate(units: &Vec<Registration>) -> (r: Option<usize>)
    ensures
        match r {
            Some(j) => first_duplicate(units@, j as int),
            None => names_unique(units@),
        },
{
    let mut j: usize = 0;
    while j < units.len()
        invariant
            j <= units@.len(),
            names_unique_upto(units@, j as int),
        decreases units@.len() - j,
    {
        let mut i: usize = 0;
        while i < j
            invariant
                i <= j,
                j < units@.len(),
                names_unique_upto(units@, j as int),
                forall|x: int| 0 <= x < i ==> #[trigger] units@[x].name@ != units@[j as int].name@,
            decreases j - i,
        {
            if units[i].name == units[j].name {
                assert(units@[i as int].name@ == units@[j as int].name@);
                return Some(j);
            }
            i = i + 1;
        }
        assert forall|a: int, b: int|
            #![trigger units@[a], units@[b]]
            0 <= a < b < j + 1 implies units@[a].name@ != units@[b].name@ by {
            if b == j {
                assert(units@[a].name@ != units@[j as int].name@);
            }
        }
        j = j + 1;
    }
    None
}

/// The index of the unit that each dependency names, or the first dependency
/// that names no unit.
fn resolve_dependencies(units: &Vec<Registration>) -> (r: Result<Vec<Vec<usize>>, (usize, usize)>)
    ensures
        match r {
            Ok(dep) => all_resolved(units@) && index_table(units@, dep@),
            Err((i, k)) => first_unresolved(units@, i as int, k as int),
        },
{
    let mut dep: Vec<Vec<usize>> = Vec::new();
    let mut i: usize = 0;
    while i < units.len()
        invariant
            i <= units@.len(),
            dep@.len() == i,
            forall|i2: int, k2: int|
                0 <= i2 < i && 0 <= k2 < units@[i2].dependencies@.len() ==> #[trigger] resolved(
                    units@,
                    i2,
                    k2,
                ),
            forall|x: int| 0 <= x < i ==> #[trigger] row_resolves(units@, x, dep@[x]@),
        decreases units@.len() - i,
    {
        let mut row: Vec<usize> = Vec::new();
        let mut k: usize = 0;
        while k < units[i].dependencies.len()
            invariant
                i < units@.len(),
                k <= units@[i as int].dependencies@.len(),
                row@.len() == k,
                forall|i2: int, k2: int|
                    0 <= i2 < i && 0 <= k2 < units@[i2].dependencies@.len() ==> #[trigger] resolved(
                        units@,
                        i2,
                        k2,
                    ),
                forall|k2: int| 0 <= k2 < k ==> #[trigger] resolved(units@, i as int, k2),
                forall|k2: int|
                    #![trigger row@[k2]]
                    0 <= k2 < k ==> {
                        &&& row@[k2] < units@.len()
                        &&& units@[row@[k2] as int].name@ == units@[i as int].dependencies@[k2]@
                    },
            decreases units@[i as int].dependencies@.len() - k,
        {
            match index_of(units, &units[i].dependencies[k]) {
                Some(j) => {
                    assert(units@[j as int].name@ == units@[i as int].dependencies@[k as int]@);
                    row.push(j);
                },
                None => {
                    return Err((i, k));
                },
            }
            k = k + 1;
        }
        assert(row_resolves(units@, i as int, row@));
        dep.push(row);
        i = i + 1;
    }
    Ok(dep)
}

/// Whether every unit that `row` indexes was placed in a stage below `round`.
fn dependencies_done(row: &Vec<usize>, placed: &Vec<bool>, stage: &Vec<usize>, round: usize) -> (r:
    bool)
    requires
        forall|k: int| 0 <= k < row@.len() ==> #[trigger] row@[k] < placed@.len(),
        placed@.len() == stage@.len(),
    ensures
        r == forall|k: int|
            #![trigger row@[k]]
            0 <= k < row@.len() ==> placed@[row@[k] as int] && stage@[row@[k] as int] < round,
{
    let mut k: usize = 0;
    while k < row.len()
        invariant
            k <= row@.len(),
            forall|k: int| 0 <= k < row@.len() ==> #[trigger] row@[k] < placed@.len(),
            placed@.len() == stage@.len(),
            forall|k2: int|
                #![trigger row@[k2]]
                0 <= k2 < k ==> placed@[row@[k2] as int] && stage@[row@[k2] as int] < round,
        decreases row@.len() - k,
    {
        let j = row[k];
        if !(placed[j] && stage[j] < round) {
            return false;
        }
        k = k + 1;
    }
    true
}

/// With names unique, the dependency table of unit `b` holds `a` exactly where
/// `b` depends on `a`.
proof fn lemma_dependency_index(units: Seq<Registration>, dep: Seq<Vec<usize>>, b: int, a: int)
    requires
        names_unique(units),
        index_table(units, dep),
        depends_on(units, b, a),
    ensures
        exists|k: int| 0 <= k < dep[b]@.len() && #[trigger] dep[b]@[k] == a,
{
    let k = choose|k: int|
        0 <= k < units[b].dependencies@.len() && #[trigger] units[b].dependencies@[k]@
            == units[a].name@;
    assert(row_resolves(units, b, dep[b]@));
    let j = dep[b]@[k] as int;
    assert(units[j].name@ == units[a].name@);
    if j != a {
        if j < a {
            assert(units[j].name@ != units[a].name@);
        } else {
            assert(units[a].name@ != units[j].name@);
        }
    }
}

/// Stages the units: in each round, in registration order, every unit whose
/// dependencies all sit in earlier stages joins the stage of that round.
/// Returns the stage of each unit and the units in the order they were staged,
/// or `None` where a round stages nothing, which a cycle causes.
fn stage_units(units: &Vec<Registration>, dep: &Vec<Vec<usize>>) -> (r: Option<
    (Vec<usize>, Vec<usize>),
>)
    requires
        names_unique(units@),
        index_table(units@, dep@),
    ensures
        match r {
            Some((stage, order)) => staging_valid(units@, stage@, order@) && staging_canonical(
                units@,
                stage@,
                order@,
            ),
            None => !acyclic(units@),
        },
{
    let n = units.len();
    let mut placed: Vec<bool> = Vec::new();
    let mut stage: Vec<usize> = Vec::new();
    let mut i: usize = 0;
    while i < n
        invariant
            n == units@.len(),
            i <= n,
            placed@.len() == i,
            stage@.len() == i,
            forall|x: int| 0 <= x < i ==> !#[trigger] placed@[x],
        decreases n - i,
    {
        placed.push(false);
        stage.push(0);
        i = i + 1;
    }
    let mut order: Vec<usize> = Vec::new();
    let mut round: usize = 0;
    while order.len() < n
        invariant
            n == units@.len(),
            names_unique(units@),
            index_table(units@, dep@),
            placed@.len() == n,
            stage@.len() == n,
            order@.len() <= n,
            round <= order@.len(),
            forall|p: int|
                0 <= p < order@.len() ==> #[trigger] order@[p] < n && placed@[order@[p] as int],
            forall|p: int, q: int|
                #![trigger order@[p], order@[q]]
                0 <= p < q < order@.len() ==> order@[p] != order@[q],
            forall|x: int| 0 <= x < n && #[trigger] placed@[x] ==> order@.contains(x as usize),
            forall|x: int| 0 <= x < n && #[trigger] placed@[x] ==> stage@[x] < round,
            forall|p: int, q: int|
                #![trigger order@[p], order@[q]]
                0 <= p < q < order@.len() ==> stage@[order@[p] as int] <= stage@[order@[q] as int],
            forall|a: int, b: int|
                #[trigger] depends_on(units@, b, a) && placed@[b] ==> placed@[a] && stage@[a]
                    < stage@[b],
            forall|b: int|
                0 <= b < n && placed@[b] && #[trigger] stage@[b] > 0 ==> exists|a: int|
                    #[trigger] depends_on(units@, b, a) && stage@[a] + 1 == stage@[b],
            forall|p: int, q: int|
                #![trigger order@[p], order@[q]]
                0 <= p < q < order@.len() && stage@[order@[p] as int] == stage@[order@[q] as int]
                    ==> order@[p] < order@[q],
            round > 0 ==> forall|b: int|
                0 <= b < n && !#[trigger] placed@[b] ==> exists|a: int|
                    #[trigger] depends_on(units@, b, a) && (!placed@[a] || stage@[a] + 1 == round),
        decreases n - order@.len(),
    {
        let before = order.len();
        let mut i: usize = 0;
        while i < n
            invariant
                n == units@.len(),
                names_unique(units@),
                index_table(units@, dep@),
                placed@.len() == n,
                stage@.len() == n,
                i <= n,
                before < n,
                before <= order@.len() <= n,
                round <= before,
                forall|p: int|
                    0 <= p < order@.len() ==> #[trigger] order@[p] < n && placed@[order@[p] as int],
                forall|p: int, q: int|
                    #![trigger order@[p], order@[q]]
                    0 <= p < q < order@.len() ==> order@[p] != order@[q],
                forall|x: int| 0 <= x < n && #[trigger] placed@[x] ==> order@.contains(x as usize),
                forall|x: int| 0 <= x < n && #[trigger] placed@[x] ==> stage@[x] <= round,
                order@.len() == before ==> forall|x: int|
                    0 <= x < n && #[trigger] placed@[x] ==> stage@[x] < round,
                forall|p: int, q: int|
                    #![trigger order@[p], order@[q]]
                    0 <= p < q < order@.len() ==> stage@[order@[p] as int] <= stage@[
                        order@[q] as int
                    ],
                forall|a: int, b: int|
                    #[trigger] depends_on(units@, b, a) && placed@[b] ==> placed@[a] && stage@[a]
                        < stage@[b],
                forall|x: int|
                    0 <= x < i && !#[trigger] placed@[x] ==> exists|k: int|
                        0 <= k < dep@[x]@.len() && !(placed@[#[trigger] dep@[x]@[k] as int]
                            && stage@[dep@[x]@[k] as int] < round),
                forall|b: int|
                    0 <= b < n && placed@[b] && #[trigger] stage@[b] > 0 ==> exists|a: int|
                        #[trigger] depends_on(units@, b, a) && stage@[a] + 1 == stage@[b],
                forall|p: int, q: int|
                    #![trigger order@[p], order@[q]]
                    0 <= p < q < order@.len() && stage@[order@[p] as int] == stage@[order@[q] as int]
                        ==> order@[p] < order@[q],
                forall|p: int|
                    0 <= p < order@.len() && stage@[#[trigger] order@[p] as int] == round ==> order@[p]
                        < i,
                round > 0 ==> forall|x: int|
                    i <= x < n && !#[trigger] placed@[x] ==> exists|a: int|
                        #[trigger] depends_on(units@, x, a) && (!placed@[a] || stage@[a] + 1 == round
                            || stage@[a] == round),
            decreases n - i,
        {
            if !placed[i] {
                proof {
                    assert(row_resolves(units@, i as int, dep@[i as int]@));
                }
                if dependencies_done(&dep[i], &placed, &stage, round) {
                    proof {
                        assert forall|p: int| 0 <= p < order@.len() implies #[trigger] order@[p]
                            < n && order@[p] != i by {
                            assert(placed@[order@[p] as int]);
                        }
                        lemma_distinct_below(order@, n as int, i as int);
                    }
                    let ghost old_placed = placed@;
                    let ghost old_stage = stage@;
                    let ghost old_order = order@;
                    proof {
                        if round > 0 {
                            let a = choose|a: int|
                                #[trigger] depends_on(units@, i as int, a) && (!placed@[a] || stage@[a]
                                    + 1 == round || stage@[a] == round);
                            lemma_dependency_index(units@, dep@, i as int, a);
                            let k = choose|k: int|
                                0 <= k < dep@[i as int]@.len() && #[trigger] dep@[i as int]@[k] == a;
                            assert(placed@[a] && stage@[a] < round);
                        }
                    }
                    placed.set(i, true);
                    stage.set(i, round);
                    order.push(i);
                    proof {
                        assert forall|x: int| 0 <= x < n && #[trigger] placed@[x] implies order@.contains(
                            x as usize,
                        ) by {
                            if x == i {
                                assert(order@[old_order.len() as int] == i);
                            } else {
                                assert(old_placed[x]);
                                assert(old_order.contains(x as usize));
                                let p = choose|p: int|
                                    0 <= p < old_order.len() && old_order[p] == x as usize;
                                assert(order@[p] == x as usize);
                            }
                        }
                        assert forall|a: int, b: int|
                            #[trigger] depends_on(units@, b, a) && placed@[b] implies placed@[a]
                                && stage@[a] < stage@[b] by {
                            if b == i {
                                lemma_dependency_index(units@, dep@, b, a);
                                let k = choose|k: int|
                                    0 <= k < dep@[b]@.len() && #[trigger] dep@[b]@[k] == a;
                                assert(old_placed[a] && old_stage[a] < round);
                            } else {
                                assert(old_placed[b]);
                                assert(old_placed[a] && old_stage[a] < old_stage[b]);
                            }
                        }
                        assert forall|b: int|
                            0 <= b < n && placed@[b] && #[trigger] stage@[b] > 0 implies exists|a: int|
                                #[trigger] depends_on(units@, b, a) && stage@[a] + 1 == stage@[b] by {
                            if b == i {
                                let a = choose|a: int|
                                    #[trigger] depends_on(units@, i as int, a) && (!old_placed[a]
                                        || old_stage[a] + 1 == round || old_stage[a] == round);
                                lemma_dependency_index(units@, dep@, i as int, a);
                                let k = choose|k: int|
                                    0 <= k < dep@[i as int]@.len() && #[trigger] dep@[i as int]@[k] == a;
                                assert(old_placed[a] && old_stage[a] < round);
                                assert(a != i);
                            } else {
                                assert(old_placed[b] && old_stage[b] > 0);
                                let a = choose|a: int|
                                    #[trigger] depends_on(units@, b, a) && old_stage[a] + 1 == old_stage[b];
                                assert(old_placed[a]);
                                assert(a != i);
                            }
                        }
                        assert forall|p: int| 0 <= p < order@.len() && stage@[#[trigger] order@[p] as int] == round
                            implies order@[p] < i + 1 by {
                            if p < old_order.len() {
                                assert(old_order[p] == order@[p]);
                                assert(old_placed[old_order[p] as int]);
                            }
                        }
                        assert forall|p: int, q: int|
                            #![trigger order@[p], order@[q]]
                            0 <= p < q < order@.len() && stage@[order@[p] as int] == stage@[order@[q] as int]
                                implies order@[p] < order@[q] by {
                            assert(old_placed[old_order[p] as int]);
                            if q == old_order.len() {
                                assert(old_stage[old_order[p] as int] == round);
                            } else {
                                assert(old_placed[old_order[q] as int]);
                            }
                        }
                        assert forall|x: int| 0 <= x < i + 1 && !#[trigger] placed@[x] implies exists|k: int|
                            0 <= k < dep@[x]@.len() && !(placed@[#[trigger] dep@[x]@[k] as int]
                                && stage@[dep@[x]@[k] as int] < round) by {
                            assert(!old_placed[x]);
                            let k = choose|k: int|
                                0 <= k < dep@[x]@.len() && !(old_placed[#[trigger] dep@[x]@[k] as int]
                                    && old_stage[dep@[x]@[k] as int] < round);
                            assert(row_resolves(units@, x, dep@[x]@));
                            let j = dep@[x]@[k] as int;
                            if j == i {
                                assert(stage@[j] == round);
                            } else {
                                assert(placed@[j] == old_placed[j] && stage@[j] == old_stage[j]);
                            }
                        }
                    }
                }
            }
            i = i + 1;
        }
        proof {
            assert forall|b: int| 0 <= b < n && !#[trigger] placed@[b] implies exists|a: int|
                #[trigger] depends_on(units@, b, a) && !(placed@[a] && stage@[a] < round) by {
                let k = choose|k: int|
                    0 <= k < dep@[b]@.len() && !(placed@[#[trigger] dep@[b]@[k] as int]
                        && stage@[dep@[b]@[k] as int] < round);
                let a = dep@[b]@[k] as int;
                assert(row_resolves(units@, b, dep@[b]@));
                assert(units@[b].dependencies@[k]@ == units@[a].name@);
                assert(depends_on(units@, b, a));
            }
        }
        if order.len() == before {
            proof {
                if forall|x: int| 0 <= x < n ==> #[trigger] placed@[x] {
                    assert forall|x: usize| x < n implies #[trigger] order@.contains(x) by {
                        assert(placed@[x as int]);
                    }
                    lemma_distinct_covering(order@, n as int);
                }
                let x = choose|x: int| 0 <= x < n && !#[trigger] placed@[x];
                assert forall|b: int| 0 <= b < units@.len() && !#[trigger] placed@[b] implies exists|
                    a: int,
                | depends_on(units@, b, a) && !#[trigger] placed@[a] by {
                    let a = choose|a: int|
                        #[trigger] depends_on(units@, b, a) && !(placed@[a] && stage@[a] < round);
                    assert(!placed@[a]);
                }
                lemma_stuck_not_acyclic(units@, placed@, x);
            }
            return None;
        }
        proof {
            assert forall|b: int| 0 <= b < n && !#[trigger] placed@[b] implies exists|a: int|
                #[trigger] depends_on(units@, b, a) && (!placed@[a] || stage@[a] + 1 == round + 1) by {
                let a = choose|a: int|
                    #[trigger] depends_on(units@, b, a) && !(placed@[a] && stage@[a] < round);
                if placed@[a] {
                    assert(stage@[a] <= round);
                }
            }
        }
        round = round + 1;
    }
    proof {
        assert forall|x: int| 0 <= x < n implies #[trigger] placed@[x] by {
            if !placed@[x] {
                assert forall|p: int| 0 <= p < order@.len() implies #[trigger] order@[p] < n
                    && order@[p] != x by {
                    assert(placed@[order@[p] as int]);
                }
                lemma_distinct_below(order@, n as int, x);
            }
        }
        assert forall|x: usize| x < n implies #[trigger] order@.contains(x) by {
            assert(placed@[x as int]);
        }
    }
    Some((stage, order))
}

/// A valid staging ranks the units, so they form no cycle.
proof fn lemma_staging_acyclic(units: Seq<Registration>, stage: Seq<usize>, order: Seq<usize>)
    requires
        staging_valid(units, stage, order),
    ensures
        acyclic(units),
{
    let rank = stage.map_values(|v: usize| v as nat);
    assert(ranks_respect(units, rank));
}

/// The steps of one tick of `s`: its concurrently schedulable units in
/// order, then its thread-confined units in registration order.
pub open spec fn tick_steps<T>(s: ScheduleView<T>) -> Seq<Step> {
    Seq::new(s.order.len(), |p: int| Step::Concurrent(s.order[p])) + Seq::new(
        s.thread_confined.len(),
        |t: int| Step::ThreadConfined(t as usize),
    )
}

/// One step of a tick.
#[derive(PartialEq, Eq, Structural, Debug, Clone, Copy)]
pub enum Step {
    /// Runs the concurrently schedulable unit of this index.
    Concurrent(usize),
    /// Runs the thread-confined unit of this index.
    ThreadConfined(usize),
}

impl<T> ScheduleBuilder<T> {
    /// Compiles the builder into a schedule. Fails on the first name
    /// registered twice, else on the first dependency that names no unit,
    /// else on a dependency cycle.
    pub fn compile(self) -> (r: Result<Schedule<T>, ScheduleError>)
        ensures
            r is Ok <==> names_unique(self@.units) && all_resolved(self@.units) && acyclic(
                self@.units,
            ),
            !names_unique(self@.units) <==> (r matches Err(ScheduleError::DuplicateName(_))),
            names_unique(self@.units) && !all_resolved(self@.units) <==> (r matches Err(
                ScheduleError::UnresolvedDependency { .. },
            )),
            match r {
                Ok(s) => {
                    &&& s@.units == self@.units
                    &&& s@.thread_confined == self@.thread_confined
                    &&& schedule_valid(s@)
                },
                Err(ScheduleError::DuplicateName(n)) => exists|j: int|
                    first_duplicate(self@.units, j) && n@ == #[trigger] self@.units[j].name@,
                Err(ScheduleError::UnresolvedDependency { unit, dependency }) => exists|
                    i: int,
                    k: int,
                |
                    first_unresolved(self@.units, i, k) && unit@ == self@.units[i].name@
                        && dependency@ == #[trigger] self@.units[i].dependencies@[k]@,
                Err(ScheduleError::DependencyCycle) => {
                    &&& names_unique(self@.units)
                    &&& all_resolved(self@.units)
                    &&& !acyclic(self@.units)
                },
            },
    {
        let ghost units_view = self@.units;
        let ScheduleBuilder { units, thread_confined } = self;
        match find_duplicate(&units) {
            Some(j) => {
                proof {
                    let i = choose|i: int| 0 <= i < j && #[trigger] units@[i].name@ == units@[j as int].name@;
                    assert(units@[i].name@ == units@[j as int].name@);
                }
                return Err(ScheduleError::DuplicateName(units[j].name.clone()));
            },
            None => {},
        }
        let dep = match resolve_dependencies(&units) {
            Ok(dep) => dep,
            Err((i, k)) => {
                let unit = units[i].name.clone();
                let dependency = units[i].dependencies[k].clone();
                assert(unit@ == units@[i as int].name@);
                return Err(ScheduleError::UnresolvedDependency { unit, dependency });
            },
        };
        match stage_units(&units, &dep) {
            Some((stage, order)) => {
                proof {
                    lemma_staging_acyclic(units@, stage@, order@);
                }
                Ok(Schedule { units, stage, order, thread_confined })
            },
            None => Err(ScheduleError::DependencyCycle),
        }
    }
}

impl<T> Schedule<T> {
    /// The concurrently schedulable units, in registration order.
    pub fn units(&self) -> (r: &Vec<Registration>)
        ensures
            r@ == self@.units,
    {
        &self.units
    }

    /// The thread-confined units, in registration order.
    pub fn thread_confined(&self) -> (r: &Vec<T>)
        ensures
            r@ == self@.thread_confined,
    {
        &self.thread_confined
    }

    /// The indices of the concurrently schedulable units, stage by stage.
    pub fn order(&self) -> (r: &Vec<usize>)
        ensures
            r@ == self@.order,
    {
        &self.order
    }

    /// The stage of unit `i`.
    pub fn stage_of(&self, i: usize) -> (r: usize)
        requires
            i < self@.stage.len(),
        ensures
            r == self@.stage[i as int],
    {
        self.stage[i]
    }

    /// The steps of one tick: the concurrently schedulable units stage by
    /// stage, then the thread-confined units in registration order.
    pub fn execution_order(&self) -> (r: Vec<Step>)
        requires
            self@.order.len() + self@.thread_confined.len() <= usize::MAX,
        ensures
            r@.len() == self@.order.len() + self@.thread_confined.len(),
            forall|p: int| 0 <= p < self@.order.len() ==> #[trigger] r@[p] == Step::Concurrent(self@.order[p]),
            forall|t: int|
                0 <= t < self@.thread_confined.len() ==> #[trigger] r@[self@.order.len() + t]
                    == Step::ThreadConfined(t as usize),
            forall|p: int, q: int|
                #![trigger r@[p], r@[q]]
                0 <= p < q < r@.len() && r@[q] is Concurrent ==> r@[p] is Concurrent,
            r@ == tick_steps(self@),
    {
        let mut r: Vec<Step> = Vec::new();
        let mut p: usize = 0;
        while p < self.order.len()
            invariant
                p <= self@.order.len(),
                r@.len() == p,
                forall|x: int| 0 <= x < p ==> #[trigger] r@[x] == Step::Concurrent(self@.order[x]),
            decreases self@.order.len() - p,
        {
            r.push(Step::Concurrent(self.order[p]));
            p = p + 1;
        }
        let mut t: usize = 0;
        while t < self.thread_confined.len()
            invariant
                self@.order.len() + self@.thread_confined.len() <= usize::MAX,
                t <= self@.thread_confined.len(),
                r@.len() == self@.order.len() + t,
                forall|x: int| 0 <= x < self@.order.len() ==> #[trigger] r@[x] == Step::Concurrent(self@.order[x]),
                forall|x: int|
                    0 <= x < t ==> #[trigger] r@[self@.order.len() + x] == Step::ThreadConfined(x as usize),
            decreases self@.thread_confined.len() - t,
        {
            r.push(Step::ThreadConfined(t));
            t = t + 1;
        }
        proof {
            assert forall|p: int, q: int|
                #![trigger r@[p], r@[q]]
                0 <= p < q < r@.len() && r@[q] is Concurrent implies r@[p] is Concurrent by {
                if q >= self@.order.len() {
                    assert(r@[self@.order.len() + (q - self@.order.len())] == Step::ThreadConfined((q - self@.order.len()) as usize));
                }
                assert(r@[p] == Step::Concurrent(self@.order[p]));
            }
            assert forall|x: int| 0 <= x < r@.len() implies r@[x] == tick_steps(self@)[x] by {
                let n = self@.order.len() as int;
                if x >= n {
                    assert(r@[n + (x - n)] == Step::ThreadConfined((x - n) as usize));
                }
            }
            assert(r@ =~= tick_steps(self@));
        }
        r
    }
}

} // verus!
