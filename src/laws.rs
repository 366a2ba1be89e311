//! Laws that relate the bundles, the builder and the compiled schedule.
use vstd::prelude::*;
use crate::schedule::{
    acyclic, all_resolved, depends_on, extends_with, first_unresolved, names_unique, ranks_respect,
    registers, resolved, schedule_valid, tick_steps, BuilderView, ScheduleView, Step,
};
use crate::schedule::Registration;
use crate::render::{installed, RenderSystem};
use crate::ui::ui_registrations;

verus! {

/// Where each unit of `chain` depends directly on the unit before it, so that
/// the last unit depends transitively on the first, the first unit runs in an
/// earlier stage than the last in every tick, and comes before it in the
/// schedule's order.
pub proof fn lemma_dependency_chain_ordered<T>(s: ScheduleView<T>, chain: Seq<int>)
    requires
        schedule_valid(s),
        chain.len() >= 2,
        forall|k: int|
            0 <= k < chain.len() - 1 ==> #[trigger] depends_on(s.units, chain[k + 1], chain[k]),
    ensures
        s.stage[chain[0]] < s.stage[chain.last()],
        forall|p: int, q: int|
            0 <= p < s.order.len() && 0 <= q < s.order.len() && s.order[p] as int == chain[0]
                && s.order[q] as int == chain.last() ==> p < q,
    decreases chain.len(),
{
    let k = chain.len() - 2;
    assert(depends_on(s.units, chain[k + 1], chain[k]));
    assert(chain[k + 1] == chain.last());
    if chain.len() > 2 {
        let prefix = chain.drop_last();
        assert forall|k: int| 0 <= k < prefix.len() - 1 implies #[trigger] depends_on(
            s.units,
            prefix[k + 1],
            prefix[k],
        ) by {
            assert(depends_on(s.units, chain[k + 1], chain[k]));
        }
        lemma_dependency_chain_ordered(s, prefix);
        assert(prefix.last() == chain[k]);
    }
    assert forall|p: int, q: int|
        0 <= p < s.order.len() && 0 <= q < s.order.len() && s.order[p] as int == chain[0]
            && s.order[q] as int == chain.last() implies p < q by {
        if q < p {
            assert(s.stage[s.order[q] as int] <= s.stage[s.order[p] as int]);
        }
    }
}

/// The six names of the UI bundle and the transform unit's name are pairwise distinct.
proof fn lemma_ui_names_distinct()
    ensures
        forall|k: int, l: int|
            0 <= k < 6 && 0 <= l < 6 && k != l ==> #[trigger] ui_registrations()[k].1
                != #[trigger] ui_registrations()[l].1,
        forall|k: int| 0 <= k < 6 ==> #[trigger] ui_registrations()[k].1 != "transform_system"@,
{
    reveal_strlit("font_processor");
    reveal_strlit("ui_system");
    reveal_strlit("ui_resize_system");
    reveal_strlit("ui_mouse_system");
    reveal_strlit("ui_layout");
    reveal_strlit("ui_parent");
    reveal_strlit("transform_system");
    let u = ui_registrations();
    assert(u[0].1 == "font_processor"@);
    assert(u[1].1 == "ui_system"@);
    assert(u[2].1 == "ui_resize_system"@);
    assert(u[3].1 == "ui_mouse_system"@);
    assert(u[4].1 == "ui_layout"@);
    assert(u[5].1 == "ui_parent"@);
    assert("ui_system"@[3] != "ui_layout"@[3]);
    assert("ui_system"@[3] != "ui_parent"@[3]);
    assert("ui_layout"@[3] != "ui_parent"@[3]);
    assert("ui_resize_system"@[0] != "transform_system"@[0]);
}

/// What the UI bundle appends, unit by unit.
proof fn lemma_ui_units(before: Seq<Registration>, after: Seq<Registration>)
    requires
        extends_with(before, after, ui_registrations()),
    ensures
        forall|j: int| 0 <= j < before.len() ==> #[trigger] after[j] == before[j],
        forall|k: int|
            0 <= k < 6 ==> #[trigger] after[before.len() as int + k].name@ == ui_registrations()[k].1,
        after.len() == before.len() + 6,
        after[before.len() as int + 0].dependencies@.len() == 0,
        after[before.len() as int + 1].dependencies@.len() == 1,
        after[before.len() as int + 1].dependencies@[0]@ == "font_processor"@,
        after[before.len() as int + 2].dependencies@.len() == 0,
        after[before.len() as int + 3].dependencies@.len() == 0,
        after[before.len() as int + 4].dependencies@.len() == 1,
        after[before.len() as int + 4].dependencies@[0]@ == "ui_system"@,
        after[before.len() as int + 5].dependencies@.len() == 2,
        after[before.len() as int + 5].dependencies@[0]@ == "transform_system"@,
        after[before.len() as int + 5].dependencies@[1]@ == "ui_layout"@,
{
    let n = before.len() as int;
    let u = ui_registrations();
    assert forall|j: int| 0 <= j < n implies #[trigger] after[j] == before[j] by {
        assert(after.take(n)[j] == after[j]);
    }
    assert forall|k: int| 0 <= k < 6 implies #[trigger] after[n + k].name@ == u[k].1 by {
        assert(crate::schedule::registered_as(after[n + k], u[k].0, u[k].1, u[k].2));
    }
    assert forall|k: int| 0 <= k < 6 implies #[trigger] after[n + k].dependency_names() == u[k].2 by {
        assert(crate::schedule::registered_as(after[n + k], u[k].0, u[k].1, u[k].2));
    }
    assert(after[n + 0].dependency_names() == u[0].2);
    assert(after[n + 1].dependency_names() == u[1].2);
    assert(after[n + 2].dependency_names() == u[2].2);
    assert(after[n + 3].dependency_names() == u[3].2);
    assert(after[n + 4].dependency_names() == u[4].2);
    assert(after[n + 5].dependency_names() == u[5].2);
    assert(u[1].2.len() == 1 && u[4].2.len() == 1 && u[5].2.len() == 2);
    assert(after[n + 1].dependency_names().len() == 1);
    assert(after[n + 4].dependency_names().len() == 1);
    assert(after[n + 5].dependency_names().len() == 2);
    assert(after[n + 1].dependency_names()[0] == after[n + 1].dependencies@[0]@);
    assert(after[n + 4].dependency_names()[0] == after[n + 4].dependencies@[0]@);
    assert(after[n + 5].dependency_names()[0] == after[n + 5].dependencies@[0]@);
    assert(after[n + 5].dependency_names()[1] == after[n + 5].dependencies@[1]@);
}

/// A name registered before the UI bundle is applied stays registered after it.
proof fn lemma_ui_keeps_registered(before: Seq<Registration>, after: Seq<Registration>, name: Seq<char>)
    requires
        extends_with(before, after, ui_registrations()),
        registers(before, name),
    ensures
        registers(after, name),
{
    lemma_ui_units(before, after);
    let j = choose|j: int| 0 <= j < before.len() && #[trigger] before[j].name@ == name;
    assert(after[j] == before[j]);
}

/// With unique names before, none of them a UI name, names stay unique after
/// the UI bundle is applied.
proof fn lemma_ui_names_unique(before: Seq<Registration>, after: Seq<Registration>)
    requires
        extends_with(before, after, ui_registrations()),
        names_unique(before),
        forall|k: int| 0 <= k < 6 ==> !registers(before, #[trigger] ui_registrations()[k].1),
    ensures
        names_unique(after),
{
    lemma_ui_units(before, after);
    lemma_ui_names_distinct();
    let n = before.len() as int;
    let u = ui_registrations();
    assert forall|a: int, b: int|
        #![trigger after[a], after[b]]
        0 <= a < b < after.len() implies after[a].name@ != after[b].name@ by {
        if b < n {
            assert(after[a] == before[a] && after[b] == before[b]);
            assert(before[a].name@ != before[b].name@);
        } else if a < n {
            let k = b - n;
            assert(after[n + k].name@ == u[k].1);
            assert(after[a] == before[a]);
            if after[a].name@ == after[b].name@ {
                assert(before[a].name@ == u[k].1);
                assert(registers(before, u[k].1));
            }
        } else {
            let k = a - n;
            let l = b - n;
            assert(after[n + k].name@ == u[k].1);
            assert(after[n + l].name@ == u[l].1);
            assert(u[k].1 != u[l].1);
        }
    }
}

/// Where a unit is already registered under one of the UI bundle's names, the
/// builder that the bundle leaves repeats that name, so compiling it fails with
/// a duplicate name and the earlier unit is never silently replaced.
pub proof fn lemma_ui_bundle_repeat_rejected(
    before: Seq<Registration>,
    after: Seq<Registration>,
    j: int,
    k: int,
)
    requires
        extends_with(before, after, ui_registrations()),
        0 <= j < before.len(),
        0 <= k < 6,
        before[j].name@ == ui_registrations()[k].1,
    ensures
        !names_unique(after),
{
    lemma_ui_units(before, after);
    let n = before.len() as int;
    assert(after[j] == before[j]);
    assert(after[n + k].name@ == ui_registrations()[k].1);
    assert(after[j].name@ == after[n + k].name@);
}

/// Where the earlier units have unique names and resolved dependencies, none
/// has a UI name and none is `transform_system`, compiling after the UI bundle
/// fails on the first dependency of `ui_parent`, which is `transform_system`.
pub proof fn lemma_ui_bundle_without_transform(before: Seq<Registration>, after: Seq<Registration>)
    requires
        extends_with(before, after, ui_registrations()),
        names_unique(before),
        all_resolved(before),
        !registers(before, "transform_system"@),
        forall|k: int| 0 <= k < 6 ==> !registers(before, #[trigger] ui_registrations()[k].1),
    ensures
        names_unique(after),
        !all_resolved(after),
        first_unresolved(after, before.len() as int + 5, 0),
        after[before.len() as int + 5].name@ == "ui_parent"@,
        after[before.len() as int + 5].dependencies@[0]@ == "transform_system"@,
{
    lemma_ui_units(before, after);
    lemma_ui_names_distinct();
    lemma_ui_names_unique(before, after);
    let n = before.len() as int;
    let u = ui_registrations();
    assert(after[n + 0].name@ == u[0].1);
    assert(after[n + 1].name@ == u[1].1);
    assert(after[n + 5].name@ == u[5].1);
    if registers(after, "transform_system"@) {
        let j = choose|j: int| 0 <= j < after.len() && #[trigger] after[j].name@ == "transform_system"@;
        if j < n {
            assert(after[j] == before[j]);
            assert(registers(before, "transform_system"@));
        } else {
            let k = j - n;
            assert(after[n + k].name@ == u[k].1);
        }
    }
    assert(!resolved(after, n + 5, 0));
    assert forall|i2: int, k2: int|
        0 <= i2 < n + 5 && 0 <= k2 < after[i2].dependencies@.len() implies #[trigger] resolved(
        after,
        i2,
        k2,
    ) by {
        if i2 < n {
            assert(after[i2] == before[i2]);
            assert(resolved(before, i2, k2));
            lemma_ui_keeps_registered(before, after, before[i2].dependencies@[k2]@);
        } else if i2 == n + 1 {
            assert(after[n + 0].name@ == after[i2].dependencies@[k2]@);
        } else if i2 == n + 4 {
            assert(after[n + 1].name@ == after[i2].dependencies@[k2]@);
        }
    }
}

/// Where the earlier units would compile, one of them is `transform_system`
/// and none has a UI name, the builder that the UI bundle leaves compiles too:
/// its names are unique, its dependencies resolved, and it has no cycle.
pub proof fn lemma_ui_bundle_extension_compiles(before: Seq<Registration>, after: Seq<Registration>)
    requires
        extends_with(before, after, ui_registrations()),
        names_unique(before),
        all_resolved(before),
        acyclic(before),
        registers(before, "transform_system"@),
        forall|k: int| 0 <= k < 6 ==> !registers(before, #[trigger] ui_registrations()[k].1),
    ensures
        names_unique(after),
        all_resolved(after),
        acyclic(after),
{
    lemma_ui_units(before, after);
    lemma_ui_names_distinct();
    lemma_ui_names_unique(before, after);
    let n = before.len() as int;
    let u = ui_registrations();
    let t = choose|t: int| 0 <= t < before.len() && #[trigger] before[t].name@ == "transform_system"@;
    assert(after[t] == before[t]);
    assert forall|k: int| 0 <= k < 6 implies #[trigger] after[n + k].name@ == u[k].1 by {}
    assert(after[n + 0].name@ == u[0].1);
    assert(after[n + 1].name@ == u[1].1);
    assert(after[n + 4].name@ == u[4].1);
    assert forall|i: int, k: int|
        0 <= i < after.len() && 0 <= k < after[i].dependencies@.len() implies #[trigger] resolved(
        after,
        i,
        k,
    ) by {
        if i < n {
            assert(after[i] == before[i]);
            assert(resolved(before, i, k));
            lemma_ui_keeps_registered(before, after, before[i].dependencies@[k]@);
        } else if i == n + 1 {
            assert(after[n + 0].name@ == after[i].dependencies@[k]@);
        } else if i == n + 4 {
            assert(after[n + 1].name@ == after[i].dependencies@[k]@);
        } else if i == n + 5 {
            if k == 0 {
                assert(after[t].name@ == after[i].dependencies@[k]@);
            } else {
                assert(after[n + 4].name@ == after[i].dependencies@[k]@);
            }
        }
    }
    let rank0 = choose|rank: Seq<nat>| ranks_respect(before, rank);
    let m: nat = rank0[t] + 1;
    let rank = rank0 + seq![m, m + 1, m, m, m + 2, m + 3];
    assert forall|a: int, b: int| #[trigger] depends_on(after, b, a) implies rank[a] < rank[b] by {
        let kk = choose|kk: int|
            0 <= kk < after[b].dependencies@.len() && #[trigger] after[b].dependencies@[kk]@
                == after[a].name@;
        if b < n {
            assert(after[b] == before[b]);
            assert(resolved(before, b, kk));
            let j = choose|j: int|
                0 <= j < before.len() && #[trigger] before[j].name@ == before[b].dependencies@[kk]@;
            if a >= n {
                let k = a - n;
                assert(after[n + k].name@ == u[k].1);
                assert(registers(before, u[k].1));
            }
            assert(after[a] == before[a]);
            assert(depends_on(before, b, a));
        } else if a < n {
            assert(after[a] == before[a]);
            let k = b - n;
            if b == n + 1 {
                assert(registers(before, u[0].1));
            } else if b == n + 4 {
                assert(registers(before, u[1].1));
            } else if kk == 1 {
                assert(registers(before, u[4].1));
            } else {
                assert(b == n + 5);
                assert(before[a].name@ == before[t].name@);
                if a != t {
                    if a < t {
                        assert(before[a].name@ != before[t].name@);
                    } else {
                        assert(before[t].name@ != before[a].name@);
                    }
                }
            }
        } else {
            let k = a - n;
            assert(after[n + k].name@ == u[k].1);
            if b == n + 1 {
                assert(u[k].1 == u[0].1);
            } else if b == n + 4 {
                assert(u[k].1 == u[1].1);
            } else if kk == 1 {
                assert(u[k].1 == u[4].1);
            } else {
                assert(b == n + 5);
                assert(u[k].1 == "transform_system"@);
            }
        }
    }
    assert(ranks_respect(after, rank));
}

/// In every tick, each thread-confined unit starts only after every
/// concurrently schedulable unit: no concurrent step follows a thread-confined
/// one, and the thread-confined units keep their registration order.
pub proof fn lemma_thread_confined_after_concurrent<T>(s: ScheduleView<T>)
    ensures
        forall|p: int, q: int|
            #![trigger tick_steps(s)[p], tick_steps(s)[q]]
            0 <= p < q < tick_steps(s).len() && tick_steps(s)[p] is ThreadConfined
                ==> tick_steps(s)[q] is ThreadConfined,
        forall|p: int|
            0 <= p < s.order.len() ==> #[trigger] tick_steps(s)[p] == Step::Concurrent(s.order[p]),
        forall|t: int|
            0 <= t < s.thread_confined.len() ==> #[trigger] tick_steps(s)[s.order.len() + t]
                == Step::ThreadConfined(t as usize),
{
}

/// A number at least as large as every rank in `rank`.
spec fn rank_bound(rank: Seq<nat>) -> nat
    decreases rank.len(),
{
    if rank.len() == 0 {
        0
    } else {
        let b = rank_bound(rank.drop_last());
        if rank.last() > b {
            rank.last()
        } else {
            b
        }
    }
}

proof fn lemma_rank_bound(rank: Seq<nat>)
    ensures
        forall|i: int| 0 <= i < rank.len() ==> #[trigger] rank[i] <= rank_bound(rank),
    decreases rank.len(),
{
    if rank.len() > 0 {
        lemma_rank_bound(rank.drop_last());
        assert forall|i: int| 0 <= i < rank.len() implies #[trigger] rank[i] <= rank_bound(rank) by {
            if i < rank.len() - 1 {
                assert(rank.drop_last()[i] == rank[i]);
            }
        }
    }
}

/// What the render bundle appends where visibility sorting was requested.
proof fn lemma_sorting_unit<P>(
    before: BuilderView<RenderSystem<P>>,
    after: BuilderView<RenderSystem<P>>,
    s: RenderSystem<P>,
    dep: &[&str],
)
    requires
        installed(before, after, s, Some(dep)),
    ensures
        after.units.len() == before.units.len() + 1,
        forall|j: int| 0 <= j < before.units.len() ==> #[trigger] after.units[j] == before.units[j],
        after.units[before.units.len() as int].name@ == "visibility_sorting_system"@,
        after.units[before.units.len() as int].dependencies@.len() == dep@.len(),
        forall|k: int|
            0 <= k < dep@.len() ==> #[trigger] after.units[before.units.len() as int].dependencies@[k]@
                == dep@[k]@,
{
    let n = before.units.len() as int;
    assert forall|j: int| 0 <= j < n implies #[trigger] after.units[j] == before.units[j] by {
        assert(after.units.drop_last()[j] == after.units[j]);
    }
    let names = after.units.last().dependency_names();
    assert(names == dep@.map_values(|d: &str| d@));
    assert forall|k: int| 0 <= k < dep@.len() implies #[trigger] after.units[n].dependencies@[k]@
        == dep@[k]@ by {
        assert(names[k] == after.units[n].dependencies@[k]@);
    }
}

/// Where a unit is already registered as `visibility_sorting_system`, the
/// builder that the render bundle leaves with sorting requested repeats that
/// name, so compiling it fails with a duplicate name.
pub proof fn lemma_render_bundle_repeat_rejected<P>(
    before: BuilderView<RenderSystem<P>>,
    after: BuilderView<RenderSystem<P>>,
    s: RenderSystem<P>,
    dep: &[&str],
)
    requires
        installed(before, after, s, Some(dep)),
        registers(before.units, "visibility_sorting_system"@),
    ensures
        !names_unique(after.units),
{
    lemma_sorting_unit(before, after, s, dep);
    let n = before.units.len() as int;
    let j = choose|j: int|
        0 <= j < before.units.len() && #[trigger] before.units[j].name@ == "visibility_sorting_system"@;
    assert(after.units[j] == before.units[j]);
    assert(after.units[j].name@ == after.units[n].name@);
}

/// Where the earlier units would compile and, if sorting was requested, its
/// dependencies are all registered and none is named
/// `visibility_sorting_system`, the builder that the render bundle leaves
/// compiles too.
pub proof fn lemma_render_bundle_extension_compiles<P>(
    before: BuilderView<RenderSystem<P>>,
    after: BuilderView<RenderSystem<P>>,
    s: RenderSystem<P>,
    visibility_sorting: Option<&[&str]>,
)
    requires
        installed(before, after, s, visibility_sorting),
        names_unique(before.units),
        all_resolved(before.units),
        acyclic(before.units),
        visibility_sorting is Some ==> !registers(before.units, "visibility_sorting_system"@),
        visibility_sorting is Some ==> forall|k: int|
            0 <= k < visibility_sorting->Some_0@.len() ==> registers(
                before.units,
                #[trigger] visibility_sorting->Some_0@[k]@,
            ),
    ensures
        names_unique(after.units),
        all_resolved(after.units),
        acyclic(after.units),
{
    if let Some(dep) = visibility_sorting {
        lemma_sorting_unit(before, after, s, dep);
        let n = before.units.len() as int;
        let b = before.units;
        let a = after.units;
        assert forall|x: int, y: int| #![trigger a[x], a[y]] 0 <= x < y < a.len() implies a[x].name@
            != a[y].name@ by {
            assert(a[x] == b[x]);
            if y < n {
                assert(a[y] == b[y]);
                assert(b[x].name@ != b[y].name@);
            } else if a[x].name@ == a[y].name@ {
                assert(registers(b, "visibility_sorting_system"@));
            }
        }
        assert forall|i: int, k: int|
            0 <= i < a.len() && 0 <= k < a[i].dependencies@.len() implies #[trigger] resolved(
            a,
            i,
            k,
        ) by {
            let name = a[i].dependencies@[k]@;
            if i < n {
                assert(a[i] == b[i]);
                assert(resolved(b, i, k));
            } else {
                assert(name == dep@[k]@);
                assert(registers(b, dep@[k]@));
            }
            let j = choose|j: int| 0 <= j < b.len() && #[trigger] b[j].name@ == name;
            assert(a[j] == b[j]);
        }
        let rank0 = choose|rank: Seq<nat>| ranks_respect(b, rank);
        lemma_rank_bound(rank0);
        let rank = rank0.push(rank_bound(rank0) + 1);
        assert forall|x: int, y: int| #[trigger] depends_on(a, y, x) implies rank[x] < rank[y] by {
            let kk = choose|kk: int|
                0 <= kk < a[y].dependencies@.len() && #[trigger] a[y].dependencies@[kk]@ == a[x].name@;
            if y < n {
                assert(a[y] == b[y]);
                assert(resolved(b, y, kk));
                let j = choose|j: int|
                    0 <= j < b.len() && #[trigger] b[j].name@ == b[y].dependencies@[kk]@;
                if x == n {
                    assert(registers(b, "visibility_sorting_system"@));
                }
                assert(a[x] == b[x]);
                assert(depends_on(b, y, x));
            } else {
                if x == n {
                    assert(a[y].dependencies@[kk]@ == dep@[kk]@);
                    assert(registers(b, dep@[kk]@));
                    let j = choose|j: int| 0 <= j < b.len() && #[trigger] b[j].name@ == dep@[kk]@;
                    assert(registers(b, "visibility_sorting_system"@));
                }
                assert(rank[x] == rank0[x]);
            }
        }
        assert(ranks_respect(a, rank));
    }
}

/// Where sorting was requested, the earlier units have unique names and
/// resolved dependencies, none is `visibility_sorting_system`, and dependency
/// `kk` of sorting is the first of its dependencies that names no earlier unit
/// (and is not `visibility_sorting_system` itself), compiling after the render
/// bundle fails on exactly that dependency of the sorting unit.
pub proof fn lemma_render_bundle_missing_dependency<P>(
    before: BuilderView<RenderSystem<P>>,
    after: BuilderView<RenderSystem<P>>,
    s: RenderSystem<P>,
    dep: &[&str],
    kk: int,
)
    requires
        installed(before, after, s, Some(dep)),
        names_unique(before.units),
        all_resolved(before.units),
        !registers(before.units, "visibility_sorting_system"@),
        0 <= kk < dep@.len(),
        !registers(before.units, dep@[kk]@),
        dep@[kk]@ != "visibility_sorting_system"@,
        forall|k: int| 0 <= k < kk ==> registers(before.units, #[trigger] dep@[k]@),
    ensures
        names_unique(after.units),
        !all_resolved(after.units),
        first_unresolved(after.units, before.units.len() as int, kk),
        after.units[before.units.len() as int].name@ == "visibility_sorting_system"@,
        after.units[before.units.len() as int].dependencies@[kk]@ == dep@[kk]@,
{
    lemma_sorting_unit(before, after, s, dep);
    let n = before.units.len() as int;
    let b = before.units;
    let a = after.units;
    assert forall|x: int, y: int| #![trigger a[x], a[y]] 0 <= x < y < a.len() implies a[x].name@
        != a[y].name@ by {
        assert(a[x] == b[x]);
        if y < n {
            assert(a[y] == b[y]);
            assert(b[x].name@ != b[y].name@);
        } else if a[x].name@ == a[y].name@ {
            assert(registers(b, "visibility_sorting_system"@));
        }
    }
    if registers(a, dep@[kk]@) {
        let j = choose|j: int| 0 <= j < a.len() && #[trigger] a[j].name@ == dep@[kk]@;
        if j < n {
            assert(a[j] == b[j]);
            assert(registers(b, dep@[kk]@));
        }
    }
    assert(a[n].dependencies@[kk]@ == dep@[kk]@);
    assert(!resolved(a, n, kk));
    assert forall|i2: int, k2: int|
        0 <= i2 < n && 0 <= k2 < a[i2].dependencies@.len() implies #[trigger] resolved(a, i2, k2) by {
        assert(a[i2] == b[i2]);
        assert(resolved(b, i2, k2));
        let j = choose|j: int| 0 <= j < b.len() && #[trigger] b[j].name@ == b[i2].dependencies@[k2]@;
        assert(a[j] == b[j]);
    }
    assert forall|k2: int| 0 <= k2 < kk implies #[trigger] resolved(a, n, k2) by {
        assert(a[n].dependencies@[k2]@ == dep@[k2]@);
        assert(registers(b, dep@[k2]@));
        let j = choose|j: int| 0 <= j < b.len() && #[trigger] b[j].name@ == dep@[k2]@;
        assert(a[j] == b[j]);
    }
}

} // verus!
