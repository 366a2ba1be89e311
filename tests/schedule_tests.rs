use amethyst_bundles::schedule::{ScheduleBuilder, ScheduleError, Step, SystemKind};

fn names(units: &Vec<amethyst_bundles::schedule::Registration>) -> Vec<String> {
    units.iter().map(|u| u.name.clone()).collect()
}

#[test]
fn empty_builder_compiles_to_empty_schedule() {
    let s = ScheduleBuilder::<u8>::new().compile().unwrap();
    assert!(s.units().is_empty());
    assert!(s.order().is_empty());
    assert!(s.execution_order().is_empty());
}

#[test]
fn register_keeps_name_dependencies_and_kind() {
    let b = ScheduleBuilder::<u8>::new().register(SystemKind::Other, "a", &["x", "y"]);
    assert_eq!(b.units().len(), 1);
    assert_eq!(b.units()[0].name, "a");
    assert_eq!(b.units()[0].dependencies, vec!["x".to_string(), "y".to_string()]);
    assert_eq!(b.units()[0].system, SystemKind::Other);
    assert!(b.thread_confined().is_empty());
}

#[test]
fn duplicate_name_is_rejected() {
    let r = ScheduleBuilder::<u8>::new()
        .register(SystemKind::Other, "a", &[])
        .register(SystemKind::Ui, "a", &[])
        .compile();
    match r {
        Err(ScheduleError::DuplicateName(n)) => assert_eq!(n, "a"),
        other => panic!("unexpected {:?}", other.map(|_| ())),
    }
}

#[test]
fn first_duplicate_is_reported() {
    let r = ScheduleBuilder::<u8>::new()
        .register(SystemKind::Other, "a", &[])
        .register(SystemKind::Other, "b", &[])
        .register(SystemKind::Other, "b", &[])
        .register(SystemKind::Other, "a", &[])
        .compile();
    match r {
        Err(ScheduleError::DuplicateName(n)) => assert_eq!(n, "b"),
        other => panic!("unexpected {:?}", other.map(|_| ())),
    }
}

#[test]
fn duplicate_wins_over_unresolved_dependency() {
    let r = ScheduleBuilder::<u8>::new()
        .register(SystemKind::Other, "a", &["missing"])
        .register(SystemKind::Other, "a", &[])
        .compile();
    assert!(matches!(r, Err(ScheduleError::DuplicateName(_))));
}

#[test]
fn unresolved_dependency_is_rejected() {
    let r = ScheduleBuilder::<u8>::new()
        .register(SystemKind::Other, "a", &[])
        .register(SystemKind::Other, "b", &["a", "ghost", "other"])
        .compile();
    match r {
        Err(ScheduleError::UnresolvedDependency { unit, dependency }) => {
            assert_eq!(unit, "b");
            assert_eq!(dependency, "ghost");
        }
        other => panic!("unexpected {:?}", other.map(|_| ())),
    }
}

#[test]
fn cycle_is_rejected() {
    let r = ScheduleBuilder::<u8>::new()
        .register(SystemKind::Other, "a", &["b"])
        .register(SystemKind::Other, "b", &["a"])
        .register(SystemKind::Other, "c", &[])
        .compile();
    assert!(matches!(r, Err(ScheduleError::DependencyCycle)));
}

#[test]
fn self_dependency_is_a_cycle() {
    let r = ScheduleBuilder::<u8>::new().register(SystemKind::Other, "a", &["a"]).compile();
    assert!(matches!(r, Err(ScheduleError::DependencyCycle)));
}

#[test]
fn stages_follow_dependencies() {
    let s = ScheduleBuilder::<u8>::new()
        .register(SystemKind::Other, "a", &[])
        .register(SystemKind::Other, "b", &["a"])
        .register(SystemKind::Other, "c", &[])
        .register(SystemKind::Other, "d", &["b", "c"])
        .compile()
        .unwrap();
    assert_eq!(s.stage_of(0), 0);
    assert_eq!(s.stage_of(1), 1);
    assert_eq!(s.stage_of(2), 0);
    assert_eq!(s.stage_of(3), 2);
    assert_eq!(s.order(), &vec![0, 2, 1, 3]);
    assert_eq!(names(s.units()), vec!["a", "b", "c", "d"]);
}

#[test]
fn dependency_may_be_registered_later() {
    let s = ScheduleBuilder::<u8>::new()
        .register(SystemKind::Other, "late_user", &["early"])
        .register(SystemKind::Other, "early", &[])
        .compile()
        .unwrap();
    assert_eq!(s.order(), &vec![1, 0]);
    assert_eq!(s.stage_of(1), 0);
    assert_eq!(s.stage_of(0), 1);
}

#[test]
fn transitive_dependency_runs_first() {
    let s = ScheduleBuilder::<u8>::new()
        .register(SystemKind::Other, "c", &["b"])
        .register(SystemKind::Other, "b", &["a"])
        .register(SystemKind::Other, "a", &[])
        .compile()
        .unwrap();
    let pos = |i: usize| s.order().iter().position(|&x| x == i).unwrap();
    assert!(pos(2) < pos(1));
    assert!(pos(1) < pos(0));
    assert!(s.stage_of(2) < s.stage_of(0));
}

#[test]
fn thread_confined_units_run_after_concurrent_units() {
    let s = ScheduleBuilder::<&str>::new()
        .register_thread_confined("first")
        .register(SystemKind::Other, "a", &[])
        .register_thread_confined("second")
        .register(SystemKind::Other, "b", &["a"])
        .compile()
        .unwrap();
    assert_eq!(s.thread_confined(), &vec!["first", "second"]);
    assert_eq!(
        s.execution_order(),
        vec![
            Step::Concurrent(0),
            Step::Concurrent(1),
            Step::ThreadConfined(0),
            Step::ThreadConfined(1)
        ]
    );
}

#[test]
fn compiled_schedule_holds_every_registered_unit() {
    let s = ScheduleBuilder::<u8>::new()
        .register(SystemKind::Other, "x", &[])
        .register(SystemKind::Other, "y", &[])
        .register(SystemKind::Other, "z", &["x"])
        .register_thread_confined(9)
        .compile()
        .unwrap();
    assert_eq!(names(s.units()), vec!["x", "y", "z"]);
    let mut seen = s.order().clone();
    seen.sort();
    assert_eq!(seen, vec![0, 1, 2]);
    assert_eq!(s.thread_confined(), &vec![9]);
}

#[test]
fn each_unit_takes_the_lowest_stage_its_dependencies_allow() {
    let s = ScheduleBuilder::<u8>::new()
        .register(SystemKind::Other, "deep", &["mid", "root"])
        .register(SystemKind::Other, "mid", &["root"])
        .register(SystemKind::Other, "root", &[])
        .register(SystemKind::Other, "free", &[])
        .compile()
        .unwrap();
    assert_eq!(s.stage_of(0), 2);
    assert_eq!(s.stage_of(1), 1);
    assert_eq!(s.stage_of(2), 0);
    assert_eq!(s.stage_of(3), 0);
    assert_eq!(s.order(), &vec![2, 3, 1, 0]);
}
