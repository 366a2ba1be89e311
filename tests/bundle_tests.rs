use amethyst_bundles::bundle::BundleError;
use amethyst_bundles::render::{DisplayConfig, PipelineBuild, RenderBundle, RenderSystem};
use amethyst_bundles::schedule::{ScheduleBuilder, ScheduleError, Step, SystemKind};
use amethyst_bundles::ui::UiBundle;
use amethyst_bundles::world::World;

struct GoodPipe(u32);

impl PipelineBuild for GoodPipe {
    type Pipeline = u32;

    fn build(self, _config: &Option<DisplayConfig>) -> Result<u32, String> {
        Ok(self.0)
    }
}

struct BadPipe;

impl PipelineBuild for BadPipe {
    type Pipeline = u32;

    fn build(self, _config: &Option<DisplayConfig>) -> Result<u32, String> {
        Err("no device".to_string())
    }
}

fn display() -> DisplayConfig {
    DisplayConfig {
        title: "game".to_string(),
        fullscreen: false,
        dimensions: Some((800, 600)),
        min_dimensions: None,
        max_dimensions: None,
        vsync: true,
        multisampling: 1,
        visibility: true,
    }
}

#[test]
fn world_insert_and_contains() {
    let mut w = World::new();
    assert!(!w.contains("a"));
    w.insert("a");
    w.insert("a");
    w.insert("b");
    assert!(w.contains("a"));
    assert!(w.contains("b"));
    assert!(!w.contains("c"));
}

#[test]
fn ui_bundle_alone_registers_six_units_and_misses_transform() {
    let mut world = World::new();
    let b = UiBundle::<String, String>::new()
        .build(&mut world, ScheduleBuilder::<u8>::new())
        .unwrap();
    let expected: Vec<(SystemKind, &str, Vec<&str>)> = vec![
        (SystemKind::FontProcessor, "font_processor", vec![]),
        (SystemKind::Ui, "ui_system", vec!["font_processor"]),
        (SystemKind::UiResize, "ui_resize_system", vec![]),
        (SystemKind::UiMouse, "ui_mouse_system", vec![]),
        (SystemKind::UiLayout, "ui_layout", vec!["ui_system"]),
        (SystemKind::UiParent, "ui_parent", vec!["transform_system", "ui_layout"]),
    ];
    assert_eq!(b.units().len(), 6);
    for (u, (kind, name, deps)) in b.units().iter().zip(expected.iter()) {
        assert_eq!(u.system, *kind);
        assert_eq!(u.name, *name);
        assert_eq!(u.dependencies, *deps);
    }
    assert!(b.thread_confined().is_empty());
    assert!(!world.contains("screen_dimensions"));
    match b.compile() {
        Err(ScheduleError::UnresolvedDependency { unit, dependency }) => {
            assert_eq!(unit, "ui_parent");
            assert_eq!(dependency, "transform_system");
        }
        other => panic!("unexpected {:?}", other.map(|_| ())),
    }
}

#[test]
fn ui_bundle_with_transform_compiles_in_dependency_order() {
    let mut world = World::new();
    let b = ScheduleBuilder::<u8>::new().register(SystemKind::Other, "transform_system", &[]);
    let s = UiBundle::<u32, u32>::new()
        .build(&mut world, b)
        .unwrap()
        .compile()
        .unwrap();
    // indices: 0 transform, 1 font, 2 ui, 3 resize, 4 mouse, 5 layout, 6 parent
    assert_eq!(s.order(), &vec![0, 1, 3, 4, 2, 5, 6]);
    assert_eq!(s.stage_of(6), 3);
    assert_eq!(s.stage_of(5), 2);
}

#[test]
fn ui_bundle_twice_is_a_duplicate() {
    let mut world = World::new();
    let b = UiBundle::<u8, u8>::new().build(&mut world, ScheduleBuilder::<u8>::new()).unwrap();
    let b = UiBundle::<u8, u8>::new().build(&mut world, b).unwrap();
    match b.compile() {
        Err(ScheduleError::DuplicateName(n)) => assert_eq!(n, "font_processor"),
        other => panic!("unexpected {:?}", other.map(|_| ())),
    }
}

#[test]
fn render_bundle_with_visibility_sorting() {
    let mut world = World::new();
    let b = RenderBundle::new(GoodPipe(3), None)
        .with_visibility_sorting(&["foo"])
        .build(&mut world, ScheduleBuilder::new())
        .unwrap();
    assert!(world.contains("screen_dimensions"));
    assert!(world.contains("window_messages"));
    assert_eq!(b.units().len(), 1);
    assert_eq!(b.units()[0].name, "visibility_sorting_system");
    assert_eq!(b.units()[0].dependencies, vec!["foo".to_string()]);
    assert_eq!(b.units()[0].system, SystemKind::VisibilitySorting);
    assert_eq!(b.thread_confined().len(), 1);
    assert!(b.thread_confined()[0].is_set_up());
    assert_eq!(*b.thread_confined()[0].pipeline(), 3);
    assert!(b.thread_confined()[0].config().is_none());
    assert!(matches!(
        b.compile(),
        Err(ScheduleError::UnresolvedDependency { .. })
    ));
}

#[test]
fn render_bundle_with_sorting_and_its_dependency_compiles() {
    let mut world = World::new();
    let b = ScheduleBuilder::new().register(SystemKind::Other, "foo", &[]);
    let s = RenderBundle::new(GoodPipe(1), Some(display()))
        .with_visibility_sorting(&["foo"])
        .build(&mut world, b)
        .unwrap()
        .compile()
        .unwrap();
    assert_eq!(s.order(), &vec![0, 1]);
    assert_eq!(
        s.execution_order(),
        vec![Step::Concurrent(0), Step::Concurrent(1), Step::ThreadConfined(0)]
    );
    let render: &RenderSystem<u32> = &s.thread_confined()[0];
    assert_eq!(render.config().as_ref().unwrap().title, "game");
}

#[test]
fn render_bundle_without_sorting_adds_only_the_render_unit() {
    let mut world = World::new();
    let b = RenderBundle::new(GoodPipe(5), None)
        .build(&mut world, ScheduleBuilder::new())
        .unwrap();
    assert!(b.units().is_empty());
    assert_eq!(b.thread_confined().len(), 1);
    let s = b.compile().unwrap();
    assert_eq!(s.execution_order(), vec![Step::ThreadConfined(0)]);
}

#[test]
fn render_bundle_reports_pipeline_failure() {
    let mut world = World::new();
    let r = RenderBundle::new(BadPipe, None)
        .with_visibility_sorting(&["foo"])
        .build(&mut world, ScheduleBuilder::new());
    match r {
        Err(BundleError::Renderer(cause)) => assert_eq!(cause, "no device"),
        Ok(_) => panic!("expected a renderer error"),
    }
    assert!(!world.contains("screen_dimensions"));
}

#[test]
fn render_and_ui_bundles_compose() {
    let mut world = World::new();
    let b = ScheduleBuilder::new().register(SystemKind::Other, "transform_system", &[]);
    let b = UiBundle::<u8, u8>::new().build(&mut world, b).unwrap();
    let b = RenderBundle::new(GoodPipe(2), None)
        .with_visibility_sorting(&["ui_parent"])
        .build(&mut world, b)
        .unwrap();
    let s = b.compile().unwrap();
    let steps = s.execution_order();
    assert_eq!(steps.len(), 9);
    assert_eq!(steps[8], Step::ThreadConfined(0));
    assert_eq!(steps[7], Step::Concurrent(7));
}

#[test]
fn ui_bundle_after_a_unit_with_a_ui_name_is_a_duplicate() {
    let mut world = World::new();
    let b = ScheduleBuilder::<u8>::new()
        .register(SystemKind::Other, "transform_system", &[])
        .register(SystemKind::Other, "ui_layout", &[]);
    let b = UiBundle::<u8, u8>::new().build(&mut world, b).unwrap();
    match b.compile() {
        Err(ScheduleError::DuplicateName(n)) => assert_eq!(n, "ui_layout"),
        other => panic!("unexpected {:?}", other.map(|_| ())),
    }
}

#[test]
fn render_bundle_after_a_sorting_unit_is_a_duplicate() {
    let mut world = World::new();
    let b = ScheduleBuilder::new().register(SystemKind::Other, "visibility_sorting_system", &[]);
    let b = RenderBundle::new(GoodPipe(1), None)
        .with_visibility_sorting(&[])
        .build(&mut world, b)
        .unwrap();
    match b.compile() {
        Err(ScheduleError::DuplicateName(n)) => assert_eq!(n, "visibility_sorting_system"),
        other => panic!("unexpected {:?}", other.map(|_| ())),
    }
}

#[test]
fn render_bundle_names_its_missing_sorting_dependency() {
    let mut world = World::new();
    let b = ScheduleBuilder::new().register(SystemKind::Other, "foo", &[]);
    let b = RenderBundle::new(GoodPipe(1), None)
        .with_visibility_sorting(&["foo", "bar", "baz"])
        .build(&mut world, b)
        .unwrap();
    match b.compile() {
        Err(ScheduleError::UnresolvedDependency { unit, dependency }) => {
            assert_eq!(unit, "visibility_sorting_system");
            assert_eq!(dependency, "bar");
        }
        other => panic!("unexpected {:?}", other.map(|_| ())),
    }
}
