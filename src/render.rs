//! The render bundle: builds the render unit, runs its setup against the
//! shared state, and adds it (after optional visibility sorting) to a builder.
use vstd::prelude::*;
use crate::bundle::BundleError;
use crate::schedule::{registered_as, BuilderView, ScheduleBuilder, SystemKind};
use crate::world::World;

verus! {

/// Display settings, parsed elsewhere and handed through unchanged.
pub struct DisplayConfig {
    pub title: String,
    pub fullscreen: bool,
    pub dimensions: Option<(u32, u32)>,
    pub min_dimensions: Option<(u32, u32)>,
    pub max_dimensions: Option<(u32, u32)>,
    pub vsync: bool,
    pub multisampling: u16,
    pub visibility: bool,
}

/// A description of a rendering pipeline, built into a pipeline for a display.
pub trait PipelineBuild {
    /// The pipeline that the description builds.
    type Pipeline;

    /// Builds the pipeline; fails with a description of the cause.
    fn build(self, config: &Option<DisplayConfig>) -> Result<Self::Pipeline, String>;
}

/// The resources that the render unit's setup makes present.
pub open spec fn render_resources() -> Set<Seq<char>> {
    set!["screen_dimensions"@, "window_messages"@]
}

/// The render unit: owns the pipeline and must run on the orchestrating thread.
pub struct RenderSystem<P> {
    pipeline: P,
    config: Option<DisplayConfig>,
    set_up: bool,
}

impl<P> RenderSystem<P> {
    /// The pipeline it renders with.
    pub closed spec fn pipeline_spec(&self) -> P {
        self.pipeline
    }

    /// The display settings it was built with.
    pub closed spec fn config_spec(&self) -> Option<DisplayConfig> {
        self.config
    }

    /// Its setup has run.
    pub closed spec fn set_up_spec(&self) -> bool {
        self.set_up
    }

    /// A render unit for `pipeline`, whose setup has not run yet.
    pub fn new(pipeline: P, config: Option<DisplayConfig>) -> (r: Self)
        ensures
            r.pipeline_spec() == pipeline,
            r.config_spec() == config,
            !r.set_up_spec(),
    {
        RenderSystem { pipeline, config, set_up: false }
    }

    /// Builds the pipeline that `pipe` describes and wraps it in a render
    /// unit; whether the pipeline builds is up to `pipe`.
    pub fn build<B: PipelineBuild<Pipeline = P>>(pipe: B, config: Option<DisplayConfig>) -> (r: Result<
        Self,
        String,
    >)
        ensures
            match r {
                Ok(s) => s.config_spec() == config && !s.set_up_spec(),
                Err(_) => true,
            },
    {
        match pipe.build(&config) {
            Ok(pipeline) => Ok(RenderSystem::new(pipeline, config)),
            Err(e) => Err(e),
        }
    }

    /// Whether its setup has run.
    pub fn is_set_up(&self) -> (r: bool)
        ensures
            r == self.set_up_spec(),
    {
        self.set_up
    }

    /// The pipeline it renders with.
    pub fn pipeline(&self) -> (r: &P)
        ensures
            *r == self.pipeline_spec(),
    {
        &self.pipeline
    }

    /// The display settings it was built with.
    pub fn config(&self) -> (r: &Option<DisplayConfig>)
        ensures
            *r == self.config_spec(),
    {
        &self.config
    }

    /// The one-time setup: makes the backend resources present in `world`.
    pub fn setup(&mut self, world: &mut World)
        ensures
            final(self).pipeline_spec() == old(self).pipeline_spec(),
            final(self).config_spec() == old(self).config_spec(),
            final(self).set_up_spec(),
            final(world)@ == old(world)@.union(render_resources()),
    {
        world.insert("screen_dimensions");
        world.insert("window_messages");
        self.set_up = true;
        assert(world@ =~= old(world)@.union(render_resources()));
    }
}

/// Sets up `system` and adds it to `builder` as a thread-confined unit, after a
/// visibility sorting unit where `visibility_sorting` holds its dependencies.
/// Where the render unit could not be built, fails with the cause and changes nothing.
pub fn install_renderer<P>(
    system: Result<RenderSystem<P>, String>,
    visibility_sorting: Option<&[&str]>,
    world: &mut World,
    builder: ScheduleBuilder<RenderSystem<P>>,
) -> (r: Result<ScheduleBuilder<RenderSystem<P>>, BundleError>)
    ensures
        match system {
            Err(cause) => {
                &&& r == Err::<ScheduleBuilder<RenderSystem<P>>, BundleError>(BundleError::Renderer(cause))
                &&& *final(world) == *old(world)
            },
            Ok(s) => {
                &&& final(world)@ == old(world)@.union(render_resources())
                &&& r is Ok
                &&& installed(builder@, r->Ok_0@, s, visibility_sorting)
            },
        },
{
    let mut unit = match system {
        Ok(s) => s,
        Err(cause) => {
            return Err(BundleError::Renderer(cause));
        },
    };
    unit.setup(world);
    let builder = match visibility_sorting {
        Some(dep) => builder.register(SystemKind::VisibilitySorting, "visibility_sorting_system", dep),
        None => builder,
    };
    let ghost confined = builder@.thread_confined;
    let b = builder.register_thread_confined(unit);
    assert(b@.thread_confined.drop_last() =~= confined);
    Ok(b)
}

/// `after` is `before` with, where `visibility_sorting` holds dependencies, a
/// visibility sorting unit with those dependencies, and the set-up render unit
/// built from `s` as the last thread-confined unit.
pub open spec fn installed<P>(
    before: BuilderView<RenderSystem<P>>,
    after: BuilderView<RenderSystem<P>>,
    s: RenderSystem<P>,
    visibility_sorting: Option<&[&str]>,
) -> bool {
    &&& match visibility_sorting {
        Some(dep) => {
            &&& after.units.drop_last() == before.units
            &&& after.units.len() == before.units.len() + 1
            &&& registered_as(
                after.units.last(),
                SystemKind::VisibilitySorting,
                "visibility_sorting_system"@,
                dep@.map_values(|d: &str| d@),
            )
        },
        None => after.units == before.units,
    }
    &&& after.thread_confined.len() == before.thread_confined.len() + 1
    &&& after.thread_confined.drop_last() == before.thread_confined
    &&& after.thread_confined.last().pipeline_spec() == s.pipeline_spec()
    &&& after.thread_confined.last().config_spec() == s.config_spec()
    &&& after.thread_confined.last().set_up_spec()
}

/// Adds the render unit, and visibility sorting where requested, to a builder.
#[verifier::reject_recursive_types(P)]
pub struct RenderBundle<'a, B, P> where B: PipelineBuild<Pipeline = P> {
    pipe: B,
    config: Option<DisplayConfig>,
    visibility_sorting: Option<&'a [&'a str]>,
}

impl<'a, B, P> RenderBundle<'a, B, P> where B: PipelineBuild<Pipeline = P> {
    /// The pipeline description.
    pub closed spec fn pipe_spec(&self) -> B {
        self.pipe
    }

    /// The display settings.
    pub closed spec fn config_spec(&self) -> Option<DisplayConfig> {
        self.config
    }

    /// The dependencies of visibility sorting, where it was requested.
    pub closed spec fn visibility_sorting_spec(&self) -> Option<&'a [&'a str]> {
        self.visibility_sorting
    }

    /// A render bundle without visibility sorting.
    pub fn new(pipe: B, config: Option<DisplayConfig>) -> (r: Self)
        ensures
            r.pipe_spec() == pipe,
            r.config_spec() == config,
            r.visibility_sorting_spec() is None,
    {
        RenderBundle { pipe, config, visibility_sorting: None }
    }

    /// Requests visibility sorting, to run after the units named in `dep`.
    pub fn with_visibility_sorting(self, dep: &'a [&'a str]) -> (r: Self)
        ensures
            r.pipe_spec() == self.pipe_spec(),
            r.config_spec() == self.config_spec(),
            r.visibility_sorting_spec() == Some(dep),
    {
        let mut s = self;
        s.visibility_sorting = Some(dep);
        s
    }

    /// Builds the render unit, runs its setup against `world`, and adds it to
    /// `builder` as a thread-confined unit, after a visibility sorting unit
    /// where sorting was requested. Fails with a renderer error, changing
    /// nothing, where the pipeline does not build.
    pub fn build(self, world: &mut World, builder: ScheduleBuilder<RenderSystem<P>>) -> (r: Result<
        ScheduleBuilder<RenderSystem<P>>,
        BundleError,
    >)
        ensures
            match r {
                Ok(b) => {
                    &&& final(world)@ == old(world)@.union(render_resources())
                    &&& exists|s: RenderSystem<P>|
                        s.config_spec() == self.config_spec() && installed(
                            builder@,
                            b@,
                            s,
                            self.visibility_sorting_spec(),
                        )
                },
                Err(e) => {
                    &&& e is Renderer
                    &&& *final(world) == *old(world)
                },
            },
    {
        let RenderBundle { pipe, config, visibility_sorting } = self;
        let system = RenderSystem::build(pipe, config);
        install_renderer(system, visibility_sorting, world, builder)
    }
}

} // verus!
