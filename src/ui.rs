//! The UI bundle: font processing, UI state, resize, mouse, layout and parent units.
use vstd::prelude::*;
use std::hash::Hash;
use std::marker::PhantomData;
use crate::bundle::BundleError;
use crate::schedule::{extends_with, ScheduleBuilder, SystemKind};
use crate::world::World;

verus! {

/// The units that the UI bundle adds: what each does, its name and its dependencies.
pub open spec fn ui_registrations() -> Seq<(SystemKind, Seq<char>, Seq<Seq<char>>)> {
    seq![
        (SystemKind::FontProcessor, "font_processor"@, seq![]),
        (SystemKind::Ui, "ui_system"@, seq!["font_processor"@]),
        (SystemKind::UiResize, "ui_resize_system"@, seq![]),
        (SystemKind::UiMouse, "ui_mouse_system"@, seq![]),
        (SystemKind::UiLayout, "ui_layout"@, seq!["ui_system"@]),
        (SystemKind::UiParent, "ui_parent"@, seq!["transform_system"@, "ui_layout"@]),
    ]
}

/// Adds the units that UI needs. `A` and `B` are the axis and action types of
/// the input handler, which must already be present when the mouse unit runs.
pub struct UiBundle<A, B> {
    _marker1: PhantomData<A>,
    _marker2: PhantomData<B>,
}

impl<A, B> UiBundle<A, B> {
    /// The units that this bundle adds when it is built.
    pub closed spec fn registrations(&self) -> Seq<(SystemKind, Seq<char>, Seq<Seq<char>>)> {
        ui_registrations()
    }

    /// A new UI bundle; it carries no data besides its two type parameters.
    pub fn new() -> (r: Self)
        ensures
            r.registrations() == ui_registrations(),
    {
        UiBundle { _marker1: PhantomData, _marker2: PhantomData }
    }
}

impl<A, B> UiBundle<A, B> where
    A: Send + Sync + Eq + Hash + Clone + 'static,
    B: Send + Sync + Eq + Hash + Clone + 'static,
 {
    /// Adds the UI units to `builder`; always succeeds and leaves `world` as it is.
    pub fn build<T>(self, world: &mut World, builder: ScheduleBuilder<T>) -> (r: Result<
        ScheduleBuilder<T>,
        BundleError,
    >)
        ensures
            *final(world) == *old(world),
            match r {
                Ok(b) => {
                    &&& b@.thread_confined == builder@.thread_confined
                    &&& extends_with(builder@.units, b@.units, ui_registrations())
                    &&& extends_with(builder@.units, b@.units, self.registrations())
                },
                Err(_) => false,
            },
    {
        let ghost u0 = builder@.units;
        let b = builder.register(SystemKind::FontProcessor, "font_processor", &[]);
        let ghost u1 = b@.units;
        let b = b.register(SystemKind::Ui, "ui_system", &["font_processor"]);
        let ghost u2 = b@.units;
        let b = b.register(SystemKind::UiResize, "ui_resize_system", &[]);
        let ghost u3 = b@.units;
        let b = b.register(SystemKind::UiMouse, "ui_mouse_system", &[]);
        let ghost u4 = b@.units;
        let b = b.register(SystemKind::UiLayout, "ui_layout", &["ui_system"]);
        let ghost u5 = b@.units;
        let b = b.register(SystemKind::UiParent, "ui_parent", &["transform_system", "ui_layout"]);
        let ghost u6 = b@.units;
        proof {
            let n = u0.len() as int;
            let added = ui_registrations();
            assert(u1.drop_last() == u0);
            assert(u6.take(n) =~= u0) by {
                assert(u6.drop_last() == u5);
                assert(u5.drop_last() == u4);
                assert(u4.drop_last() == u3);
                assert(u3.drop_last() == u2);
                assert(u2.drop_last() == u1);
                assert forall|x: int| 0 <= x < n implies u6[x] == u0[x] by {
                    assert(u6[x] == u5[x]);
                    assert(u5[x] == u4[x]);
                    assert(u4[x] == u3[x]);
                    assert(u3[x] == u2[x]);
                    assert(u2[x] == u1[x]);
                    assert(u1[x] == u0[x]);
                }
            }
            assert(u6[n + 0] == u1.last());
            assert(u6[n + 1] == u2.last());
            assert(u6[n + 2] == u3.last());
            assert(u6[n + 3] == u4.last());
            assert(u6[n + 4] == u5.last());
            assert(u6[n + 5] == u6.last());
            assert(u1.last().dependency_names() =~= added[0].2);
            assert(u2.last().dependency_names() =~= added[1].2);
            assert(u3.last().dependency_names() =~= added[2].2);
            assert(u4.last().dependency_names() =~= added[3].2);
            assert(u5.last().dependency_names() =~= added[4].2);
            assert(u6.last().dependency_names() =~= added[5].2);
        }
        Ok(b)
    }
}

} // verus!
