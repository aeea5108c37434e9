//! Status types exchanged with the compositor: the renderer's state and the
//! page-readiness notices a script driver reports through a listener.

use vstd::prelude::*;

verus! {

/// The status of the renderer.
#[derive(Clone, Copy, PartialEq, Eq, Structural, Debug)]
pub enum RenderState {
    IdleRenderState,
    RenderingRenderState,
}

/// How far along a page is: loading, laying out, or finished. Used for
/// setting the window's status message.
#[derive(Clone, Copy, PartialEq, Eq, Structural, Debug)]
pub enum ReadyState {
    Loading,
    PerformingLayout,
    FinishedLoading,
}

/// The interface used by a script driver to tell the compositor to update
/// its ready state. Implementors live outside this crate, next to the
/// windowing code.
pub trait ScriptListener: Clone {
    fn set_ready_state(&self, state: ReadyState);
}

} // verus!
