//! Per-window presentation target lifecycle.
//!
//! An [`Outlet`] models the GPU presentation state of one native window: a
//! bare platform surface, or a surface with a bound swap target sized to the
//! window.  The swap target alone is torn down on resize or loss and rebuilt
//! lazily on the next frame; the surface persists for the window's lifetime.
//! The host event loop owns the real GPU objects and mirrors every
//! transition it performs on them through the methods here, so that the
//! drain and render logic is checked against this state machine.

use vstd::prelude::*;

use crate::geom::Size;

verus! {

/// Pixel format of the swap target's images.
#[derive(Clone, Copy, Debug, PartialEq, Eq, Structural)]
pub enum TextureFormat {
    Bgra8Unorm,
    Rgba8Unorm,
}

/// How the swap target's images may be used.  A presentation target is
/// only ever rendered into as an output attachment.
#[derive(Clone, Copy, Debug, PartialEq, Eq, Structural)]
pub enum TextureUsage {
    OutputAttachment,
}

/// How presented frames are paced against the display.
#[derive(Clone, Copy, Debug, PartialEq, Eq, Structural)]
pub enum PresentMode {
    Immediate,
    Mailbox,
    Fifo,
}

/// Everything needed to build a swap target for one window.
#[derive(Clone, Copy, Debug, PartialEq, Eq, Structural)]
pub struct SwapTargetDesc {
    pub usage: TextureUsage,
    pub format: TextureFormat,
    pub width: u32,
    pub height: u32,
    pub present_mode: PresentMode,
}

/// Presentation state of one native window.
///
/// `Invalid` marks a swap target moved out while it is being rebuilt.  It is
/// transient by design: no operation here produces it, every operation
/// requires it absent, and [`Outlet::wf`] rules it out, so it can never be
/// the state another operation observes.
#[derive(Clone, Copy, Debug, PartialEq, Eq, Structural)]
pub enum Outlet {
    /// Only the platform surface to present onto exists.
    Surface,
    /// A swap target of the given size is bound and presentable.
    SwapTarget { width: u32, height: u32 },
    /// Transient marker while the swap target is being rebuilt.
    Invalid,
}

/// What the render step must do for one window this frame.
#[derive(Clone, Copy, Debug, PartialEq, Eq, Structural)]
pub enum FramePlan {
    /// The window is minimized: nothing to draw, and not an error.
    SkipMinimized,
    /// No swap target is bound: build one as described, then acquire.
    Build { desc: SwapTargetDesc },
    /// A swap target of this size is bound: acquire its current image.
    Acquire { width: u32, height: u32 },
}

impl Outlet {
    /// A resting outlet is never the transient `Invalid` marker.
    pub open spec fn wf(self) -> bool {
        !(self is Invalid)
    }

    /// State after the swap target is dropped: the bare surface.
    pub open spec fn spec_drop_swap_chain(self) -> Outlet {
        Outlet::Surface
    }

    /// State after a swap target of the given size is bound.
    pub open spec fn spec_install(size: Size) -> Outlet {
        Outlet::SwapTarget { width: size.width, height: size.height }
    }

    /// Decision for one frame, given the window's minimized flag and its
    /// current inner size.
    pub open spec fn spec_frame_plan(self, minimized: bool, size: Size) -> FramePlan {
        if minimized {
            FramePlan::SkipMinimized
        } else {
            match self {
                Outlet::Surface => FramePlan::Build { desc: Outlet::spec_desc(size) },
                Outlet::SwapTarget { width, height } => FramePlan::Acquire { width, height },
                Outlet::Invalid => FramePlan::SkipMinimized,
            }
        }
    }

    pub open spec fn spec_desc(size: Size) -> SwapTargetDesc {
        SwapTargetDesc {
            usage: TextureUsage::OutputAttachment,
            format: TextureFormat::Bgra8Unorm,
            width: size.width,
            height: size.height,
            present_mode: PresentMode::Fifo,
        }
    }

    /// A fresh outlet for a newly created window: bare surface, no swap
    /// target yet.
    pub fn new() -> (r: Outlet)
        ensures
            r == Outlet::Surface,
            r.wf(),
    {
        Outlet::Surface
    }

    /// The one pixel format every swap target in this subsystem uses.
    pub fn format() -> (r: TextureFormat)
        ensures
            r == TextureFormat::Bgra8Unorm,
    {
        TextureFormat::Bgra8Unorm
    }

    /// Swap target description for a window of the given inner size:
    /// rendered into as an output attachment, in the presentation format,
    /// presented first-in first-out.
    pub fn desc(width: u32, height: u32) -> (r: SwapTargetDesc)
        ensures
            r == Outlet::spec_desc(Size { width, height }),
    {
        SwapTargetDesc {
            usage: TextureUsage::OutputAttachment,
            format: TextureFormat::Bgra8Unorm,
            width,
            height,
            present_mode: PresentMode::Fifo,
        }
    }

    /// Tear down the swap target, keeping the underlying surface, so the
    /// next frame rebuilds it at the window's then-current size.
    pub fn drop_swap_chain(&mut self)
        requires
            old(self).wf(),
        ensures
            *final(self) == old(self).spec_drop_swap_chain(),
            final(self).wf(),
    {
        *self = Outlet::Surface;
    }

    /// Resize notification: identical to dropping the swap target.
    pub fn on_resize(&mut self)
        requires
            old(self).wf(),
        ensures
            *final(self) == old(self).spec_drop_swap_chain(),
            final(self).wf(),
    {
        self.drop_swap_chain();
    }

    /// Record that the host bound a swap target of the given size.
    pub fn install_swap_target(&mut self, size: Size)
        requires
            old(self).wf(),
        ensures
            *final(self) == Outlet::spec_install(size),
            final(self).wf(),
    {
        *self = Outlet::SwapTarget { width: size.width, height: size.height };
    }

    /// Plan one frame for a window in this presentation state.
    pub fn frame_plan(&self, minimized: bool, size: Size) -> (r: FramePlan)
        requires
            self.wf(),
        ensures
            r == self.spec_frame_plan(minimized, size),
    {
        if minimized {
            FramePlan::SkipMinimized
        } else {
            match self {
                Outlet::Surface => FramePlan::Build { desc: Outlet::desc(size.width, size.height) },
                Outlet::SwapTarget { width, height } => FramePlan::Acquire {
                    width: *width,
                    height: *height,
                },
                Outlet::Invalid => {
                    proof {
                        assert(false);
                    }
                    FramePlan::SkipMinimized
                },
            }
        }
    }

    /// True while only the bare surface exists, so a swap target must be
    /// built before the next acquire.
    pub fn is_bare_surface(&self) -> (r: bool)
        ensures
            r == (*self is Surface),
    {
        match self {
            Outlet::Surface => true,
            _ => false,
        }
    }
}

/// Law: the swap target rebuild is idempotent across a zero-area excursion.
///
/// Take any well-formed outlet.  Resizing tears the swap target down; while
/// the window is zero-area (minimized) every frame plan is the skip, never a
/// failure; once a non-zero size is restored, the next frame plans a build
/// at that size, and after the host binds the rebuilt target the outlet is
/// presentable again and plans an acquire at exactly that size.
pub proof fn lemma_swap_target_rebuild(o: Outlet, restored: Size)
    requires
        o.wf(),
        !restored.is_zero_area(),
    ensures
        o.spec_drop_swap_chain().wf(),
        o.spec_drop_swap_chain().spec_frame_plan(true, restored) == FramePlan::SkipMinimized,
        o.spec_drop_swap_chain().spec_frame_plan(false, restored) == (FramePlan::Build {
            desc: Outlet::spec_desc(restored),
        }),
        Outlet::spec_install(restored).spec_frame_plan(false, restored) == (FramePlan::Acquire {
            width: restored.width,
            height: restored.height,
        }),
        o.spec_drop_swap_chain().spec_drop_swap_chain() == o.spec_drop_swap_chain(),
{
}

} // verus!
