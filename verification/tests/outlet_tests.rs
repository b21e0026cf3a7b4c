use windowing::geom::{Pos, Size};
use windowing::manager::{Manager, NewWindow};
use windowing::outlet::{FramePlan, Outlet, PresentMode, SwapTargetDesc, TextureFormat, TextureUsage};

#[test]
fn format_is_bgra() {
    assert_eq!(Outlet::format(), TextureFormat::Bgra8Unorm);
}

#[test]
fn desc_fixes_usage_format_size_and_present_mode() {
    let d = Outlet::desc(1024, 768);
    assert_eq!(
        d,
        SwapTargetDesc {
            usage: TextureUsage::OutputAttachment,
            format: TextureFormat::Bgra8Unorm,
            width: 1024,
            height: 768,
            present_mode: PresentMode::Fifo,
        }
    );
}

#[test]
fn fresh_outlet_plans_a_build_then_acquires() {
    let mut o = Outlet::new();
    assert!(o.is_bare_surface());
    let plan = o.frame_plan(false, Size::new(640, 480));
    assert_eq!(plan, FramePlan::Build {
        desc: SwapTargetDesc {
            usage: TextureUsage::OutputAttachment,
            format: TextureFormat::Bgra8Unorm,
            width: 640,
            height: 480,
            present_mode: PresentMode::Fifo,
        }
    });
    o.install_swap_target(Size::new(640, 480));
    assert!(!o.is_bare_surface());
    assert_eq!(
        o.frame_plan(false, Size::new(640, 480)),
        FramePlan::Acquire { width: 640, height: 480 }
    );
}

#[test]
fn minimized_window_skips_acquisition() {
    let mut o = Outlet::new();
    o.install_swap_target(Size::new(100, 100));
    assert_eq!(o.frame_plan(true, Size::new(100, 100)), FramePlan::SkipMinimized);
}

#[test]
fn resize_drops_swap_target_and_rebuild_is_idempotent() {
    let mut o = Outlet::new();
    o.install_swap_target(Size::new(300, 200));
    o.on_resize();
    assert!(o.is_bare_surface());
    // Dropping again changes nothing.
    o.drop_swap_chain();
    assert!(o.is_bare_surface());
}

#[test]
fn zero_area_excursion_leaves_outlet_able_to_acquire_again() {
    // A window with a bound swap target is resized to zero area and back.
    let mut manager = Manager::new();
    manager.add_window(NewWindow { wid: 1, pos: Pos::new(0, 0), size: Size::new(800, 600) });
    manager.install_swap_target(1, Size::new(800, 600));
    assert_eq!(manager.frame_plan(1), FramePlan::Acquire { width: 800, height: 600 });
    // Zero area: minimized, swap target gone, frames are skipped, not errors.
    manager.on_resized(1, Size::new(0, 0));
    assert_eq!(manager.frame_plan(1), FramePlan::SkipMinimized);
    // Non-zero geometry restored: the next frame plans a rebuild at the new
    // size, and after the host binds it, acquisition works again.
    manager.on_resized(1, Size::new(1024, 768));
    assert_eq!(
        manager.frame_plan(1),
        FramePlan::Build { desc: Outlet::desc(1024, 768) }
    );
    manager.install_swap_target(1, Size::new(1024, 768));
    assert_eq!(manager.frame_plan(1), FramePlan::Acquire { width: 1024, height: 768 });
}

#[test]
fn manager_tracks_redraws_and_lookups() {
    let mut manager = Manager::from_parts(NewWindow {
        wid: 5,
        pos: Pos::new(1, 2),
        size: Size::new(10, 20),
    });
    let vp = manager.viewport(5).unwrap();
    assert_eq!(vp.pos, Pos::new(1, 2));
    assert_eq!(vp.size, Size::new(10, 20));
    assert!(vp.focus);
    assert!(!vp.minimized);
    assert!(!vp.redraw_pending);
    assert!(manager.viewport(6).is_none());
    assert!(manager.contains_window(5));

    manager.add_window(NewWindow { wid: 6, pos: Pos::new(0, 0), size: Size::new(5, 5) });
    manager.request_redraws();
    assert_eq!(manager.viewports_to_redraw(), vec![5, 6]);
    manager.finish_draw(5);
    assert_eq!(manager.viewports_to_redraw(), vec![6]);
    manager.complete_redraw(5);
    assert_eq!(manager.viewports_to_redraw(), vec![5, 6]);

    manager.destroy(6);
    assert_eq!(manager.window_ids(), vec![5]);
    assert!(!manager.close_native_window(99));
    assert!(manager.close_native_window(5));
}

#[test]
fn maintain_outlets_builds_only_missing_swap_targets() {
    let mut manager = Manager::new();
    manager.add_window(NewWindow { wid: 1, pos: Pos::new(0, 0), size: Size::new(100, 50) });
    manager.add_window(NewWindow { wid: 2, pos: Pos::new(0, 0), size: Size::new(200, 60) });
    manager.install_swap_target(2, Size::new(200, 60));
    // Only window 1 still lacks a swap target.
    assert_eq!(manager.maintain_outlets(), vec![1]);
    assert_eq!(manager.frame_plan(1), FramePlan::Acquire { width: 100, height: 50 });
    assert_eq!(manager.frame_plan(2), FramePlan::Acquire { width: 200, height: 60 });
    // Nothing is missing any more.
    assert_eq!(manager.maintain_outlets(), Vec::<u64>::new());
}

#[test]
fn viewports_iter_lists_entries_in_order() {
    let mut manager = Manager::new();
    manager.add_window(NewWindow { wid: 7, pos: Pos::new(0, 0), size: Size::new(1, 1) });
    manager.add_window(NewWindow { wid: 8, pos: Pos::new(2, 2), size: Size::new(3, 3) });
    let all = manager.viewports_iter();
    assert_eq!(all.len(), 2);
    assert_eq!(all[0].0, 7);
    assert_eq!(all[1].0, 8);
    assert_eq!(all[1].1.pos, Pos::new(2, 2));
}

#[test]
fn reported_resize_to_zero_marks_minimized() {
    let mut manager = Manager::new();
    manager.add_window(NewWindow { wid: 2, pos: Pos::new(0, 0), size: Size::new(50, 50) });
    manager.on_resized(2, Size::new(0, 0));
    assert!(manager.viewport(2).unwrap().minimized);
    manager.on_resized(2, Size::new(60, 60));
    assert!(!manager.viewport(2).unwrap().minimized);
    assert_eq!(manager.viewport(2).unwrap().size, Size::new(60, 60));
}
