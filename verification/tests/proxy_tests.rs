use windowing::geom::{Pos, Size};
use windowing::manager::{Manager, NewWindow};
use windowing::proxy::{Action, Proxy, ProxyError};

fn nw(wid: u64, x: i32, y: i32, w: u32, h: u32) -> NewWindow {
    NewWindow { wid, pos: Pos::new(x, y), size: Size::new(w, h) }
}

#[test]
fn minted_keys_strictly_increase_and_skip_zero() {
    let mut proxy = Proxy::new();
    let k1 = proxy.create_window(true);
    let k2 = proxy.create_window(false);
    let k3 = proxy.create_window(true);
    assert!(k1 > 0);
    assert!(k2 > k1);
    assert!(k3 > k2);
}

#[test]
fn use_window_mints_nonzero_key() {
    let mut proxy = Proxy::new();
    let k = proxy.use_window(7);
    assert!(k > 0);
}

#[test]
fn reads_on_unknown_key_fail_stale() {
    let proxy = Proxy::new();
    assert_eq!(proxy.get_position(42), Err(ProxyError::StaleRead));
    assert_eq!(proxy.get_size(42), Err(ProxyError::StaleRead));
    assert_eq!(proxy.get_focus(42), Err(ProxyError::StaleRead));
    assert_eq!(proxy.get_minimized(42), Err(ProxyError::StaleRead));
}

#[test]
fn reads_before_first_drain_fail_stale() {
    let mut proxy = Proxy::new();
    let k = proxy.create_window(true);
    assert_eq!(proxy.get_position(k), Err(ProxyError::StaleRead));
    assert_eq!(proxy.get_size(k), Err(ProxyError::StaleRead));
}

#[test]
fn mutations_on_dead_key_are_rejected() {
    let mut proxy = Proxy::new();
    assert_eq!(proxy.show_window(5), Err(ProxyError::UnknownKey));
    assert_eq!(proxy.set_position(5, Pos::new(1, 2)), Err(ProxyError::UnknownKey));
    assert_eq!(proxy.set_size(5, Size::new(3, 4)), Err(ProxyError::UnknownKey));
    assert_eq!(proxy.set_focus(5), Err(ProxyError::UnknownKey));
    assert_eq!(proxy.set_title(5, String::from("x")), Err(ProxyError::UnknownKey));
    assert_eq!(proxy.destroy_window(5), Err(ProxyError::UnknownKey));
}

#[test]
fn pending_creates_reports_decorations_in_order() {
    let mut proxy = Proxy::new();
    proxy.create_window(true);
    proxy.create_window(false);
    proxy.create_window(true);
    assert_eq!(proxy.pending_creates(), vec![true, false, true]);
}

#[test]
fn drain_net_effect_creates_minus_destroys() {
    let mut proxy = Proxy::new();
    let mut manager = Manager::new();
    let a = proxy.create_window(true);
    let b = proxy.create_window(false);
    assert_eq!(proxy.destroy_window(a), Ok(()));
    assert_eq!(proxy.pending_creates(), vec![true, false]);
    let actions = proxy.update(&mut manager, vec![nw(10, 0, 0, 100, 100), nw(20, 5, 5, 200, 200)]);
    // A's window was created, then closed by its queued destroy.
    assert!(matches!(actions[0], Action::Close { wid: 10 }));
    assert_eq!(actions.len(), 1);
    assert_eq!(manager.window_ids(), vec![20]);
    assert_eq!(proxy.get_size(b), Ok(Size::new(200, 200)));
    assert_eq!(proxy.get_position(a), Err(ProxyError::StaleRead));
}

#[test]
fn resize_is_stale_until_drained_then_exact() {
    let mut proxy = Proxy::new();
    let mut manager = Manager::new();
    let a = proxy.create_window(true);
    proxy.update(&mut manager, vec![nw(1, 0, 0, 1280, 720)]);
    assert_eq!(proxy.get_size(a), Ok(Size::new(1280, 720)));
    assert_eq!(proxy.set_size(a, Size::new(800, 600)), Ok(()));
    assert_eq!(proxy.get_size(a), Err(ProxyError::StaleRead));
    let actions = proxy.update(&mut manager, vec![]);
    assert!(matches!(
        actions[0],
        Action::SetSize { wid: 1, size: Size { width: 800, height: 600 } }
    ));
    assert_eq!(proxy.get_size(a), Ok(Size::new(800, 600)));
}

#[test]
fn destroy_removes_window_and_cache_and_rejects_later_ops() {
    let mut proxy = Proxy::new();
    let mut manager = Manager::new();
    let a = proxy.create_window(true);
    proxy.update(&mut manager, vec![nw(1, 0, 0, 640, 480)]);
    assert_eq!(proxy.destroy_window(a), Ok(()));
    // Already before the drain, every operation on the destroyed key is
    // rejected: reads as stale, mutations as unknown.
    assert_eq!(proxy.get_position(a), Err(ProxyError::StaleRead));
    assert_eq!(proxy.get_size(a), Err(ProxyError::StaleRead));
    assert_eq!(proxy.get_focus(a), Err(ProxyError::StaleRead));
    assert_eq!(proxy.get_minimized(a), Err(ProxyError::StaleRead));
    assert_eq!(proxy.set_position(a, Pos::new(1, 1)), Err(ProxyError::UnknownKey));
    let actions = proxy.update(&mut manager, vec![]);
    assert!(matches!(actions[0], Action::Close { wid: 1 }));
    assert_eq!(manager.window_ids(), Vec::<u64>::new());
    assert_eq!(proxy.get_position(a), Err(ProxyError::StaleRead));
    assert_eq!(proxy.set_focus(a), Err(ProxyError::UnknownKey));
    assert_eq!(proxy.destroy_window(a), Err(ProxyError::UnknownKey));
}

#[test]
fn end_to_end_create_resize_destroy() {
    let mut proxy = Proxy::new();
    let mut manager = Manager::new();
    // create window A (decorated) -> drain: A gets a real window and cache.
    let a = proxy.create_window(true);
    assert_eq!(proxy.pending_creates(), vec![true]);
    proxy.update(&mut manager, vec![nw(11, 30, 40, 1280, 720)]);
    assert_eq!(manager.window_ids(), vec![11]);
    assert_eq!(proxy.get_position(a), Ok(Pos::new(30, 40)));
    assert_eq!(proxy.get_size(a), Ok(Size::new(1280, 720)));
    assert_eq!(proxy.get_focus(a), Ok(true));
    assert_eq!(proxy.get_minimized(a), Ok(false));
    // setSize(A, 800x600) -> drain -> getSize(A) == 800x600.
    assert_eq!(proxy.set_size(a, Size::new(800, 600)), Ok(()));
    proxy.update(&mut manager, vec![]);
    assert_eq!(proxy.get_size(a), Ok(Size::new(800, 600)));
    // destroy(A) -> drain -> collection empty and getPosition(A) fails.
    assert_eq!(proxy.destroy_window(a), Ok(()));
    proxy.update(&mut manager, vec![]);
    assert_eq!(manager.window_ids(), Vec::<u64>::new());
    assert_eq!(proxy.get_position(a), Err(ProxyError::StaleRead));
}

#[test]
fn drain_actions_keep_issue_order() {
    let mut proxy = Proxy::new();
    let mut manager = Manager::new();
    let a = proxy.create_window(true);
    proxy.update(&mut manager, vec![nw(3, 0, 0, 100, 100)]);
    assert_eq!(proxy.show_window(a), Ok(()));
    assert_eq!(proxy.set_position(a, Pos::new(9, 9)), Ok(()));
    assert_eq!(proxy.set_title(a, String::from("panel")), Ok(()));
    assert_eq!(proxy.set_focus(a), Ok(()));
    let actions = proxy.update(&mut manager, vec![]);
    assert_eq!(actions.len(), 4);
    assert!(matches!(actions[0], Action::Show { wid: 3 }));
    assert!(matches!(actions[1], Action::SetPos { wid: 3, pos: Pos { x: 9, y: 9 } }));
    assert!(matches!(actions[2], Action::Title { wid: 3, ref title } if title == "panel"));
    assert!(matches!(actions[3], Action::Focus { wid: 3 }));
}

#[test]
fn empty_drain_refreshes_cache_from_reported_events() {
    let mut proxy = Proxy::new();
    let mut manager = Manager::new();
    let a = proxy.create_window(false);
    proxy.update(&mut manager, vec![nw(4, 0, 0, 300, 300)]);
    // The host reports a native move and a focus loss between drains.
    manager.on_moved(4, Pos::new(77, 88));
    manager.set_focus(4, false);
    // The old snapshot is still served until the next drain.
    assert_eq!(proxy.get_position(a), Ok(Pos::new(0, 0)));
    let actions = proxy.update(&mut manager, vec![]);
    assert!(actions.is_empty());
    assert_eq!(proxy.get_position(a), Ok(Pos::new(77, 88)));
    assert_eq!(proxy.get_focus(a), Ok(false));
}

#[test]
fn window_id_maps_key_to_native_window() {
    let mut proxy = Proxy::new();
    let mut manager = Manager::new();
    let a = proxy.create_window(true);
    assert_eq!(proxy.window_id(a), None);
    proxy.update(&mut manager, vec![nw(9, 0, 0, 10, 10)]);
    assert_eq!(proxy.window_id(a), Some(9));
    assert!(proxy.uses_window_id(9));
    assert!(!proxy.uses_window_id(8));
    assert!(proxy.check_consistent(&manager));
}
