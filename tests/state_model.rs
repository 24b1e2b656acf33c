use indexmap::IndexSet;
use pinnacle::commit::preferred_scale_output;
use pinnacle::backend::{Backend, OutputClock, RenderResult, Udev, Winit};
use pinnacle::frame::FrameClock;
use pinnacle::geometry::{Point, Rect, Size};
use pinnacle::output::{BlankingState, Mode, ModeRequest, Output, OutputConfiguration};
use pinnacle::session_lock::{FrameKind, LockState};
use pinnacle::state::Pinnacle;
use pinnacle::tag;
use pinnacle::window::{self, LayoutMode, WindowHandle, WindowState};

fn output(name: &str) -> Output {
    Output {
        name: name.to_string(),
        tags: IndexSet::new(),
        loc: Point { x: 0, y: 0 },
        logical_size: Size { w: 1920, h: 1080 },
        scale: 120,
        current_mode: None,
        modes: Vec::new(),
        enabled: true,
        powered: true,
        vrr: false,
        vrr_on_demand: false,
        blanking_state: BlankingState::NotBlanked,
        has_lock_surface: false,
        render_scheduled: false,
    }
}

fn base_state() -> Pinnacle {
    Pinnacle {
        outputs: vec![output("DP-1")],
        tags: Vec::new(),
        windows: Vec::new(),
        unmapped_windows: Vec::new(),
        keyboard_focus_stack: Vec::new(),
        focused_output: Some("DP-1".to_string()),
        connector_saved_states: Vec::new(),
        next_tag_id: 1,
        lock_state: LockState::Unlocked,
        lock_surface_focus: None,
    }
}

fn window(id: u32, tags: &[u32]) -> WindowState {
    let mut set = IndexSet::new();
    for t in tags {
        set.insert(*t);
    }
    WindowState {
        id,
        tags: set,
        layout_mode: LayoutMode::Tiled,
        floating_base: false,
        geometry: None,
        floating_geometry: None,
        minimized: false,
        title: None,
        app_id: None,
        decoration_mode: None,
        vrr_demand: None,
        foreign_toplevel_identifier: None,
        override_redirect: false,
        min_size: None,
        max_size: None,
    }
}

fn output_tags(p: &Pinnacle, o: usize) -> Vec<u32> {
    p.outputs[o].tags.iter().copied().collect()
}

#[test]
fn add_gives_fresh_ids_in_order() {
    let mut p = base_state();
    let ids = tag::add(&mut p, vec!["1".to_string(), "2".to_string(), "3".to_string()], &"DP-1".to_string());
    assert_eq!(ids, vec![1, 2, 3]);
    assert_eq!(output_tags(&p, 0), vec![1, 2, 3]);
    assert_eq!(p.next_tag_id, 4);
    assert_eq!(p.tags[1].name, "2");
    assert!(!p.tags[1].active);
}

#[test]
fn add_to_missing_output_does_nothing() {
    let mut p = base_state();
    let ids = tag::add(&mut p, vec!["1".to_string()], &"HDMI-A-1".to_string());
    assert!(ids.is_empty());
    assert!(p.tags.is_empty());
    assert_eq!(p.next_tag_id, 1);
}

#[test]
fn add_then_remove_restores_tag_set() {
    let mut p = base_state();
    tag::add(&mut p, vec!["a".to_string(), "b".to_string()], &"DP-1".to_string());
    let before = output_tags(&p, 0);
    let new_ids = tag::add(&mut p, vec!["c".to_string()], &"DP-1".to_string());
    assert_eq!(output_tags(&p, 0), vec![1, 2, 3]);
    tag::remove(&mut p, new_ids);
    assert_eq!(output_tags(&p, 0), before);
    assert_eq!(p.tags.iter().map(|t| t.id).collect::<Vec<_>>(), vec![1, 2]);
}

#[test]
fn remove_cascades_through_windows() {
    let mut p = base_state();
    tag::add(&mut p, vec!["a".to_string(), "b".to_string()], &"DP-1".to_string());
    p.windows.push(window(10, &[1, 2]));
    tag::remove(&mut p, vec![1]);
    assert_eq!(p.windows[0].tags.iter().copied().collect::<Vec<_>>(), vec![2]);
    assert_eq!(output_tags(&p, 0), vec![2]);
    assert!(p.outputs[0].render_scheduled);
}

#[test]
fn set_active_signals_only_on_change() {
    let mut p = base_state();
    tag::add(&mut p, vec!["a".to_string()], &"DP-1".to_string());
    let r = tag::set_active(&mut p, 1, Some(true));
    assert_eq!(r.signaled, vec![1]);
    assert_eq!(r.output, Some(0));
    let r = tag::set_active(&mut p, 1, Some(true));
    assert!(r.signaled.is_empty());
    let r = tag::set_active(&mut p, 1, None);
    assert_eq!(r.signaled, vec![1]);
    assert!(!p.tags[0].active);
    let r = tag::set_active(&mut p, 99, None);
    assert_eq!(r.output, None);
}

#[test]
fn tag_switch_hides_and_shows() {
    let mut p = base_state();
    tag::add(&mut p, vec!["A".to_string(), "B".to_string()], &"DP-1".to_string());
    p.windows.push(window(1, &[1]));
    p.windows.push(window(2, &[2]));
    tag::set_active(&mut p, 1, Some(true));
    p.outputs[0].render_scheduled = false;
    let r = tag::switch_to(&mut p, 2);
    assert!(p.outputs[0].render_scheduled);
    let mut signaled = r.signaled.clone();
    signaled.sort();
    assert_eq!(signaled, vec![1, 2]);
    assert!(WindowHandle::from_id(2).is_on_active_tag(&p));
    assert!(!WindowHandle::from_id(1).is_on_active_tag(&p));
    tag::switch_to(&mut p, 1);
    assert!(WindowHandle::from_id(1).is_on_active_tag(&p));
    assert!(!WindowHandle::from_id(2).is_on_active_tag(&p));
}

#[test]
fn switch_to_active_tag_emits_nothing() {
    let mut p = base_state();
    tag::add(&mut p, vec!["A".to_string()], &"DP-1".to_string());
    tag::switch_to(&mut p, 1);
    let r = tag::switch_to(&mut p, 1);
    assert!(r.signaled.is_empty());
}

#[test]
fn set_mode_then_read_gives_same_mode() {
    let mut p = base_state();
    p.windows.push(window(5, &[]));
    let h = WindowHandle::from_id(5);
    h.set_floating(&mut p, true);
    assert_eq!(h.layout_mode(&p), LayoutMode::Floating);
    h.set_fullscreen(&mut p, true);
    assert!(h.fullscreen(&p));
    h.set_fullscreen(&mut p, false);
    assert_eq!(h.layout_mode(&p), LayoutMode::Floating);
    h.toggle_maximized(&mut p);
    assert!(h.maximized(&p));
    h.toggle_maximized(&mut p);
    assert!(h.floating(&p));
    h.toggle_floating(&mut p);
    assert!(h.tiled(&p));
    assert!(!h.spilled(&p));
}

#[test]
fn unknown_window_reads_as_tiled_and_empty() {
    let p = base_state();
    let h = WindowHandle::from_id(42);
    assert_eq!(h.id(), 42);
    assert_eq!(h.layout_mode(&p), LayoutMode::Tiled);
    assert_eq!(h.title(&p), "");
    assert_eq!(h.app_id(&p), "");
    assert_eq!(h.loc(&p), None);
    assert!(h.tags(&p).is_empty());
    assert_eq!(h.output(&p), None);
}

#[test]
fn window_queries_read_the_state() {
    let mut p = base_state();
    tag::add(&mut p, vec!["A".to_string()], &"DP-1".to_string());
    let mut w = window(3, &[1]);
    w.title = Some("term".to_string());
    w.app_id = Some("foot".to_string());
    w.geometry = Some(Rect { loc: Point { x: 5, y: 6 }, size: Size { w: 100, h: 50 } });
    w.foreign_toplevel_identifier = Some("abc".to_string());
    p.windows.push(w);
    let h = WindowHandle::from_id(3);
    assert_eq!(h.title(&p), "term");
    assert_eq!(h.app_id(&p), "foot");
    assert_eq!(h.loc(&p), Some(Point { x: 5, y: 6 }));
    assert_eq!(h.size(&p), Some(Size { w: 100, h: 50 }));
    assert_eq!(h.tags(&p), vec![1]);
    assert_eq!(h.output(&p), Some("DP-1".to_string()));
    assert_eq!(h.foreign_toplevel_list_identifier(&p), Some("abc".to_string()));
}

#[test]
fn focus_is_held_by_one_window() {
    let mut p = base_state();
    p.windows.push(window(1, &[]));
    p.windows.push(window(2, &[]));
    p.keyboard_focus_stack = vec![1, 2];
    assert!(WindowHandle::from_id(2).focused(&p));
    assert!(!WindowHandle::from_id(1).focused(&p));
    assert_eq!(window::get_focused(&p), Some(WindowHandle::from_id(2)));
    p.keyboard_focus_stack = vec![];
    assert_eq!(window::get_focused(&p), None);
}

#[test]
fn swap_exchanges_places() {
    let mut p = base_state();
    p.windows.push(window(1, &[]));
    p.windows.push(window(2, &[]));
    p.windows.push(window(3, &[]));
    WindowHandle::from_id(1).swap(&mut p, &WindowHandle::from_id(3));
    let ids: Vec<u32> = window::get_all(&p).iter().map(|h| h.id()).collect();
    assert_eq!(ids, vec![3, 2, 1]);
    WindowHandle::from_id(1).swap(&mut p, &WindowHandle::from_id(9));
    let ids: Vec<u32> = window::get_all(&p).iter().map(|h| h.id()).collect();
    assert_eq!(ids, vec![3, 2, 1]);
}

#[test]
fn fixed_size_window_floats() {
    let s = Size { w: 640, h: 480 };
    assert_eq!(window::initial_layout_mode(Some(s), Some(s)), LayoutMode::Floating);
    assert_eq!(window::initial_layout_mode(Some(s), None), LayoutMode::Tiled);
    assert_eq!(window::initial_layout_mode(Some(s), Some(Size { w: 800, h: 480 })), LayoutMode::Tiled);
}

#[test]
fn session_lock_blanks_first() {
    let mut p = base_state();
    p.outputs.push(output("DP-2"));
    assert!(p.lock(7));
    assert!(p.lock_state.is_locking());
    assert!(!p.lock(8));
    assert_eq!(p.lock_state, LockState::Locking(7));
    assert_eq!(p.poll_lock(), None);
    assert_eq!(p.render_frame(0), FrameKind::Black);
    assert_eq!(p.outputs[0].blanking_state, BlankingState::Blanking);
    p.frame_shown(0);
    assert_eq!(p.outputs[0].blanking_state, BlankingState::Blanked);
    assert_eq!(p.poll_lock(), None);
    p.render_frame(1);
    p.frame_shown(1);
    assert_eq!(p.poll_lock(), Some(7));
    assert!(p.lock_state.is_locked());
    assert_eq!(p.render_frame(0), FrameKind::Black);
    assert_eq!(p.new_lock_surface(0), Some(Size { w: 1920, h: 1080 }));
    assert_eq!(p.lock_surface_focus, Some("DP-1".to_string()));
    assert_eq!(p.new_lock_surface(0), None);
    assert_eq!(p.render_frame(0), FrameKind::LockSurface);
    p.unlock();
    assert!(p.lock_state.is_unlocked());
    assert_eq!(p.outputs[0].blanking_state, BlankingState::NotBlanked);
    assert_eq!(p.render_frame(0), FrameKind::Scene);
    assert_eq!(p.new_lock_surface(0), None);
}

#[test]
fn disconnect_then_reconnect_restores_state() {
    let mut p = base_state();
    tag::add(&mut p, vec!["a".to_string(), "b".to_string()], &"DP-1".to_string());
    p.outputs[0].loc = Point { x: 1920, y: 0 };
    p.outputs[0].scale = 180;
    p.windows.push(window(4, &[1, 2]));
    assert!(p.output_disconnected(&"DP-1".to_string()));
    assert!(p.outputs.is_empty());
    assert!(p.windows[0].tags.is_empty());
    assert_eq!(p.connector_saved_states.len(), 1);
    assert_eq!(p.connector_saved_states[0].state.tags.iter().copied().collect::<Vec<_>>(), vec![1, 2]);
    assert!(p.output_connected(output("DP-1")));
    assert_eq!(p.outputs[0].loc, Point { x: 1920, y: 0 });
    assert_eq!(p.outputs[0].scale, 180);
    assert_eq!(output_tags(&p, 0), vec![1, 2]);
    assert!(p.connector_saved_states.is_empty());
    assert!(!p.output_connected(output("DP-1")));
    assert!(!p.output_disconnected(&"nope".to_string()));
}

#[test]
fn mode_pick_prefers_fastest() {
    let size = Size { w: 1920, h: 1080 };
    let modes = vec![
        Mode { size, refresh: 60_000 },
        Mode { size, refresh: 144_000 },
        Mode { size: Size { w: 1280, h: 720 }, refresh: 240_000 },
    ];
    assert_eq!(pinnacle::output::pick_mode(&modes, size, None).refresh, 144_000);
    assert_eq!(pinnacle::output::pick_mode(&modes, size, Some(75_000)).refresh, 75_000);
    assert_eq!(pinnacle::output::pick_mode(&modes, Size { w: 800, h: 600 }, None).refresh, 60_000);
}

#[test]
fn apply_configuration_enables_and_disables() {
    let mut p = base_state();
    p.outputs[0].modes = vec![Mode { size: Size { w: 2560, h: 1440 }, refresh: 165_000 }];
    let r = p.apply_output_configuration(0, OutputConfiguration::Enabled {
        mode: Some(ModeRequest { size: Size { w: 2560, h: 1440 }, refresh: None }),
        position: Some(Point { x: 10, y: 20 }),
        scale: Some(240),
        adaptive_sync: Some(true),
    });
    assert!(r.powered);
    assert_eq!(r.vrr, Some(true));
    assert_eq!(p.outputs[0].current_mode, Some(Mode { size: Size { w: 2560, h: 1440 }, refresh: 165_000 }));
    assert_eq!(p.outputs[0].loc, Point { x: 10, y: 20 });
    assert_eq!(p.outputs[0].scale, 240);
    assert!(p.outputs[0].vrr && !p.outputs[0].vrr_on_demand);
    let r = p.apply_output_configuration(0, OutputConfiguration::Disabled);
    assert!(!r.powered);
    assert!(!p.outputs[0].enabled && !p.outputs[0].powered);
}

#[test]
fn render_scheduler_waits_for_clock() {
    let mut p = base_state();
    p.outputs[0].render_scheduled = true;
    let mut clock = FrameClock::new(Some(10_000_000));
    clock.presented(100_000_000);
    let mut udev = Udev { seat_name: "seat0".to_string(), clocks: vec![OutputClock { output: "DP-1".to_string(), clock }] };
    let backend = Backend::Udev(Udev { seat_name: "seat0".to_string(), clocks: Vec::new() });
    assert_eq!(backend.render_scheduled_outputs(&p, 105_000_000), vec![0]);
    assert!(backend.is_udev() && !backend.is_winit());
    assert_eq!(backend.seat_name(), "seat0");
    udev.rendered(&mut p, 0, RenderResult::Skipped, 0);
    assert!(p.outputs[0].render_scheduled);
    udev.rendered(&mut p, 0, RenderResult::Submitted, 110_000_000);
    assert!(!p.outputs[0].render_scheduled);
    let b = Backend::Udev(udev);
    p.outputs[0].render_scheduled = true;
    assert!(b.render_scheduled_outputs(&p, 115_000_000).is_empty());
    assert_eq!(b.render_scheduled_outputs(&p, 120_000_000), vec![0]);
    let w = Backend::Winit(Winit { seat_name: "winit".to_string() });
    assert!(w.render_scheduled_outputs(&p, 120_000_000).is_empty());
}

#[test]
fn layout_spills_windows_without_slot() {
    let mut p = base_state();
    tag::add(&mut p, vec!["a".to_string()], &"DP-1".to_string());
    tag::set_active(&mut p, 1, Some(true));
    p.windows.push(window(1, &[1]));
    p.windows.push(window(2, &[1]));
    p.windows.push(window(3, &[1]));
    p.windows[2].layout_mode = LayoutMode::Floating;
    let ids = pinnacle::layout::windows_to_layout(&p, 0);
    assert_eq!(ids, vec![1, 2]);
    let rects = vec![Rect { loc: Point { x: 0, y: 0 }, size: Size { w: 960, h: 1080 } }];
    let pairs = pinnacle::layout::assign_layout(&mut p, &ids, &rects);
    assert_eq!(pairs, vec![(1, rects[0])]);
    assert!(WindowHandle::from_id(2).spilled(&p));
    let ids = pinnacle::layout::windows_to_layout(&p, 0);
    assert_eq!(ids, vec![1, 2]);
    let two = vec![rects[0], Rect { loc: Point { x: 960, y: 0 }, size: Size { w: 960, h: 1080 } }];
    let pairs = pinnacle::layout::assign_layout(&mut p, &ids, &two);
    assert_eq!(pairs.len(), 2);
    assert!(WindowHandle::from_id(2).tiled(&p));
    p.windows[0].geometry = Some(two[0]);
    let stale = pinnacle::layout::needs_configure(&p, &pairs);
    assert_eq!(stale, vec![(2, two[1])]);
}

#[test]
fn inactive_tags_are_not_laid_out() {
    let mut p = base_state();
    tag::add(&mut p, vec!["a".to_string()], &"DP-1".to_string());
    p.windows.push(window(1, &[1]));
    assert!(pinnacle::layout::windows_to_layout(&p, 0).is_empty());
}

#[test]
fn set_tag_and_move_to_tag() {
    let mut p = base_state();
    tag::add(&mut p, vec!["a".to_string(), "b".to_string(), "c".to_string()], &"DP-1".to_string());
    p.windows.push(window(1, &[1]));
    let h = WindowHandle::from_id(1);
    h.set_tag(&mut p, 3, Some(true));
    assert_eq!(h.tags(&p), vec![1, 3]);
    h.set_tag(&mut p, 1, None);
    assert_eq!(h.tags(&p), vec![3]);
    h.set_tag(&mut p, 3, Some(false));
    assert!(h.tags(&p).is_empty());
    h.move_to_tag(&mut p, 2);
    assert_eq!(h.tags(&p), vec![2]);
    h.set_tag(&mut p, 77, Some(true));
    h.move_to_tag(&mut p, 77);
    assert_eq!(h.tags(&p), vec![2]);
}

#[test]
fn scale_output_preference() {
    assert_eq!(preferred_scale_output(Some(2), false, Some(1), Some(0), Some(0)), Some(2));
    assert_eq!(preferred_scale_output(None, false, Some(1), Some(0), Some(0)), Some(1));
    assert_eq!(preferred_scale_output(None, true, Some(1), Some(3), Some(0)), Some(3));
    assert_eq!(preferred_scale_output(None, true, None, None, Some(0)), Some(0));
    assert_eq!(preferred_scale_output(None, true, None, None, None), None);
}

#[test]
fn vrr_demand_constructors() {
    assert!(!window::VrrDemand::when_visible().fullscreen);
    assert!(window::VrrDemand::when_fullscreen().fullscreen);
}

#[test]
fn popup_area_is_relative_to_parent() {
    let out = Rect { loc: Point { x: 1920, y: 0 }, size: Size { w: 2560, h: 1440 } };
    let b = pinnacle::commit::popup_bounds(true, Point { x: 2000, y: 100 }, Point { x: 0, y: 0 }, out);
    assert!(b.slide_not_flip_x);
    assert_eq!(b.area, Rect { loc: Point { x: -80, y: -100 }, size: out.size });
    let b = pinnacle::commit::popup_bounds(false, Point { x: 2000, y: 100 }, Point { x: 30, y: 40 }, out);
    assert!(!b.slide_not_flip_x);
    assert_eq!(b.area.loc, Point { x: -110, y: -140 });
}

#[test]
fn batch_configuration_applies_in_order() {
    let mut p = base_state();
    p.outputs.push(output("DP-2"));
    let r = p.apply_configuration(&vec![
        (0, OutputConfiguration::Disabled),
        (1, OutputConfiguration::Enabled { mode: None, position: Some(Point { x: 5, y: 5 }), scale: None, adaptive_sync: None }),
    ]);
    assert_eq!(r.len(), 2);
    assert!(!r[0].powered && r[1].powered);
    assert!(!p.outputs[0].enabled);
    assert_eq!(p.outputs[1].loc, Point { x: 5, y: 5 });
}

#[test]
fn frame_callbacks_go_to_visible_windows() {
    let mut p = base_state();
    tag::add(&mut p, vec!["A".to_string(), "B".to_string()], &"DP-1".to_string());
    p.windows.push(window(1, &[1]));
    p.windows.push(window(2, &[2]));
    tag::switch_to(&mut p, 2);
    assert_eq!(pinnacle::layout::frame_callback_targets(&p, 0), vec![2]);
    tag::switch_to(&mut p, 1);
    assert_eq!(pinnacle::layout::frame_callback_targets(&p, 0), vec![1]);
    assert!(!window::VrrDemand::default().fullscreen);
}

#[test]
fn seeding_follows_target_or_focus() {
    let mut p = base_state();
    p.outputs.push(output("DP-2"));
    assert!(p.new_toplevel(1, None));
    assert!(p.new_toplevel(2, Some("DP-2".to_string())));
    let ids = tag::add(&mut p, vec!["x".to_string()], &"DP-2".to_string());
    assert_eq!(p.unmapped_windows[0].state, window::UnmappedState::WaitingForTags);
    assert_eq!(p.unmapped_windows[1].state, window::UnmappedState::WaitingForRules);
    assert_eq!(p.unmapped_windows[1].window.tags.iter().copied().collect::<Vec<_>>(), ids);
    tag::add(&mut p, vec!["y".to_string()], &"DP-1".to_string());
    assert_eq!(p.unmapped_windows[0].state, window::UnmappedState::WaitingForRules);
}

#[test]
fn retired_tags_are_defunct() {
    let mut p = base_state();
    tag::add(&mut p, vec!["a".to_string(), "b".to_string()], &"DP-1".to_string());
    p.retire_tags();
    assert!(p.tags.iter().all(|t| t.defunct));
    assert_eq!(output_tags(&p, 0), vec![1, 2]);
}
