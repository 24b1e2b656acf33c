use indexmap::IndexSet;
use pinnacle::activation::{token_context, ActivationContext, ActivationOutcome};
use pinnacle::commit::{Commit, CommitTarget};
use pinnacle::config::{
    classify_log_line, CliOptions, Config, ConfigAction, ConfigEvent, ConfigSupervisor, LogLevel, SocketDir,
    StartupConfig, SupervisorState,
};
use pinnacle::foreign_toplevel::{
    refresh_order, HandleRequest, to_state_vec, ForeignToplevelManagerState, HandleEvent, Manager, PendingToplevelData,
    ToplevelState,
};
use pinnacle::frame::FrameClock;
use pinnacle::geometry::{Point, Rect, Size};
use pinnacle::output::{BlankingState, Output};
use pinnacle::output_power::{OutputPowerManagementState, PowerEvent, PowerMode, SetModeOutcome};
use pinnacle::session_lock::LockState;
use pinnacle::signal::{connect_signal, SignalState, WindowSignal, WindowSignalKind};
use pinnacle::state::Pinnacle;
use pinnacle::tag;
use pinnacle::transaction::TransactionRegistry;
use pinnacle::window::{UnmappedState, WindowHandle};

const INTERVAL: u64 = 16_666_667;

fn screen(name: &str) -> Output {
    Output {
        name: name.to_string(),
        tags: IndexSet::new(),
        loc: Point { x: 0, y: 0 },
        logical_size: Size { w: 1920, h: 1080 },
        scale: 120,
        current_mode: None,
        modes: Vec::new(),
        enabled: true,
        powered: true,
        vrr: false,
        vrr_on_demand: false,
        blanking_state: BlankingState::NotBlanked,
        has_lock_surface: false,
        render_scheduled: false,
    }
}

fn state_with_output() -> Pinnacle {
    Pinnacle {
        outputs: vec![screen("DP-1")],
        tags: Vec::new(),
        windows: Vec::new(),
        unmapped_windows: Vec::new(),
        keyboard_focus_stack: Vec::new(),
        focused_output: Some("DP-1".to_string()),
        connector_saved_states: Vec::new(),
        next_tag_id: 1,
        lock_state: LockState::Unlocked,
        lock_surface_focus: None,
    }
}

fn rect(x: i32, y: i32, w: i32, h: i32) -> Rect {
    Rect { loc: Point { x, y }, size: Size { w, h } }
}

#[test]
fn frame_clock_vrr() {
    let t0: u64 = 1_000_000_000;
    let mut clock = FrameClock::new(Some(INTERVAL));
    clock.presented(t0);
    assert_eq!(clock.time_to_next_presentation(t0 + 50_000_000), 1);
    clock.set_vrr(true);
    assert!(clock.vrr());
    clock.presented(t0);
    assert_eq!(clock.time_to_next_presentation(t0 + 50_000_000), 0);
}

#[test]
fn frame_clock_within_one_interval() {
    let mut clock = FrameClock::new(Some(INTERVAL));
    assert_eq!(clock.refresh_interval(), Some(INTERVAL));
    assert_eq!(clock.time_to_next_presentation(5), 0);
    clock.presented(1_000);
    assert_eq!(clock.time_to_next_presentation(1_000 + 6_666_667), 10_000_000);
    assert_eq!(clock.time_to_next_presentation(1_000 + INTERVAL), 0);
    assert_eq!(clock.time_since_last_presentation(3_000), Some(2_000));
    assert_eq!(clock.time_since_last_presentation(500), None);
}

#[test]
fn frame_clock_early_vblank() {
    let mut clock = FrameClock::new(Some(1_000));
    clock.presented(10_000);
    assert_eq!(clock.time_to_next_presentation(9_800), 200);
    assert_eq!(clock.time_to_next_presentation(10_000), 0);
    assert_eq!(clock.time_to_next_presentation(5_000), 0);
    clock.presented(0);
    assert_eq!(clock.time_since_last_presentation(10_500), Some(500));
}

#[test]
fn frame_clock_without_interval_presents_now() {
    let mut clock = FrameClock::new(None);
    clock.presented(77);
    assert_eq!(clock.time_to_next_presentation(1_000_000), 0);
    clock.set_vrr(true);
    assert_eq!(clock.time_since_last_presentation(100), None);
}

#[test]
fn transactions_supersede_and_apply() {
    let mut reg = TransactionRegistry::new(100);
    let s1 = reg.begin(0, vec![(1, rect(0, 0, 50, 50)), (2, rect(50, 0, 50, 50))], 1_000);
    assert_eq!(s1, vec![100, 101]);
    let s2 = reg.begin(0, vec![(1, rect(0, 0, 30, 50))], 2_000);
    assert_eq!(s2, vec![102]);
    assert_eq!(reg.pending[0].configures.len(), 1);
    assert_eq!(reg.pending[0].configures[0].window, 2);
    assert!(reg.take_ready(10).is_none());
    reg.ack(2, 101);
    let t = reg.take_ready(10).unwrap();
    assert_eq!(t.configures[0].serial, 101);
    reg.ack(1, 50);
    assert!(reg.take_ready(10).is_none());
    let t = reg.take_ready(2_000).unwrap();
    assert_eq!(t.configures[0].target, rect(0, 0, 30, 50));
    assert!(reg.pending.is_empty());

    let mut p = state_with_output();
    assert!(p.new_toplevel(1, None));
    p.unmapped_windows[0].window.tags.insert(9);
    let m = p.commit(Commit { sync_subsurface: false, root: true, has_buffer: true, target: CommitTarget::Window(1) });
    assert_eq!(m.mapped, Some(1));
    p.apply_transaction(&t);
    assert_eq!(WindowHandle::from_id(1).size(&p), Some(Size { w: 30, h: 50 }));
}

#[test]
fn spawn_window_maps_once() {
    let mut p = state_with_output();
    let ids = tag::add(&mut p, vec!["1".to_string(), "2".to_string()], &"DP-1".to_string());
    tag::set_active(&mut p, ids[0], Some(true));
    assert!(p.new_toplevel(7, None));
    assert!(!p.new_toplevel(7, None));
    let r = p.commit(Commit { sync_subsurface: false, root: true, has_buffer: false, target: CommitTarget::Window(7) });
    assert_eq!(r.rules_requested, Some(7));
    assert_eq!(r.mapped, None);
    assert!(p.windows.is_empty());
    assert_eq!(p.unmapped_windows[0].state, UnmappedState::WaitingForRules);
    assert_eq!(p.unmapped_windows[0].bounds, Some(Size { w: 1920, h: 1080 }));
    assert!(p.window_rules_done(7));
    assert_eq!(p.unmapped_windows[0].state, UnmappedState::PostInitialConfigure);
    let r = p.commit(Commit { sync_subsurface: false, root: true, has_buffer: true, target: CommitTarget::Window(7) });
    assert_eq!(r.mapped, Some(7));
    assert_eq!(r.layout, vec![0]);
    assert!(p.unmapped_windows.is_empty());
    let h = WindowHandle::from_id(7);
    assert_eq!(h.tags(&p), vec![ids[0]]);

    let mut reg = TransactionRegistry::new(1);
    let serials = reg.begin(0, vec![(7, rect(0, 0, 1920, 1080))], 50);
    reg.ack(7, serials[0]);
    let t = reg.take_ready(0).unwrap();
    p.apply_transaction(&t);
    assert_eq!(h.loc(&p), Some(Point { x: 0, y: 0 }));
    assert_eq!(h.size(&p), Some(Size { w: 1920, h: 1080 }));

    p.windows[0].title = Some("new title".to_string());
    let r = p.commit(Commit { sync_subsurface: false, root: true, has_buffer: true, target: CommitTarget::Window(7) });
    assert!(r.layout.is_empty());
    assert_eq!(r.render, vec![0]);
    assert_eq!(h.size(&p), Some(Size { w: 1920, h: 1080 }));
}

#[test]
fn buffer_loss_unmaps() {
    let mut p = state_with_output();
    tag::add(&mut p, vec!["1".to_string()], &"DP-1".to_string());
    p.new_toplevel(3, None);
    p.commit(Commit { sync_subsurface: false, root: true, has_buffer: false, target: CommitTarget::Window(3) });
    p.commit(Commit { sync_subsurface: false, root: true, has_buffer: true, target: CommitTarget::Window(3) });
    assert_eq!(p.windows.len(), 1);
    let r = p.commit(Commit { sync_subsurface: false, root: true, has_buffer: false, target: CommitTarget::Window(3) });
    assert_eq!(r.unmapped, Some(3));
    assert_eq!(r.layout, vec![0]);
    assert!(p.windows.is_empty());
    assert_eq!(p.unmapped_windows.len(), 1);
    let r = p.commit(Commit { sync_subsurface: true, root: false, has_buffer: false, target: CommitTarget::Cursor });
    assert!(r.render.is_empty());
    let r = p.commit(Commit { sync_subsurface: false, root: true, has_buffer: true, target: CommitTarget::Cursor });
    assert_eq!(r.render, vec![0]);
    let r = p.commit(Commit {
        sync_subsurface: false,
        root: true,
        has_buffer: true,
        target: CommitTarget::Layer { output: 0, initial_configure_sent: false, arrangement_changed: false },
    });
    assert!(r.send_initial_configure);
    let r = p.commit(Commit {
        sync_subsurface: false,
        root: false,
        has_buffer: true,
        target: CommitTarget::Popup { root_window: Some(99), layer_output: Some(0), initial_configure_sent: true },
    });
    assert_eq!(r.render, vec![0]);
    assert!(!r.reposition_popups);
}

#[test]
fn window_without_tags_stays_unmapped() {
    let mut p = state_with_output();
    p.new_toplevel(4, None);
    let r = p.commit(Commit { sync_subsurface: false, root: true, has_buffer: false, target: CommitTarget::Window(4) });
    assert_eq!(r.rules_requested, None);
    let r = p.commit(Commit { sync_subsurface: false, root: true, has_buffer: true, target: CommitTarget::Window(4) });
    assert_eq!(r.mapped, None);
    assert_eq!(p.unmapped_windows.len(), 1);
    let ids = tag::add(&mut p, vec!["late".to_string()], &"DP-1".to_string());
    assert_eq!(p.unmapped_windows[0].state, UnmappedState::WaitingForRules);
    assert_eq!(p.unmapped_windows[0].window.tags.iter().copied().collect::<Vec<_>>(), ids);
}

#[test]
fn configurator_crash_falls_back_to_builtin() {
    let mut sup = ConfigSupervisor::new();
    let doc = StartupConfig {
        run: vec!["lua".to_string(), "init.lua".to_string()],
        envs: Some(vec![("MARCO".to_string(), Some("polo".to_string())), ("N".to_string(), None)]),
        socket_dir: None,
        no_config: None,
        no_xwayland: None,
    };
    match sup.step(ConfigEvent::Start(Some(doc)), false) {
        ConfigAction::Spawn(req) => {
            assert_eq!(req.program, "lua");
            assert_eq!(req.args, vec!["init.lua".to_string()]);
            assert_eq!(req.envs, vec![("MARCO".to_string(), "polo".to_string())]);
        }
        _ => panic!("expected a spawn"),
    }
    assert_eq!(sup.state, SupervisorState::RunningChild);
    assert!(matches!(sup.step(ConfigEvent::ChildExited, false), ConfigAction::StartBuiltin));
    assert_eq!(sup.state, SupervisorState::RunningBuiltin);
    assert!(matches!(sup.step(ConfigEvent::BuiltinExited, false), ConfigAction::Fatal));
}

#[test]
fn configurator_start_cases() {
    let mut sup = ConfigSupervisor::new();
    assert!(matches!(sup.step(ConfigEvent::Start(None), false), ConfigAction::StartBuiltin));
    let mut sup = ConfigSupervisor::new();
    assert!(matches!(sup.step(ConfigEvent::Start(Some(StartupConfig::empty())), false), ConfigAction::StartBuiltin));
    let mut sup = ConfigSupervisor::new();
    assert!(matches!(sup.step(ConfigEvent::Start(None), true), ConfigAction::Skip));
    assert_eq!(sup.state, SupervisorState::Skipped);
    assert!(matches!(sup.step(ConfigEvent::ChildExited, false), ConfigAction::Nothing));
    let mut sup = ConfigSupervisor::new();
    let mut doc = StartupConfig::empty();
    doc.run = vec!["x".to_string()];
    doc.no_config = Some(true);
    assert!(matches!(sup.step(ConfigEvent::Start(Some(doc)), false), ConfigAction::Skip));
    let mut sup = ConfigSupervisor::new();
    let mut doc = StartupConfig::empty();
    doc.run = vec!["missing-binary".to_string()];
    assert!(matches!(sup.step(ConfigEvent::Start(Some(doc)), false), ConfigAction::Spawn(_)));
    assert!(matches!(sup.step(ConfigEvent::SpawnFailed, false), ConfigAction::StartBuiltin));
}

#[test]
fn startup_config_merges_with_cli() {
    let doc = StartupConfig {
        run: vec!["lua".to_string()],
        envs: None,
        socket_dir: Some("/path/to/socket/dir".to_string()),
        no_config: Some(true),
        no_xwayland: None,
    };
    let r = doc.merge_and_resolve(None, Some("/run/user/1000".to_string()));
    assert!(r.no_config);
    assert!(!r.no_xwayland);
    assert!(r.envs.is_empty());
    assert!(matches!(r.socket_dir, SocketDir::Configured(ref d) if d == "/path/to/socket/dir"));
    let cli = CliOptions { socket_dir: Some("/cli".to_string()), no_config: false, no_xwayland: true };
    let r = doc.merge_and_resolve(Some(&cli), None);
    assert!(r.no_xwayland);
    assert!(matches!(r.socket_dir, SocketDir::Configured(ref d) if d == "/cli"));
    let bare = StartupConfig::empty();
    assert!(matches!(bare.merge_and_resolve(None, Some("/run/user/1000".to_string())).socket_dir, SocketDir::Runtime(ref d) if d == "/run/user/1000"));
    assert!(matches!(bare.merge_and_resolve(None, None).socket_dir, SocketDir::Fallback));
    assert!(!bare.merge_and_resolve(None, None).no_config);
}

#[test]
fn log_lines_are_classified_by_first_token() {
    assert_eq!(classify_log_line("WARN something odd"), LogLevel::Warn);
    assert_eq!(classify_log_line("  ERROR boom"), LogLevel::Error);
    assert_eq!(classify_log_line("FATAL"), LogLevel::Error);
    assert_eq!(classify_log_line("\tDEBUG x"), LogLevel::Debug);
    assert_eq!(classify_log_line("WARNING x"), LogLevel::Info);
    assert_eq!(classify_log_line(""), LogLevel::Info);
    assert_eq!(classify_log_line("hello WARN"), LogLevel::Info);
}

#[test]
fn config_clear_resets_debug_and_envs() {
    let mut c = Config::new();
    c.debug.visualize_damage = true;
    c.process_envs.push(("A".to_string(), "b".to_string()));
    c.clear();
    assert!(!c.debug.visualize_damage);
    assert!(c.process_envs.is_empty());
}

#[test]
fn toplevel_states_in_protocol_order() {
    assert_eq!(
        to_state_vec(true, true, true, true),
        vec![ToplevelState::Maximized, ToplevelState::Fullscreen, ToplevelState::Minimized, ToplevelState::Activated]
    );
    assert_eq!(to_state_vec(false, false, false, false), vec![]);
    assert_eq!(to_state_vec(false, true, false, true), vec![ToplevelState::Minimized, ToplevelState::Activated]);
}

fn pending(title: &str, focused: bool, output: Option<&str>) -> PendingToplevelData {
    PendingToplevelData {
        title: Some(title.to_string()),
        app_id: Some("app".to_string()),
        maximized: false,
        minimized: false,
        fullscreen: false,
        focused,
        output: output.map(|s| s.to_string()),
    }
}

#[test]
fn foreign_toplevel_diffs_and_emits() {
    let mut m = ForeignToplevelManagerState::new();
    let mut out = Vec::new();
    m.bind_manager(Manager { id: 1, client: 5 }, &mut out);
    m.on_output_bound(5, "DP-1".to_string(), 40, &mut out);
    out.clear();
    m.refresh_toplevel(9, &pending("a", false, Some("DP-1")), &mut out);
    assert_eq!(m.toplevels.len(), 1);
    let handle = m.toplevels[0].instances[0].handle;
    assert!(matches!(out[0], HandleEvent::Created(1, h) if h == handle));
    assert!(out.iter().any(|e| matches!(e, HandleEvent::OutputEnter(_, 40))));
    assert!(matches!(out.last(), Some(HandleEvent::Done(_))));
    out.clear();
    m.refresh_toplevel(9, &pending("a", false, Some("DP-1")), &mut out);
    assert!(out.is_empty());
    m.refresh_toplevel(9, &pending("b", true, Some("DP-1")), &mut out);
    assert_eq!(out.len(), 3);
    assert!(matches!(&out[0], HandleEvent::Title(_, t) if t == "b"));
    assert!(matches!(&out[1], HandleEvent::State(_, s) if *s == vec![ToplevelState::Activated]));
    out.clear();
    m.refresh_toplevel(9, &pending("b", true, None), &mut out);
    assert!(matches!(out[0], HandleEvent::OutputLeave(_, 40)));
    out.clear();
    m.purge(&vec![], &mut out);
    assert!(m.toplevels.is_empty());
    assert!(matches!(out[0], HandleEvent::Closed(h) if h == handle));
}

#[test]
fn refresh_puts_focused_window_last() {
    let mut p = state_with_output();
    for id in [1, 2, 3] {
        p.new_toplevel(id, None);
    }
    tag::add(&mut p, vec!["1".to_string()], &"DP-1".to_string());
    for id in [1, 2, 3] {
        p.commit(Commit { sync_subsurface: false, root: true, has_buffer: true, target: CommitTarget::Window(id) });
    }
    p.keyboard_focus_stack = vec![2];
    assert_eq!(refresh_order(&p), vec![1, 3, 2]);
    let mut m = ForeignToplevelManagerState::new();
    pinnacle::foreign_toplevel::refresh(&mut m, &p);
    assert_eq!(m.toplevels.iter().map(|t| t.surface).collect::<Vec<_>>(), vec![1, 3, 2]);
    assert_eq!(m.toplevels[2].states, vec![ToplevelState::Activated]);
}

#[test]
fn second_power_controller_fails() {
    let mut s = OutputPowerManagementState::new();
    assert_eq!(s.get_output_power(1, Some("DP-1".to_string()), true), PowerEvent::Mode(1, PowerMode::On));
    assert_eq!(s.get_output_power(2, Some("DP-1".to_string()), true), PowerEvent::Failed(2));
    assert_eq!(s.get_output_power(3, None, true), PowerEvent::Failed(3));
    assert!(matches!(s.set_mode(1, 0), SetModeOutcome::Apply(ref n, false) if n == "DP-1"));
    assert!(matches!(s.set_mode(1, 7), SetModeOutcome::Event(PowerEvent::InvalidMode(1))));
    assert!(matches!(s.set_mode(2, 1), SetModeOutcome::Event(PowerEvent::Failed(2))));
    assert_eq!(s.mode_set(&"DP-1".to_string(), false), vec![PowerEvent::Mode(1, PowerMode::Off)]);
    s.destroyed(1);
    assert!(s.mode_set(&"DP-1".to_string(), true).is_empty());
    assert_eq!(s.get_output_power(4, Some("DP-1".to_string()), false), PowerEvent::Mode(4, PowerMode::Off));
    assert_eq!(s.get_output_power(6, Some("DP-2".to_string()), true), PowerEvent::Mode(6, PowerMode::On));
    s.output_removed(&"DP-1".to_string());
    assert_eq!(s.clients.len(), 1);
    assert_eq!(s.clients[0].controller, 6);
}

#[test]
fn signals_keep_registration_order() {
    let mut s = SignalState::new();
    connect_signal(&mut s, WindowSignal::Focused(3));
    let h = connect_signal(&mut s, WindowSignal::Focused(1));
    connect_signal(&mut s, WindowSignal::TitleChanged(2));
    assert_eq!(h.kind, WindowSignalKind::Focused);
    assert_eq!(*s.subscribers(WindowSignalKind::Focused), vec![3, 1]);
    assert_eq!(*s.subscribers(WindowSignalKind::TitleChanged), vec![2]);
    s.clear();
    assert!(s.subscribers(WindowSignalKind::Focused).is_empty());
}

#[test]
fn activation_tokens() {
    assert_eq!(token_context(false, true, true), Some(ActivationContext::UrgentOnly));
    assert_eq!(token_context(true, false, true), Some(ActivationContext::UrgentOnly));
    assert_eq!(token_context(true, true, true), Some(ActivationContext::FocusIfPossible));
    assert_eq!(token_context(true, true, false), None);
    let mut p = state_with_output();
    let ids = tag::add(&mut p, vec!["1".to_string()], &"DP-1".to_string());
    tag::set_active(&mut p, ids[0], Some(true));
    for id in [1, 2] {
        p.new_toplevel(id, None);
        p.commit(Commit { sync_subsurface: false, root: true, has_buffer: false, target: CommitTarget::Window(id) });
        p.commit(Commit { sync_subsurface: false, root: true, has_buffer: true, target: CommitTarget::Window(id) });
    }
    let r = p.request_activation(20_000, Some(ActivationContext::FocusIfPossible), 1, "t".to_string());
    assert_eq!(r, ActivationOutcome::TimedOut);
    let r = p.request_activation(5, None, 1, "t".to_string());
    assert_eq!(r, ActivationOutcome::NoContext);
    let r = p.request_activation(5, Some(ActivationContext::FocusIfPossible), 1, "t".to_string());
    assert_eq!(r, ActivationOutcome::Focused(0));
    assert!(WindowHandle::from_id(1).focused(&p));
    assert_eq!(p.windows.last().map(|w| w.id), Some(1));
    p.new_toplevel(5, None);
    let r = p.request_activation(5, Some(ActivationContext::UrgentOnly), 5, "tok".to_string());
    assert_eq!(r, ActivationOutcome::Stored);
    assert_eq!(p.unmapped_windows[0].activation_token, Some("tok".to_string()));
}

#[test]
fn floating_window_sized_exactly() {
    let mut p = state_with_output();
    tag::add(&mut p, vec!["1".to_string()], &"DP-1".to_string());
    p.new_toplevel(11, None);
    let fixed = Size { w: 640, h: 480 };
    p.unmapped_windows[0].window.min_size = Some(fixed);
    p.unmapped_windows[0].window.max_size = Some(fixed);
    p.commit(Commit { sync_subsurface: false, root: true, has_buffer: false, target: CommitTarget::Window(11) });
    let r = p.commit(Commit { sync_subsurface: false, root: true, has_buffer: true, target: CommitTarget::Window(11) });
    assert_eq!(r.mapped, Some(11));
    let h = WindowHandle::from_id(11);
    assert!(h.floating(&p));
    let mut reg = TransactionRegistry::new(1);
    let serials = reg.begin(0, vec![(11, rect(640, 300, fixed.w, fixed.h))], 50);
    reg.ack(11, serials[0]);
    let t = reg.take_ready(0).unwrap();
    p.apply_transaction(&t);
    assert_eq!(h.loc(&p), Some(Point { x: 640, y: 300 }));
    assert_eq!(h.size(&p), Some(fixed));
}

#[test]
fn vrr_follows_window_demand() {
    let mut p = state_with_output();
    p.outputs[0].vrr_on_demand = true;
    let ids = tag::add(&mut p, vec!["1".to_string()], &"DP-1".to_string());
    tag::set_active(&mut p, ids[0], Some(true));
    p.new_toplevel(1, None);
    p.commit(Commit { sync_subsurface: false, root: true, has_buffer: false, target: CommitTarget::Window(1) });
    p.commit(Commit { sync_subsurface: false, root: true, has_buffer: true, target: CommitTarget::Window(1) });
    let mut udev = pinnacle::backend::Udev {
        seat_name: "seat0".to_string(),
        clocks: vec![pinnacle::backend::OutputClock { output: "DP-1".to_string(), clock: FrameClock::new(Some(INTERVAL)) }],
    };
    assert_eq!(udev.update_vrr_on_demand(&p, 0), Some(false));
    p.windows[0].vrr_demand = Some(pinnacle::window::VrrDemand::when_fullscreen());
    assert_eq!(udev.update_vrr_on_demand(&p, 0), Some(false));
    WindowHandle::from_id(1).set_fullscreen(&mut p, true);
    assert_eq!(udev.update_vrr_on_demand(&p, 0), Some(true));
    assert!(udev.clocks[0].clock.vrr());
    p.outputs[0].vrr_on_demand = false;
    assert_eq!(udev.update_vrr_on_demand(&p, 0), None);
}

#[test]
fn handle_requests_route_to_their_surface() {
    let mut m = ForeignToplevelManagerState::new();
    let mut out = Vec::new();
    m.bind_manager(Manager { id: 1, client: 5 }, &mut out);
    m.refresh_toplevel(9, &pending("a", false, None), &mut out);
    let handle = m.toplevels[0].instances[0].handle;
    assert_eq!(m.route_request(handle, HandleRequest::Close), Some((9, HandleRequest::Close)));
    assert_eq!(m.route_request(handle, HandleRequest::SetRectangle), None);
    assert_eq!(m.route_request(handle + 100, HandleRequest::Activate), None);
    m.handle_destroyed(handle);
    assert!(m.toplevels[0].instances.is_empty());
    assert_eq!(m.route_request(handle, HandleRequest::Close), None);
    m.manager_stopped(1);
    assert!(m.managers.is_empty());
}

#[test]
fn debug_switches_toggle() {
    let mut c = Config::new();
    pinnacle::config::set_damage_visualization(&mut c, true);
    assert!(c.debug.visualize_damage);
    pinnacle::config::toggle_damage_visualization(&mut c);
    assert!(!c.debug.visualize_damage);
    pinnacle::config::toggle_opaque_region_visualization(&mut c);
    assert!(c.debug.visualize_opaque_regions);
    pinnacle::config::set_opaque_region_visualization(&mut c, false);
    assert!(!c.debug.visualize_opaque_regions);
    pinnacle::config::set_cursor_plane_scanout(&mut c, false);
    assert!(c.debug.disable_cursor_plane_scanout);
    pinnacle::config::toggle_cursor_plane_scanout(&mut c);
    assert!(!c.debug.disable_cursor_plane_scanout);
    pinnacle::config::set_process_piping(&mut c, false);
    assert!(c.debug.disable_process_piping);
    pinnacle::config::toggle_process_piping(&mut c);
    assert!(!c.debug.disable_process_piping);
}
