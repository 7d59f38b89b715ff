use threet::app::auth_outcome;
use threet::app::App;
use threet::app::Event;
use threet::app::Job;
use threet::app::JobStatus;
use threet::app::Mode;
use threet::app::TickGate;
use threet::layout::Rect;
use threet::notifications::Notification;
use threet::notifications::NotificationKind;
use threet::notifications::NotificationServiceWidget;
use threet::storage::User;
use threet::views::AppView;

fn note(text: &str) -> Notification {
    Notification::info(String::from("title"), String::from(text))
}

fn contents<const N: usize>(w: &NotificationServiceWidget<N>) -> Vec<String> {
    w.toasts().iter().map(|t| t.notification.content.clone()).collect()
}

fn stdin(app: &mut App, bytes: &[u8]) -> threet::app::Effects {
    app.handle_event(Event::Stdin(bytes.to_vec()), 0, false)
}

fn pane_rects(app: &App) -> Vec<Rect> {
    app.panes().into_iter().map(|(_, r)| r).collect()
}

#[test]
fn ring_of_three_keeps_three_most_recent() {
    let mut w = NotificationServiceWidget::<3>::new();
    w.push_notification(note("1"), 100, 0);
    w.push_notification(note("2"), 200, 1);
    w.push_notification(note("3"), 300, 2);
    w.push_notification(note("4"), 400, 3);
    assert_eq!(contents(&w), vec!["4", "3", "2"]);
    assert!(w.should_render());
}

#[test]
fn tick_removes_expired_and_asks_for_render() {
    let mut w = NotificationServiceWidget::<3>::new();
    w.push_notification(note("2"), 200, 1);
    w.push_notification(note("3"), 300, 2);
    w.push_notification(note("4"), 400, 3);
    assert!(!w.tick(200));
    assert_eq!(contents(&w), vec!["4", "3", "2"]);
    assert!(w.tick(201));
    assert_eq!(contents(&w), vec!["4", "3"]);
    assert!(w.tick(302));
    assert_eq!(contents(&w), vec!["4"]);
    assert!(!w.tick(402));
    assert!(w.tick(403));
    assert!(contents(&w).is_empty());
    assert!(!w.should_render());
}

#[test]
fn tick_with_clock_behind_keeps_notification() {
    let mut w = NotificationServiceWidget::<2>::new();
    w.push_notification(note("x"), 10, 1000);
    assert!(!w.tick(5));
    assert_eq!(contents(&w), vec!["x"]);
}

#[test]
fn notification_constructors_set_kind() {
    assert_eq!(Notification::info(String::new(), String::new()).kind, NotificationKind::Info);
    assert_eq!(Notification::warning(String::new(), String::new()).kind, NotificationKind::Warning);
    assert_eq!(Notification::error(String::new(), String::new()).kind, NotificationKind::Error);
}

#[test]
fn new_app_shows_one_login_form() {
    let app = App::new((80, 24));
    assert_eq!(app.mode(), Mode::Normal);
    assert!(app.current_user().is_none());
    let panes = app.panes();
    assert_eq!(panes.len(), 1);
    assert!(matches!(app.pane_view(panes[0].0), Some(AppView::Authenticate(_))));
}

#[test]
fn resize_event_leaves_a_status_line() {
    let mut app = App::new((10, 10));
    let fx = app.handle_event(Event::Resize((80, 24)), 0, false);
    assert!(fx.render);
    assert_eq!(fx.surface, Some((80, 24)));
    assert_eq!(pane_rects(&app), vec![Rect { x: 0, y: 0, width: 80, height: 23 }]);
    let fx = app.handle_event(Event::Resize((5, 0)), 0, false);
    assert_eq!(fx.surface, Some((5, 0)));
    assert_eq!(pane_rects(&app), vec![Rect { x: 0, y: 0, width: 5, height: 0 }]);
}

#[test]
fn global_binding_splits_the_focused_pane() {
    let mut app = App::new((80, 24));
    app.handle_event(Event::Resize((80, 25)), 0, false);
    let fx = stdin(&mut app, b"a");
    assert!(fx.render);
    assert!(app.recorded_keys().is_empty());
    assert_eq!(
        pane_rects(&app),
        vec![Rect { x: 0, y: 0, width: 40, height: 24 }, Rect { x: 40, y: 0, width: 40, height: 24 }]
    );
}

#[test]
fn unbound_keys_stay_recorded_until_escape() {
    let mut app = App::new((80, 24));
    let fx = stdin(&mut app, b"z");
    assert!(!fx.render);
    assert_eq!(app.recorded_keys().len(), 1);
    stdin(&mut app, b"y");
    assert_eq!(app.recorded_keys().len(), 2);
    let fx = stdin(&mut app, b"\x1b");
    assert!(!fx.render);
    assert!(app.recorded_keys().is_empty());
    assert_eq!(app.panes().len(), 1);
}

#[test]
fn undecodable_input_is_dropped() {
    let mut app = App::new((80, 24));
    let fx = stdin(&mut app, &[0xff]);
    assert!(!fx.render && fx.login.is_none() && fx.surface.is_none());
    assert!(app.recorded_keys().is_empty());
}

#[test]
fn login_form_binding_enters_insert_mode_and_submits() {
    let mut app = App::new((80, 24));
    let fx = stdin(&mut app, b"i");
    assert!(fx.render);
    assert_eq!(app.mode(), Mode::Insert);
    for b in b"bob" {
        assert!(stdin(&mut app, &[*b]).render);
    }
    stdin(&mut app, b"\t");
    stdin(&mut app, b"p");
    stdin(&mut app, b"w");
    stdin(&mut app, b"\x7f");
    stdin(&mut app, b"x");
    stdin(&mut app, b"\r");
    let fx = stdin(&mut app, b"\r");
    assert!(fx.render);
    let login = fx.login.expect("a login request");
    assert_eq!(login.username, vec!['b', 'o', 'b']);
    assert_eq!(login.password, vec!['p', 'x']);
    let fx = stdin(&mut app, b"\x1b");
    assert!(!fx.render);
    assert_eq!(app.mode(), Mode::Insert);
}

#[test]
fn keys_are_ignored_while_authenticating() {
    let mut app = App::new((80, 24));
    let fx = app.handle_event(Event::Stdin(b"i".to_vec()), 0, true);
    assert!(!fx.render);
    assert_eq!(app.mode(), Mode::Normal);
    stdin(&mut app, b"i");
    let fx = app.handle_event(Event::Stdin(b"q".to_vec()), 0, true);
    assert!(!fx.render && fx.login.is_none());
}

#[test]
fn found_user_becomes_set_user() {
    let event = auth_outcome(Some(User::new(7, String::from("bob"))));
    assert!(matches!(&event, Event::SetUser(u) if u.id() == 7 && u.username() == "bob"));
    let mut app = App::new((80, 24));
    let fx = app.handle_event(event, 0, false);
    assert!(!fx.render);
    assert_eq!(app.current_user().map(|u| u.id()), Some(7));
    assert!(app.notifications().is_empty());
}

#[test]
fn unknown_user_becomes_error_notification() {
    let event = auth_outcome(None);
    assert!(matches!(&event, Event::Notification((n, 5000)) if n.kind == NotificationKind::Error));
    let mut app = App::new((80, 24));
    let fx = app.handle_event(event, 10, false);
    assert!(fx.render);
    assert!(app.current_user().is_none());
    assert_eq!(app.notifications().len(), 1);
    let fx = app.handle_event(Event::Tick, 5009, false);
    assert!(!fx.render);
    let fx = app.handle_event(Event::Tick, 5010, false);
    assert!(fx.render);
    assert!(app.notifications().is_empty());
}

#[test]
fn render_event_only_draws() {
    let mut app = App::new((80, 24));
    let fx = app.handle_event(Event::Render, 0, false);
    assert!(fx.render && fx.surface.is_none() && fx.login.is_none());
}

#[test]
fn tick_gate_lets_one_tick_in_flight() {
    let mut gate = TickGate::new();
    assert!(gate.try_schedule());
    assert!(!gate.try_schedule());
    gate.consumed();
    assert!(gate.try_schedule());
}

#[test]
fn job_status_follows_start_and_finish() {
    let mut job = Job::new(String::from("lookup"));
    assert_eq!(job.status(false), JobStatus::Ready);
    assert!(job.start());
    assert!(!job.start());
    assert_eq!(job.status(false), JobStatus::Running);
    assert_eq!(job.status(true), JobStatus::Done);
    assert_eq!(job.name(), "lookup");
}

#[test]
fn escape_in_insert_mode_keeps_mode_and_empty_recorder() {
    let mut app = App::new((80, 24));
    stdin(&mut app, b"i");
    assert_eq!(app.mode(), Mode::Insert);
    assert!(app.recorded_keys().is_empty());
    let fx = stdin(&mut app, b"\x1b");
    assert!(!fx.render && fx.login.is_none() && fx.surface.is_none());
    assert_eq!(app.mode(), Mode::Insert);
    assert!(app.recorded_keys().is_empty());
    assert_eq!(app.panes().len(), 1);
}

#[test]
fn full_recorder_ignores_further_keys() {
    let mut app = App::new((80, 24));
    for _ in 0..8 {
        stdin(&mut app, b"z");
    }
    assert_eq!(app.recorded_keys().len(), 8);
    let fx = stdin(&mut app, b"a");
    assert!(!fx.render);
    assert_eq!(app.recorded_keys().len(), 8);
    assert_eq!(app.panes().len(), 1);
}
