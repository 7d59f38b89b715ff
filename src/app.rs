//! The decisions of the application's event loop: one event at a time, it
//! routes keys through the bindings and the focused view, applies commands to
//! the panes, and keeps notifications. The loop that waits for events, draws
//! and talks to the outside runs around it.

use vstd::prelude::*;
use vstd::slice::slice_to_vec;
use crate::combo::record_key;
use crate::combo::Command;
use crate::combo::ComboRecorder;
use crate::combo::ComboRegister;
use crate::combo::MAX_COMBO_DEPTH;
use crate::compositor::same_shape;
use crate::compositor::split_placed;
use crate::compositor::Compositor;
use crate::layout::Layout;
use crate::compositor::Node;
use crate::compositor::NodeData;
use crate::layout::Rect;
use crate::compositor::ViewId;
use crate::key::key_of_bytes;
use crate::key::Key;
use crate::key::KeyCode;
use crate::notifications::kept;
use crate::notifications::pushed;
use crate::notifications::Notification;
use crate::notifications::NotificationServiceWidget;
use crate::notifications::Toast;
use crate::storage::User;
use crate::views::input_effect;
use crate::views::AppView;
use crate::views::AuthenticateView;
use crate::views::ChatView;
use crate::views::InputOutcome;

verus! {

/// How many notifications are on screen at most.
pub const NOTIFICATION_CAPACITY: usize = 3;

/// How long the notification of a failed login stays, in milliseconds.
pub const LOGIN_FAILURE_MS: u64 = 5000;

/// Whether keys go to the bindings (`Normal`) or are typed into the focused
/// view (`Insert`).
#[derive(Debug, Clone, Copy, PartialEq, Eq, Structural)]
pub enum Mode {
    Insert,
    Normal,
}

/// What the event loop consumes, in arrival order.
pub enum Event {
    /// Raw input bytes from the client.
    Stdin(Vec<u8>),
    /// The client's terminal now has this many columns and rows.
    Resize((u16, u16)),
    /// The periodic tick.
    Tick,
    /// Draw again.
    Render,
    /// Show a notification for this many milliseconds.
    Notification((Notification, u64)),
    /// The user who logged in.
    SetUser(User),
}

/// The application state that commands may change.
pub struct AppState {
    pub mode: Mode,
    /// The keys typed in normal mode that wait for a binding.
    pub recorder: ComboRecorder,
    /// The user who logged in, if any.
    pub user: Option<User>,
}

/// A login to check against the user store.
pub struct LoginRequest {
    pub username: Vec<char>,
    pub password: Vec<char>,
}

/// What the loop around the engine must do after an event.
pub struct Effects {
    /// Draw the screen again.
    pub render: bool,
    /// Resize the drawing surface to these columns and rows first.
    pub surface: Option<(u16, u16)>,
    /// Start this login check; its answer comes back as an event.
    pub login: Option<LoginRequest>,
}

/// The bindings active in normal mode whatever the focused view.
pub open spec fn global_binds() -> Map<Seq<Key>, Command> {
    map![seq![Key { keycode: KeyCode::Char('a'), modifiers: crate::key::Modifier(0) }] => Command::SplitVertical]
}

/// The bindings of the login form.
pub open spec fn login_binds() -> Map<Seq<Key>, Command> {
    map![
        seq![Key { keycode: KeyCode::Char('a'), modifiers: crate::key::Modifier(0) }] => Command::SplitVertical,
        seq![Key { keycode: KeyCode::Char('i'), modifiers: crate::key::Modifier(0) }] => Command::InsertMode
    ]
}

/// Whether the node data holds a well-formed login form, when it holds one.
pub open spec fn view_ok(d: NodeData) -> bool {
    match d {
        NodeData::View(AppView::Authenticate(a)) => a.wf(),
        _ => true,
    }
}

/// Whether the node data is a login form.
pub open spec fn is_login(d: NodeData) -> bool {
    match d {
        NodeData::View(AppView::Authenticate(_)) => true,
        _ => false,
    }
}

/// The command that the recorded keys `rec` fire: a global binding first,
/// else one of the focused login form unless a login is in progress.
pub open spec fn binding_for(rec: Seq<Key>, focused: NodeData, authenticating: bool) -> Option<Command> {
    if global_binds().contains_key(rec) {
        Some(global_binds()[rec])
    } else if is_login(focused) && !authenticating && login_binds().contains_key(rec) {
        Some(login_binds()[rec])
    } else {
        None
    }
}

/// Answer of a login check, as the event to feed back: the user on success;
/// an error notification, shown for `LOGIN_FAILURE_MS`, when the store knows
/// no such user and password.
pub fn auth_outcome(found: Option<User>) -> (r: Event)
    ensures
        found matches Some(u) ==> r == Event::SetUser(u),
        found.is_none() ==> (r matches Event::Notification((n, d)) && n.kind
            == crate::notifications::NotificationKind::Error && d == LOGIN_FAILURE_MS),
{
    match found {
        Some(user) => Event::SetUser(user),
        None => {
            let n = Notification::error(
                String::from_str("authentication error"),
                String::from_str("couldn't authenticate with the given credentials"),
            );
            Event::Notification((n, LOGIN_FAILURE_MS))
        },
    }
}

/// Lets one tick at a time be in flight: a new tick is sent only once the
/// previous one was handled.
pub struct TickGate {
    in_flight: bool,
}

impl TickGate {
    pub closed spec fn pending(&self) -> bool {
        self.in_flight
    }

    pub fn new() -> (r: TickGate)
        ensures
            !r.pending(),
    {
        TickGate { in_flight: false }
    }

    /// Whether a tick may be sent now; if so, it counts as in flight.
    pub fn try_schedule(&mut self) -> (r: bool)
        ensures
            r == !old(self).pending(),
            final(self).pending(),
    {
        if self.in_flight {
            false
        } else {
            self.in_flight = true;
            true
        }
    }

    /// The tick in flight was handled.
    pub fn consumed(&mut self)
        ensures
            !final(self).pending(),
    {
        self.in_flight = false;
    }
}

/// The engine of one session: panes, state, bindings and notifications.
pub struct App {
    compositor: Compositor,
    state: AppState,
    global: ComboRegister,
    login_combos: ComboRegister,
    notifications: NotificationServiceWidget<NOTIFICATION_CAPACITY>,
}

impl App {
    pub closed spec fn globals(&self) -> ComboRegister {
        self.global
    }

    pub closed spec fn login_table(&self) -> ComboRegister {
        self.login_combos
    }

    pub closed spec fn toasts(&self) -> Seq<Toast> {
        self.notifications.view()
    }

    pub closed spec fn nodes(&self) -> Map<ViewId, Node> {
        self.compositor.tree().nodes()
    }

    pub closed spec fn mode_of(&self) -> Mode {
        self.state.mode
    }

    pub closed spec fn recorded(&self) -> Seq<Key> {
        self.state.recorder.view()
    }

    pub closed spec fn user(&self) -> Option<User> {
        self.state.user
    }

    pub closed spec fn root(&self) -> ViewId {
        self.compositor.tree().root()
    }

    pub closed spec fn focuse(&self) -> ViewId {
        self.compositor.tree().focuse()
    }

    pub closed spec fn focused_data(&self) -> NodeData {
        self.nodes()[self.compositor.tree().focuse()].data
    }

    pub closed spec fn wf(&self) -> bool {
        &&& self.compositor.wf()
        &&& self.state.recorder.wf()
        &&& self.globals().wf()
        &&& self.login_table().wf()
        &&& self.globals().view() == global_binds()
        &&& self.login_table().view() == login_binds()
        &&& forall|id: ViewId| self.nodes().contains_key(id) ==> view_ok(#[trigger] self.nodes()[id].data)
        &&& self.state.mode == Mode::Insert ==> self.state.recorder.view().len() == 0
    }

    /// An engine for a terminal of `size` columns and rows: one login form
    /// fills the panes, in normal mode, with no user and no notification.
    pub fn new(size: (u16, u16)) -> (r: App)
        ensures
            r.wf(),
            r.mode_of() == Mode::Normal,
            r.recorded().len() == 0,
            r.user().is_none(),
            r.toasts().len() == 0,
            r.nodes().dom().len() == 2,
            is_login(r.focused_data()),
    {
        let mut compositor = Compositor::new(Rect::new(0, 0, size.0, size.1));
        proof {
            let root = compositor.tree().root();
            assert(compositor.tree().nodes().dom() == set![root]);
            vstd::set_lib::lemma_set_empty_equivalency_len(Set::<ViewId>::empty());
            assert(Set::<ViewId>::empty().insert(root).len() == 1);
        }
        let _added = compositor.split_view(AppView::Authenticate(AuthenticateView::new()), Layout::Vertical);
        let mut global = ComboRegister::new();
        let mut a_keys: Vec<Key> = Vec::new();
        a_keys.push(Key::from_code(KeyCode::Char('a')));
        global.add(a_keys, Command::SplitVertical);
        let mut login_combos = ComboRegister::new();
        let mut a_keys: Vec<Key> = Vec::new();
        a_keys.push(Key::from_code(KeyCode::Char('a')));
        login_combos.add(a_keys, Command::SplitVertical);
        let mut i_keys: Vec<Key> = Vec::new();
        i_keys.push(Key::from_code(KeyCode::Char('i')));
        login_combos.add(i_keys, Command::InsertMode);
        let app = App {
            compositor,
            state: AppState { mode: Mode::Normal, recorder: ComboRecorder::new(), user: None },
            global,
            login_combos,
            notifications: NotificationServiceWidget::new(),
        };
        proof {
            let k_a = Key { keycode: KeyCode::Char('a'), modifiers: crate::key::Modifier(0) };
            let k_i = Key { keycode: KeyCode::Char('i'), modifiers: crate::key::Modifier(0) };
            assert(app.globals().view() =~= global_binds());
            assert(app.login_table().view() =~= login_binds());
            let n = app.nodes();
            let f = app.compositor.tree().focuse();
            assert(n.dom() =~= set![app.compositor.tree().root()].insert(f));
            assert forall|id: ViewId| n.contains_key(id) implies view_ok(#[trigger] n[id].data) by {
                if id != f {
                    assert(n[id].is_container());
                }
            }
        }
        app
    }

    /// The mode shown in the status line.
    pub fn mode(&self) -> (r: Mode)
        ensures
            r == self.mode_of(),
    {
        self.state.mode
    }

    /// The notifications on screen, newest first.
    pub fn notifications(&self) -> (r: &std::collections::VecDeque<Toast>)
        ensures
            r@ == self.toasts(),
    {
        self.notifications.toasts()
    }
}

/// The outcome of a key typed into a login form, read back from what the
/// loop is told to do.
pub open spec fn outcome_of(render: bool, submitted: bool) -> InputOutcome {
    if submitted {
        InputOutcome::Submit
    } else if render {
        InputOutcome::Changed
    } else {
        InputOutcome::Ignored
    }
}

/// Nothing to do.
pub open spec fn quiet(fx: Effects) -> bool {
    !fx.render && fx.surface.is_none() && fx.login.is_none()
}

impl App {
    /// The panes and the focus are as in `other`.
    pub open spec fn same_panes(&self, other: App) -> bool {
        &&& self.nodes() == other.nodes()
        &&& self.focuse() == other.focuse()
        &&& self.root() == other.root()
    }

    /// The mode, the recorder and the user are as in `other`.
    pub open spec fn same_state(&self, other: App) -> bool {
        &&& self.mode_of() == other.mode_of()
        &&& self.recorded() == other.recorded()
        &&& self.user() == other.user()
    }

    /// The panes and the state other than the recorder are as in `other`.
    pub open spec fn same_but_recorder(&self, other: App) -> bool {
        &&& self.same_panes(other)
        &&& self.mode_of() == other.mode_of()
        &&& self.user() == other.user()
        &&& self.toasts() == other.toasts()
    }

    /// What command `c` did to the engine `a`, giving `b`: a new login form
    /// split off the focused pane along `Vertical` (unless the slot map was
    /// full), or insert mode.
    pub open spec fn applied(a: App, b: App, c: Command) -> bool {
        &&& b.user() == a.user()
        &&& b.toasts() == a.toasts()
        &&& match c {
            Command::SplitVertical => b.mode_of() == a.mode_of() && if a.nodes().dom().len() < 0xffff_fff0 {
                split_placed(a.nodes(), b.nodes(), a.root(), a.focuse(), b.focuse(), Layout::Vertical)
                    && is_login(b.focused_data())
            } else {
                b.same_panes(a)
            },
            Command::InsertMode => b.mode_of() == Mode::Insert && b.same_panes(a),
        }
    }

    /// What a key in normal mode does to `a`, giving `b` and effects `fx`.
    pub open spec fn normal_key_effect(a: App, b: App, key: Key, authenticating: bool, fx: Effects) -> bool {
        &&& fx.surface.is_none()
        &&& fx.login.is_none()
        &&& ({
                let rec = record_key(a.recorded(), key);
                let kept_key = key.keycode == KeyCode::Esc || a.recorded().len() < MAX_COMBO_DEPTH;
                let fired = if kept_key && rec.len() > 0 {
                    binding_for(rec, a.focused_data(), authenticating)
                } else {
                    None
                };
                match fired {
                    None => !fx.render && b.recorded() == rec && b.same_but_recorder(a),
                    Some(c) => fx.render && b.recorded().len() == 0 && App::applied(a, b, c),
                }
            })
    }

    /// What a key in insert mode does to `a`, giving `b` and effects `fx`.
    pub open spec fn insert_key_effect(a: App, b: App, key: Key, authenticating: bool, fx: Effects) -> bool {
        &&& fx.surface.is_none()
        &&& b.recorded() == a.recorded()
        &&& b.user() == a.user()
        &&& b.toasts() == a.toasts()
        &&& key.keycode == KeyCode::Esc ==> quiet(fx) && b.mode_of() == a.mode_of() && b.same_panes(a)
        &&& key.keycode != KeyCode::Esc ==> b.mode_of() == a.mode_of()
        &&& key.keycode != KeyCode::Esc && !is_login(a.focused_data()) ==> quiet(fx) && b.nodes() == a.nodes()
        &&& key.keycode != KeyCode::Esc && is_login(a.focused_data()) ==> {
            &&& b.focuse() == a.focuse()
            &&& b.nodes() == a.nodes().insert(
                a.focuse(),
                Node {
                    parent: a.nodes()[a.focuse()].parent,
                    data: b.focused_data(),
                    area: a.nodes()[a.focuse()].area,
                },
            )
            &&& match (a.focused_data(), b.focused_data()) {
                (NodeData::View(AppView::Authenticate(x)), NodeData::View(AppView::Authenticate(y))) => if authenticating {
                    y == x && quiet(fx)
                } else {
                    &&& input_effect(x, y, key, outcome_of(fx.render, fx.login.is_some()))
                    &&& fx.login.is_some() ==> fx.render
                    &&& fx.login matches Some(l) ==> l.username@ == x.username.text() && l.password@ == x.password.text()
                },
                _ => false,
            }
        }
    }

    proof fn lemma_views_ok_kept(a: App, b: App)
        requires
            a.wf(),
            b.compositor.wf(),
            forall|id: ViewId|
                b.nodes().contains_key(id) ==> (a.nodes().contains_key(id) && #[trigger] b.nodes()[id].data
                    == a.nodes()[id].data) || b.nodes()[id].is_container() || view_ok(b.nodes()[id].data),
        ensures
            forall|id: ViewId| b.nodes().contains_key(id) ==> view_ok(#[trigger] b.nodes()[id].data),
    {
        assert forall|id: ViewId| b.nodes().contains_key(id) implies view_ok(#[trigger] b.nodes()[id].data) by {
            if a.nodes().contains_key(id) && b.nodes()[id].data == a.nodes()[id].data {
                assert(view_ok(a.nodes()[id].data));
            }
        }
    }

    /// Applies a bound command.
    fn apply_command(&mut self, c: Command)
        requires
            old(self).wf(),
            old(self).recorded().len() == 0,
        ensures
            final(self).wf(),
            App::applied(*old(self), *final(self), c),
            final(self).state.recorder == old(self).state.recorder,
    {
        match c {
            Command::SplitVertical => {
                let ghost a = *self;
                let _added = self.compositor.split_view(AppView::Authenticate(AuthenticateView::new()), Layout::Vertical);
                proof {
                    App::lemma_views_ok_kept(a, *self);
                }
            },
            Command::InsertMode => {
                self.state.mode = Mode::Insert;
            },
        }
    }

    /// A key in normal mode: it goes to the recorder, and the recorded keys
    /// fire a global binding, else one of the focused login form. A fired
    /// command empties the recorder. Escape only empties it.
    fn on_normal_key(&mut self, key: Key, authenticating: bool) -> (fx: Effects)
        requires
            old(self).wf(),
            old(self).mode_of() == Mode::Normal,
        ensures
            final(self).wf(),
            fx.surface.is_none(),
            fx.login.is_none(),
            App::normal_key_effect(*old(self), *final(self), key, authenticating, fx),
    {
        let pushed = self.state.recorder.push(key);
        if !pushed || self.state.recorder.is_mepty() {
            return Effects { render: false, surface: None, login: None };
        }
        let mut cmd = self.global.get(self.state.recorder.as_slice());
        if cmd.is_none() {
            cmd = match self.compositor.current_view() {
                Some(AppView::Authenticate(a)) => a.handle_keys(&self.login_combos, self.state.recorder.as_slice(), authenticating),
                _ => None,
            };
        }
        match cmd {
            Some(c) => {
                self.state.recorder.clear();
                self.apply_command(c);
                Effects { render: true, surface: None, login: None }
            },
            None => Effects { render: false, surface: None, login: None },
        }
    }

    /// A key in insert mode: escape only keeps the recorder empty; another
    /// key is typed into the focused login form.
    fn on_insert_key(&mut self, key: Key, authenticating: bool) -> (fx: Effects)
        requires
            old(self).wf(),
        ensures
            final(self).wf(),
            App::insert_key_effect(*old(self), *final(self), key, authenticating, fx),
    {
        if key.is_esc() {
            return Effects { render: false, surface: None, login: None };
        }
        let ghost a = *self;
        let current = self.compositor.swap_current_view(AppView::Chat(ChatView::new()));
        match current {
            None => Effects { render: false, surface: None, login: None },
            Some(AppView::Authenticate(mut form)) => {
                let outcome = form.handle_input(key, authenticating);
                let login = match outcome {
                    InputOutcome::Submit => Some(
                        LoginRequest {
                            username: slice_to_vec(form.username.value()),
                            password: slice_to_vec(form.password.value()),
                        },
                    ),
                    _ => None,
                };
                let render = match outcome {
                    InputOutcome::Ignored => false,
                    _ => true,
                };
                self.compositor.swap_current_view(AppView::Authenticate(form));
                proof {
                    assert(self.nodes() =~= a.nodes().insert(
                        a.focuse(),
                        Node {
                            parent: a.nodes()[a.focuse()].parent,
                            data: self.focused_data(),
                            area: a.nodes()[a.focuse()].area,
                        },
                    ));
                    App::lemma_views_ok_kept(a, *self);
                }
                Effects { render, surface: None, login }
            },
            Some(other) => {
                self.compositor.swap_current_view(other);
                proof {
                    assert(self.nodes() =~= a.nodes());
                }
                Effects { render: false, surface: None, login: None }
            },
        }
    }

    /// What handling `event` at `now` does to `a`, giving `b` and effects
    /// `fx`.
    pub open spec fn event_effect(a: App, b: App, event: Event, now: u64, authenticating: bool, fx: Effects) -> bool {
        match event {
            Event::Stdin(bytes) => match key_of_bytes(bytes@) {
                None => quiet(fx) && b.recorded() == a.recorded() && b.same_but_recorder(a),
                Some(key) => match a.mode_of() {
                    Mode::Normal => App::normal_key_effect(a, b, key, authenticating, fx),
                    Mode::Insert => App::insert_key_effect(a, b, key, authenticating, fx),
                },
            },
            Event::Resize((w, h)) => fx.render && fx.surface == Some((w, h)) && fx.login.is_none()
                && same_shape(a.nodes(), b.nodes())
                && b.nodes()[b.root()].area == (Rect {
                    x: 0,
                    y: 0,
                    width: w,
                    height: if h > 0 { (h - 1) as u16 } else { 0 },
                }) && b.root() == a.root() && b.focuse() == a.focuse()
                && b.recorded() == a.recorded() && b.mode_of() == a.mode_of()
                && b.user() == a.user() && b.toasts() == a.toasts(),
            Event::Tick => b.toasts() == kept(a.toasts(), now) && fx.render == (kept(
                a.toasts(),
                now,
            ).len() != a.toasts().len()) && fx.surface.is_none() && fx.login.is_none()
                && b.same_panes(a) && b.same_state(a),
            Event::Render => fx.render && fx.surface.is_none() && fx.login.is_none() && b == a,
            Event::Notification((n, d)) => fx.render && fx.surface.is_none() && fx.login.is_none()
                && b.toasts() == pushed(
                a.toasts(),
                Toast { notification: n, duration: d, created: now },
                NOTIFICATION_CAPACITY as nat,
            ) && b.same_panes(a) && b.same_state(a),
            Event::SetUser(u) => quiet(fx) && b.user() == Some(u) && b.mode_of()
                == a.mode_of() && b.recorded() == a.recorded()
                && b.same_panes(a) && b.toasts() == a.toasts(),
        }
    }

    /// Handles one event at time `now` (milliseconds), given whether a login
    /// check is still running, and says what the loop must do next.
    pub fn handle_event(&mut self, event: Event, now: u64, authenticating: bool) -> (fx: Effects)
        requires
            old(self).wf(),
        ensures
            final(self).wf(),
            App::event_effect(*old(self), *final(self), event, now, authenticating, fx),
    {
        match event {
            Event::Stdin(bytes) => match Key::from_bytes(bytes.as_slice()) {
                None => Effects { render: false, surface: None, login: None },
                Some(key) => match self.state.mode {
                    Mode::Normal => self.on_normal_key(key, authenticating),
                    Mode::Insert => self.on_insert_key(key, authenticating),
                },
            },
            Event::Resize((w, h)) => {
                let ghost a = *self;
                let height: u16 = if h > 0 {
                    h - 1
                } else {
                    0
                };
                self.compositor.resize((w, height));
                proof {
                    assert forall|id: ViewId| self.nodes().contains_key(id) implies view_ok(#[trigger] self.nodes()[id].data) by {
                        assert(self.nodes()[id].data == a.nodes()[id].data);
                    }
                }
                Effects { render: true, surface: Some((w, h)), login: None }
            },
            Event::Tick => {
                let render = self.notifications.tick(now);
                Effects { render, surface: None, login: None }
            },
            Event::Render => Effects { render: true, surface: None, login: None },
            Event::Notification((n, d)) => {
                self.notifications.push_notification(n, d, now);
                Effects { render: true, surface: None, login: None }
            },
            Event::SetUser(u) => {
                self.state.user = Some(u);
                Effects { render: false, surface: None, login: None }
            },
        }
    }
}

/// In normal mode, escape empties the recorder and fires nothing: the panes,
/// the mode, the user and the notifications stay as they were, and nothing is
/// drawn again.
pub proof fn lemma_escape_fires_nothing(a: App, b: App, key: Key, authenticating: bool, fx: Effects)
    requires
        App::normal_key_effect(a, b, key, authenticating, fx),
        key.keycode == KeyCode::Esc,
    ensures
        b.recorded().len() == 0,
        !fx.render,
        b.same_but_recorder(a),
{
}

/// In insert mode the recorder holds nothing.
pub proof fn lemma_insert_mode_records_nothing(a: App)
    requires
        a.wf(),
    ensures
        a.mode_of() == Mode::Insert ==> a.recorded().len() == 0,
{
}

/// Input that decodes to escape empties the recorder in either mode and fires
/// no binding: the panes, the mode, the user and the notifications stay,
/// nothing is drawn and no login starts.
pub proof fn lemma_escape_empties_recorder(
    a: App,
    b: App,
    bytes: Vec<u8>,
    now: u64,
    authenticating: bool,
    fx: Effects,
)
    requires
        a.wf(),
        App::event_effect(a, b, Event::Stdin(bytes), now, authenticating, fx),
        (key_of_bytes(bytes@) matches Some(k) && k.keycode == KeyCode::Esc),
    ensures
        b.recorded().len() == 0,
        b.same_panes(a),
        b.user() == a.user(),
        b.toasts() == a.toasts(),
        b.mode_of() == a.mode_of(),
        quiet(fx),
{
}

/// Input that decodes to no key, or to a key other than escape while the
/// recorder is full, changes nothing and draws nothing.
pub proof fn lemma_ignored_input(a: App, b: App, bytes: Vec<u8>, now: u64, authenticating: bool, fx: Effects)
    requires
        a.wf(),
        App::event_effect(a, b, Event::Stdin(bytes), now, authenticating, fx),
        key_of_bytes(bytes@) is None || (key_of_bytes(bytes@) matches Some(k) && k.keycode != KeyCode::Esc
            && a.recorded().len() == MAX_COMBO_DEPTH),
    ensures
        quiet(fx),
        b.recorded() == a.recorded(),
        b.same_but_recorder(a),
{
}

/// Only a `SetUser` event sets the user: a failed login, which comes back as
/// a notification, leaves it as it was, and so does every other event.
pub proof fn lemma_user_only_from_set_user(a: App, b: App, event: Event, now: u64, authenticating: bool, fx: Effects)
    requires
        a.wf(),
        App::event_effect(a, b, event, now, authenticating, fx),
        !(event is SetUser),
    ensures
        b.user() == a.user(),
{
}

/// Where a job stands.
#[derive(Debug, Clone, Copy, PartialEq, Eq, Structural)]
pub enum JobStatus {
    Ready,
    Running,
    Done,
}

/// A named piece of background work; the task itself runs outside.
pub struct Job {
    name: String,
    started: bool,
}

impl Job {
    pub closed spec fn is_started(&self) -> bool {
        self.started
    }

    pub closed spec fn job_name(&self) -> String {
        self.name
    }

    /// The job's name.
    pub fn name(&self) -> (r: &String)
        ensures
            *r == self.job_name(),
    {
        &self.name
    }

    /// A job not started yet.
    pub fn new(name: String) -> (r: Job)
        ensures
            !r.is_started(),
            r.job_name() == name,
    {
        Job { name, started: false }
    }

    /// Marks the job started; `true` when it was not started before, which
    /// is when its task must be spawned.
    pub fn start(&mut self) -> (r: bool)
        ensures
            r == !old(self).is_started(),
            final(self).is_started(),
            final(self).job_name() == old(self).job_name(),
    {
        if self.started {
            false
        } else {
            self.started = true;
            true
        }
    }

    /// The status, given whether the spawned task has finished.
    pub fn status(&self, finished: bool) -> (r: JobStatus)
        ensures
            !self.is_started() ==> r == JobStatus::Ready,
            self.is_started() && finished ==> r == JobStatus::Done,
            self.is_started() && !finished ==> r == JobStatus::Running,
    {
        if !self.started {
            JobStatus::Ready
        } else if finished {
            JobStatus::Done
        } else {
            JobStatus::Running
        }
    }
}

impl App {
    /// Every view pane with its rectangle, for drawing.
    pub fn panes(&self) -> (r: Vec<(ViewId, Rect)>)
        requires
            self.wf(),
        ensures
            forall|k: int|
                0 <= k < r.len() ==> self.nodes().contains_key(#[trigger] r@[k].0) && !self.nodes()[r@[k].0].is_container()
                    && r@[k].1 == self.nodes()[r@[k].0].area,
            forall|id: ViewId|
                self.nodes().contains_key(id) && !self.nodes()[id].is_container()
                    ==> #[trigger] crate::compositor::ids(r@).contains(id),
    {
        self.compositor.panes()
    }

    /// The view shown in pane `id`.
    pub fn pane_view(&self, id: ViewId) -> (r: Option<&AppView>)
        requires
            self.wf(),
            self.nodes().contains_key(id),
        ensures
            r matches Some(v) ==> self.nodes()[id].data == NodeData::View(*v),
            r.is_none() == self.nodes()[id].is_container(),
    {
        self.compositor.pane_view(id)
    }

    /// The pane that has the focus.
    pub fn focused_pane(&self) -> (r: ViewId)
        ensures
            r == self.focuse(),
    {
        self.compositor.focused()
    }

    /// The user who logged in, if any.
    pub fn current_user(&self) -> (r: Option<&User>)
        ensures
            r matches Some(u) ==> self.user() == Some(*u),
            r.is_none() == self.user().is_none(),
    {
        self.state.user.as_ref()
    }

    /// The keys waiting for a binding.
    pub fn recorded_keys(&self) -> (r: &[Key])
        ensures
            r@ == self.recorded(),
    {
        self.state.recorder.as_slice()
    }
}

} // verus!
