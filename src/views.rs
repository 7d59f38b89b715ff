//! The screens a pane can show: the login form and the chat surface.

use vstd::prelude::*;
use crate::combo::Command;
use crate::combo::ComboRegister;
use crate::key::Key;
use crate::key::KeyCode;

verus! {

/// How a field shows what it holds.
#[derive(Debug, Clone, Copy, PartialEq, Eq, Structural)]
pub enum FieldKind {
    /// The text as typed.
    String,
    /// One `*` for each character.
    Secret,
}

/// How a field is drawn.
#[derive(Debug, Clone, Copy, PartialEq, Eq, Structural)]
pub enum FieldStyle {
    Outline,
    Transparent,
}

/// Builds a `Field`.
pub struct FieldBuilder {
    pub buffer: Vec<char>,
    pub kind: FieldKind,
    pub style: FieldStyle,
    pub min: usize,
    pub max: usize,
}

impl Default for FieldBuilder {
    fn default() -> (r: FieldBuilder)
        ensures
            r.buffer@.len() == 0,
            r.kind == FieldKind::String,
            r.style == FieldStyle::Outline,
            r.min == 0,
            r.max == 0,
    {
        FieldBuilder {
            buffer: Vec::new(),
            kind: FieldKind::String,
            style: FieldStyle::Outline,
            min: 0,
            max: 0,
        }
    }
}

impl FieldBuilder {
    pub fn initial_buffer(self, value: Vec<char>) -> (r: FieldBuilder)
        ensures
            r.buffer == value,
            r.kind == self.kind,
            r.style == self.style,
            r.min == self.min,
            r.max == self.max,
    {
        FieldBuilder { buffer: value, ..self }
    }

    pub fn kind(self, kind: FieldKind) -> (r: FieldBuilder)
        ensures
            r.buffer == self.buffer,
            r.kind == kind,
            r.style == self.style,
            r.min == self.min,
            r.max == self.max,
    {
        FieldBuilder { kind, ..self }
    }

    pub fn style(self, style: FieldStyle) -> (r: FieldBuilder)
        ensures
            r.buffer == self.buffer,
            r.kind == self.kind,
            r.style == style,
            r.min == self.min,
            r.max == self.max,
    {
        FieldBuilder { style, ..self }
    }

    pub fn min(self, value: usize) -> (r: FieldBuilder)
        ensures
            r.buffer == self.buffer,
            r.kind == self.kind,
            r.style == self.style,
            r.min == value,
            r.max == self.max,
    {
        FieldBuilder { min: value, ..self }
    }

    pub fn max(self, value: usize) -> (r: FieldBuilder)
        ensures
            r.buffer == self.buffer,
            r.kind == self.kind,
            r.style == self.style,
            r.min == self.min,
            r.max == value,
    {
        FieldBuilder { max: value, ..self }
    }

    /// The field, with the cursor after the initial text.
    pub fn build(self) -> (r: Field)
        ensures
            r.wf(),
            r.text() == self.buffer@,
            r.cursor() == self.buffer@.len(),
            r.kind() == self.kind,
            r.style() == self.style,
            r.min() == self.min,
            r.max() == self.max,
    {
        let cursor = self.buffer.len();
        Field {
            buffer: self.buffer,
            kind: self.kind,
            cursor,
            style: self.style,
            min: self.min,
            max: self.max,
        }
    }
}

/// A one-line text field with a cursor, a kind and length bounds (a bound of
/// 0 is no bound).
pub struct Field {
    buffer: Vec<char>,
    kind: FieldKind,
    cursor: usize,
    style: FieldStyle,
    min: usize,
    max: usize,
}

/// The text a field shows: as typed, or one `*` per character.
pub open spec fn shown(text: Seq<char>, kind: FieldKind) -> Seq<char> {
    match kind {
        FieldKind::String => text,
        FieldKind::Secret => Seq::new(text.len(), |i: int| '*'),
    }
}

impl Field {
    pub closed spec fn text(&self) -> Seq<char> {
        self.buffer@
    }

    pub closed spec fn cursor(&self) -> nat {
        self.cursor as nat
    }

    pub closed spec fn kind(&self) -> FieldKind {
        self.kind
    }

    pub closed spec fn style(&self) -> FieldStyle {
        self.style
    }

    pub closed spec fn min(&self) -> usize {
        self.min
    }

    pub closed spec fn max(&self) -> usize {
        self.max
    }

    pub open spec fn wf(&self) -> bool {
        self.cursor() <= self.text().len()
    }

    /// The kind of the field.
    pub fn field_kind(&self) -> (r: FieldKind)
        ensures
            r == self.kind(),
    {
        self.kind
    }

    /// The style of the field.
    pub fn field_style(&self) -> (r: FieldStyle)
        ensures
            r == self.style(),
    {
        self.style
    }

    /// The upper bound on the length, 0 for none.
    pub fn max_len(&self) -> (r: usize)
        ensures
            r == self.max(),
    {
        self.max
    }

    /// Whether the text is longer than a set lower bound.
    pub fn valid(&self) -> (r: bool)
        ensures
            r == (self.min() > 0 && self.text().len() > self.min()),
    {
        self.min > 0 && self.buffer.len() > self.min
    }

    /// Inserts `c` at the cursor and moves the cursor past it; nothing
    /// changes, and `false` comes back, when the field is at its upper bound.
    pub fn push_char(&mut self, c: char) -> (r: bool)
        requires
            old(self).wf(),
        ensures
            final(self).wf(),
            final(self).kind() == old(self).kind(),
            final(self).min() == old(self).min(),
            final(self).max() == old(self).max(),
            r == !(old(self).max() > 0 && old(self).max() <= old(self).text().len()),
            r ==> final(self).text() == old(self).text().insert(old(self).cursor() as int, c)
                && final(self).cursor() == old(self).cursor() + 1,
            !r ==> final(self).text() == old(self).text() && final(self).cursor() == old(self).cursor(),
    {
        if self.max > 0 && self.max <= self.buffer.len() {
            return false;
        }
        self.buffer.insert(self.cursor, c);
        let len = self.buffer.len();
        proof {
            assert(self.cursor < len);
        }
        self.cursor = self.cursor + 1;
        true
    }

    /// Removes the character before the cursor; `false`, and no change, at
    /// the start of the field.
    pub fn remove_char(&mut self) -> (r: bool)
        requires
            old(self).wf(),
        ensures
            final(self).wf(),
            final(self).kind() == old(self).kind(),
            final(self).min() == old(self).min(),
            final(self).max() == old(self).max(),
            r == (old(self).cursor() > 0),
            r ==> final(self).text() == old(self).text().remove(old(self).cursor() - 1)
                && final(self).cursor() == old(self).cursor() - 1,
            !r ==> final(self).text() == old(self).text() && final(self).cursor() == old(self).cursor(),
    {
        if self.cursor > 0 {
            self.cursor = self.cursor - 1;
            self.buffer.remove(self.cursor);
            true
        } else {
            false
        }
    }

    /// The text of the field.
    pub fn value(&self) -> (r: &[char])
        ensures
            r@ == self.text(),
    {
        self.buffer.as_slice()
    }

    /// What the field shows: the text, or one `*` per character of a secret.
    pub fn display(&self) -> (r: Vec<char>)
        ensures
            r@ == shown(self.text(), self.kind()),
    {
        let mut out: Vec<char> = Vec::new();
        let mut i: usize = 0;
        while i < self.buffer.len()
            invariant
                i <= self.buffer@.len(),
                out@ == shown(self.buffer@.subrange(0, i as int), self.kind),
            decreases self.buffer.len() - i,
        {
            let c = match self.kind {
                FieldKind::String => self.buffer[i],
                FieldKind::Secret => '*',
            };
            out.push(c);
            i = i + 1;
            proof {
                assert(shown(self.buffer@.subrange(0, i as int), self.kind) =~= shown(
                    self.buffer@.subrange(0, i - 1),
                    self.kind,
                ).push(c));
            }
        }
        proof {
            assert(self.buffer@.subrange(0, i as int) =~= self.buffer@);
        }
        out
    }
}

/// The part of the login form that has the focus.
#[derive(Debug, Clone, Copy, PartialEq, Eq, Structural)]
pub enum FocuseArea {
    UsernameField,
    PasswordField,
    AuthenticateButton,
}

impl FocuseArea {
    pub fn is_username_field(&self) -> (r: bool)
        ensures
            r == (*self == FocuseArea::UsernameField),
    {
        matches!(self, FocuseArea::UsernameField)
    }

    pub fn is_password_field(&self) -> (r: bool)
        ensures
            r == (*self == FocuseArea::PasswordField),
    {
        matches!(self, FocuseArea::PasswordField)
    }

    pub fn is_authenticate_button(&self) -> (r: bool)
        ensures
            r == (*self == FocuseArea::AuthenticateButton),
    {
        matches!(self, FocuseArea::AuthenticateButton)
    }

    /// The part before this one, the first wrapping round to the last.
    pub fn previous(&self) -> (r: FocuseArea)
        ensures
            r == previous_area(*self),
    {
        match self {
            FocuseArea::AuthenticateButton => FocuseArea::PasswordField,
            FocuseArea::PasswordField => FocuseArea::UsernameField,
            FocuseArea::UsernameField => FocuseArea::AuthenticateButton,
        }
    }

    /// The part after this one, the last wrapping round to the first.
    pub fn next(&self) -> (r: FocuseArea)
        ensures
            r == next_area(*self),
    {
        match self {
            FocuseArea::UsernameField => FocuseArea::PasswordField,
            FocuseArea::PasswordField => FocuseArea::AuthenticateButton,
            FocuseArea::AuthenticateButton => FocuseArea::UsernameField,
        }
    }
}

pub open spec fn next_area(a: FocuseArea) -> FocuseArea {
    match a {
        FocuseArea::UsernameField => FocuseArea::PasswordField,
        FocuseArea::PasswordField => FocuseArea::AuthenticateButton,
        FocuseArea::AuthenticateButton => FocuseArea::UsernameField,
    }
}

pub open spec fn previous_area(a: FocuseArea) -> FocuseArea {
    match a {
        FocuseArea::AuthenticateButton => FocuseArea::PasswordField,
        FocuseArea::PasswordField => FocuseArea::UsernameField,
        FocuseArea::UsernameField => FocuseArea::AuthenticateButton,
    }
}

/// What a key typed into a view did.
#[derive(Debug, Clone, Copy, PartialEq, Eq, Structural)]
pub enum InputOutcome {
    /// Nothing changed.
    Ignored,
    /// The view changed and should be drawn again.
    Changed,
    /// The login form was submitted.
    Submit,
}

/// Whether a field has room for one more character.
pub open spec fn has_room(f: Field) -> bool {
    !(f.max() > 0 && f.max() <= f.text().len())
}

/// `b` is field `a` after typing `c` at its cursor, when there was room.
pub open spec fn typed(a: Field, b: Field, c: char) -> bool {
    &&& b.kind() == a.kind() && b.min() == a.min() && b.max() == a.max()
    &&& has_room(a) ==> b.text() == a.text().insert(a.cursor() as int, c) && b.cursor() == a.cursor() + 1
    &&& !has_room(a) ==> b.text() == a.text() && b.cursor() == a.cursor()
}

/// `b` is field `a` after erasing the character before its cursor, if any.
pub open spec fn erased(a: Field, b: Field) -> bool {
    &&& b.kind() == a.kind() && b.min() == a.min() && b.max() == a.max()
    &&& a.cursor() > 0 ==> b.text() == a.text().remove(a.cursor() - 1) && b.cursor() == a.cursor() - 1
    &&& a.cursor() == 0 ==> b.text() == a.text() && b.cursor() == a.cursor()
}

/// The login form: a username, a password and a submit button.
pub struct AuthenticateView {
    pub focuse: FocuseArea,
    pub username: Field,
    pub password: Field,
}

impl AuthenticateView {
    pub open spec fn wf(&self) -> bool {
        self.username.wf() && self.password.wf()
    }

    /// An empty form with the focus on the username: a username of 2 to 16
    /// characters and a secret password of 2 to 32.
    pub fn new() -> (r: AuthenticateView)
        ensures
            r.wf(),
            r.focuse == FocuseArea::UsernameField,
            r.username.text().len() == 0,
            r.password.text().len() == 0,
            r.username.kind() == FieldKind::String,
            r.password.kind() == FieldKind::Secret,
            r.username.min() == 2,
            r.username.max() == 16,
            r.password.min() == 2,
            r.password.max() == 32,
    {
        let username = FieldBuilder::default().min(2).max(16).kind(FieldKind::String).build();
        let password = FieldBuilder::default().min(2).max(32).kind(FieldKind::Secret).build();
        AuthenticateView { focuse: FocuseArea::UsernameField, username, password }
    }

    /// The view's name, for the status line.
    pub fn name(&self) -> (r: &'static str)
        ensures
            r@ == "Authentication"@,
    {
        "Authentication"
    }

    /// The command the form binds to the recorded `keys`; none while a login
    /// is in progress.
    pub fn handle_keys(&self, combos: &ComboRegister, keys: &[Key], authenticating: bool) -> (r: Option<Command>)
        requires
            combos.wf(),
        ensures
            authenticating ==> r.is_none(),
            !authenticating ==> r == (if combos.view().contains_key(keys@) {
                Some(combos.view()[keys@])
            } else {
                None
            }),
    {
        if authenticating {
            return None;
        }
        combos.get(keys)
    }

    /// Applies a key typed in insert mode: Tab and Down move the focus on, Up
    /// moves it back, Enter submits on the button and moves on elsewhere,
    /// Backspace and characters edit the focused field. Keys are ignored
    /// while a login is in progress.
    pub fn handle_input(&mut self, key: Key, authenticating: bool) -> (r: InputOutcome)
        requires
            old(self).wf(),
        ensures
            final(self).wf(),
            authenticating ==> r == InputOutcome::Ignored && *final(self) == *old(self),
            !authenticating ==> input_effect(*old(self), *final(self), key, r),
    {
        if authenticating {
            return InputOutcome::Ignored;
        }
        match key.keycode {
            KeyCode::Tab | KeyCode::Down => {
                self.focuse = self.focuse.next();
                InputOutcome::Changed
            },
            KeyCode::Up => {
                self.focuse = self.focuse.previous();
                InputOutcome::Changed
            },
            KeyCode::Enter => {
                if self.focuse.is_authenticate_button() {
                    InputOutcome::Submit
                } else {
                    self.focuse = self.focuse.next();
                    InputOutcome::Changed
                }
            },
            KeyCode::Backspace => {
                let changed = match self.focuse {
                    FocuseArea::UsernameField => self.username.remove_char(),
                    FocuseArea::PasswordField => self.password.remove_char(),
                    FocuseArea::AuthenticateButton => false,
                };
                if changed {
                    InputOutcome::Changed
                } else {
                    InputOutcome::Ignored
                }
            },
            KeyCode::Char(c) => {
                let changed = match self.focuse {
                    FocuseArea::UsernameField => self.username.push_char(c),
                    FocuseArea::PasswordField => self.password.push_char(c),
                    FocuseArea::AuthenticateButton => false,
                };
                if changed {
                    InputOutcome::Changed
                } else {
                    InputOutcome::Ignored
                }
            },
            _ => InputOutcome::Ignored,
        }
    }
}

/// What typing `key` does to the login form `a`, giving `b` and outcome `r`.
pub open spec fn input_effect(a: AuthenticateView, b: AuthenticateView, key: Key, r: InputOutcome) -> bool {
    match key.keycode {
        KeyCode::Tab | KeyCode::Down => r == InputOutcome::Changed && b == AuthenticateView {
            focuse: next_area(a.focuse),
            ..a
        },
        KeyCode::Up => r == InputOutcome::Changed && b == AuthenticateView { focuse: previous_area(a.focuse), ..a },
        KeyCode::Enter => if a.focuse == FocuseArea::AuthenticateButton {
            r == InputOutcome::Submit && b == a
        } else {
            r == InputOutcome::Changed && b == AuthenticateView { focuse: next_area(a.focuse), ..a }
        },
        KeyCode::Backspace => match a.focuse {
            FocuseArea::UsernameField => b.focuse == a.focuse && b.password == a.password && erased(a.username, b.username)
                && (r == InputOutcome::Changed) == (a.username.cursor() > 0) && (r == InputOutcome::Changed
                || r == InputOutcome::Ignored),
            FocuseArea::PasswordField => b.focuse == a.focuse && b.username == a.username && erased(a.password, b.password)
                && (r == InputOutcome::Changed) == (a.password.cursor() > 0) && (r == InputOutcome::Changed
                || r == InputOutcome::Ignored),
            FocuseArea::AuthenticateButton => r == InputOutcome::Ignored && b == a,
        },
        KeyCode::Char(c) => match a.focuse {
            FocuseArea::UsernameField => b.focuse == a.focuse && b.password == a.password && typed(a.username, b.username, c)
                && (r == InputOutcome::Changed) == has_room(a.username) && (r == InputOutcome::Changed
                || r == InputOutcome::Ignored),
            FocuseArea::PasswordField => b.focuse == a.focuse && b.username == a.username && typed(a.password, b.password, c)
                && (r == InputOutcome::Changed) == has_room(a.password) && (r == InputOutcome::Changed
                || r == InputOutcome::Ignored),
            FocuseArea::AuthenticateButton => r == InputOutcome::Ignored && b == a,
        },
        _ => r == InputOutcome::Ignored && b == a,
    }
}

/// The chat surface shown once a user is known.
pub struct ChatView {}

impl ChatView {
    pub fn new() -> (r: ChatView) {
        ChatView {  }
    }

    /// The view's name, for the status line.
    pub fn name(&self) -> (r: &'static str)
        ensures
            r@ == "chat"@,
    {
        "chat"
    }
}

/// The screens a pane can show.
pub enum AppView {
    Authenticate(AuthenticateView),
    Chat(ChatView),
}

impl AppView {
    /// The view's name, for the status line.
    pub fn name(&self) -> (r: &'static str)
        ensures
            self is Authenticate ==> r@ == "Authentication"@,
            self is Chat ==> r@ == "chat"@,
    {
        match self {
            AppView::Authenticate(v) => v.name(),
            AppView::Chat(v) => v.name(),
        }
    }
}

} // verus!
