//! The selection model: the ordered host list, the bounded cursor, the
//! per-host expand flags, and the key table of the interactive session.

use vstd::prelude::*;

use crate::host::{Host, HostV, SshConfError};

verus! {

/// The mathematical image of an [`SshConf`]: the host records and the cursor.
#[verifier::ext_equal]
pub struct ConfV {
    pub hosts: Seq<HostV>,
    pub cursor: Option<int>,
}

/// The ordered list of parsed host records together with the cursor of the
/// interactive list.
pub struct SshConf {
    pub confs: Vec<Host>,
    pub state: Option<usize>,
}

pub open spec fn cursor_view(c: Option<usize>) -> Option<int> {
    match c {
        Some(i) => Some(i as int),
        None => None,
    }
}

impl View for SshConf {
    type V = ConfV;

    open spec fn view(&self) -> ConfV {
        ConfV { hosts: self.confs@.map_values(|h: Host| h@), cursor: cursor_view(self.state) }
    }
}

/// A valid cursor: absent, or the index of an element.
pub open spec fn cursor_ok(c: Option<int>, len: int) -> bool {
    match c {
        Some(i) => 0 <= i < len,
        None => true,
    }
}

/// Advancing the cursor: onto the first element when absent, else one step
/// down the list, never past the last element; no-op on an empty list.
pub open spec fn next_cursor(c: Option<int>, len: int) -> Option<int> {
    if len == 0 {
        None
    } else {
        match c {
            None => Some(0),
            Some(i) => Some(if i + 1 < len { i + 1 } else { len - 1 }),
        }
    }
}

/// Retreating the cursor: onto the last element when absent, else one step
/// up the list, never above the first element; no-op on an empty list.
pub open spec fn prev_cursor(c: Option<int>, len: int) -> Option<int> {
    if len == 0 {
        None
    } else {
        match c {
            None => Some(len - 1),
            Some(i) => Some(if i > 0 { i - 1 } else { 0 }),
        }
    }
}

pub open spec fn first_cursor(len: int) -> Option<int> {
    if len == 0 {
        None
    } else {
        Some(0)
    }
}

pub open spec fn last_cursor(len: int) -> Option<int> {
    if len == 0 {
        None
    } else {
        Some(len - 1)
    }
}

/// Flipping the expand flag of the record under the cursor; no-op when the
/// cursor is absent.
pub open spec fn toggle_spec(hosts: Seq<HostV>, c: Option<int>) -> Seq<HostV> {
    match c {
        None => hosts,
        Some(i) => hosts.update(i, (HostV { expanded: !hosts[i].expanded, ..hosts[i] })),
    }
}

impl SshConf {
    /// The cursor, when present, indexes a valid element.
    pub open spec fn wf(&self) -> bool {
        cursor_ok(self@.cursor, self@.hosts.len() as int)
    }

    pub fn new() -> (r: SshConf)
        ensures
            r@.hosts == Seq::<HostV>::empty(),
            r@.cursor is None,
            r.wf(),
    {
        proof {
            assert(Seq::<Host>::empty().map_values(|h: Host| h@) =~= Seq::<HostV>::empty());
        }
        SshConf { confs: Vec::new(), state: None }
    }

    /// Wraps an ordered host list with an empty cursor.
    pub fn from_hosts(hosts: Vec<Host>) -> (r: SshConf)
        ensures
            r.confs == hosts,
            r@.cursor is None,
            r.wf(),
    {
        SshConf { confs: hosts, state: None }
    }

    pub fn select_next(&mut self)
        requires
            old(self).wf(),
        ensures
            final(self).wf(),
            final(self).confs == old(self).confs,
            final(self)@.cursor == next_cursor(old(self)@.cursor, old(self)@.hosts.len() as int),
    {
        let len = self.confs.len();
        if len > 0 {
            match self.state {
                None => self.state = Some(0),
                Some(i) => self.state = Some(if i + 1 < len {
                    i + 1
                } else {
                    len - 1
                }),
            }
        }
    }

    pub fn select_previous(&mut self)
        requires
            old(self).wf(),
        ensures
            final(self).wf(),
            final(self).confs == old(self).confs,
            final(self)@.cursor == prev_cursor(old(self)@.cursor, old(self)@.hosts.len() as int),
    {
        let len = self.confs.len();
        if len > 0 {
            match self.state {
                None => self.state = Some(len - 1),
                Some(i) => self.state = Some(if i > 0 {
                    i - 1
                } else {
                    0
                }),
            }
        }
    }

    pub fn select_first(&mut self)
        requires
            old(self).wf(),
        ensures
            final(self).wf(),
            final(self).confs == old(self).confs,
            final(self)@.cursor == first_cursor(old(self)@.hosts.len() as int),
    {
        if self.confs.len() > 0 {
            self.state = Some(0);
        }
    }

    pub fn select_last(&mut self)
        requires
            old(self).wf(),
        ensures
            final(self).wf(),
            final(self).confs == old(self).confs,
            final(self)@.cursor == last_cursor(old(self)@.hosts.len() as int),
    {
        let len = self.confs.len();
        if len > 0 {
            self.state = Some(len - 1);
        }
    }

    pub fn clear_selection(&mut self)
        ensures
            final(self).wf(),
            final(self).confs == old(self).confs,
            final(self)@.cursor is None,
    {
        self.state = None;
    }

    /// Flips the expand flag of the record under the cursor.
    pub fn toggle_expand(&mut self)
        requires
            old(self).wf(),
        ensures
            final(self).wf(),
            final(self)@.cursor == old(self)@.cursor,
            final(self)@.hosts == toggle_spec(old(self)@.hosts, old(self)@.cursor),
    {
        if let Some(i) = self.state {
            let mut h = self.confs.remove(i);
            h.expanded = !h.expanded;
            self.confs.insert(i, h);
            proof {
                assert(self.confs@.map_values(|hh: Host| hh@) =~= toggle_spec(
                    old(self)@.hosts,
                    old(self)@.cursor,
                ));
            }
        }
    }

    /// Parses configuration text into a collection with an empty cursor.
    pub fn parse(content: &str) -> (r: Result<SshConf, SshConfError>)
        ensures
            match r {
                Ok(conf) => {
                    &&& crate::parser::spec_parse(content@) == Ok::<Seq<HostV>, crate::parser::PErr>(
                        conf@.hosts,
                    )
                    &&& conf@.cursor is None
                    &&& conf.wf()
                },
                Err(e) => e matches crate::host::SshConfError::ParseError(ln, msg)
                    && crate::parser::spec_parse(content@) == Err::<Seq<HostV>, _>(
                    (crate::parser::PErr { line: ln as int, msg: msg@ }),
                ),
            },
    {
        match crate::parser::parse_config(content) {
            Ok(hosts) => Ok(SshConf::from_hosts(hosts)),
            Err(e) => Err(e),
        }
    }

    /// The chosen identifier: the host under the cursor, or nothing when the
    /// cursor is absent. Confirming without a cursor never yields an
    /// identifier.
    pub fn confirm(&self) -> (r: Option<String>)
        requires
            self.wf(),
        ensures
            match self@.cursor {
                Some(i) => r is Some && r->0@ == self@.hosts[i].host_id,
                None => r is None,
            },
    {
        match self.state {
            Some(i) => Some(self.confs[i].host_id.clone()),
            None => None,
        }
    }
}

/// One discrete input event of the interactive session, as the key table
/// distinguishes them.
#[derive(Clone, Copy, Debug)]
pub enum InputEvent {
    Char(char),
    Up,
    Down,
    Left,
    Right,
    Home,
    End,
    Enter,
    Esc,
    Other,
}

/// What one step of the session decides: keep browsing, abort, yield the
/// chosen identifier, or end with nothing chosen.
#[derive(Debug)]
pub enum Outcome {
    Continue,
    Quit,
    Chosen(String),
    NoSelection,
}

/// The mathematical image of an [`Outcome`].
pub enum OutV {
    Continue,
    Quit,
    Chosen(Seq<char>),
    NoSelection,
}

impl View for Outcome {
    type V = OutV;

    open spec fn view(&self) -> OutV {
        match self {
            Outcome::Continue => OutV::Continue,
            Outcome::Quit => OutV::Quit,
            Outcome::Chosen(s) => OutV::Chosen(s@),
            Outcome::NoSelection => OutV::NoSelection,
        }
    }
}

pub open spec fn is_quit_event(ev: InputEvent) -> bool {
    ev == InputEvent::Char('q') || ev == InputEvent::Esc
}

pub open spec fn is_clear_event(ev: InputEvent) -> bool {
    ev == InputEvent::Char('h') || ev == InputEvent::Left
}

pub open spec fn is_next_event(ev: InputEvent) -> bool {
    ev == InputEvent::Char('j') || ev == InputEvent::Down
}

pub open spec fn is_prev_event(ev: InputEvent) -> bool {
    ev == InputEvent::Char('k') || ev == InputEvent::Up
}

pub open spec fn is_first_event(ev: InputEvent) -> bool {
    ev == InputEvent::Char('g') || ev == InputEvent::Home
}

pub open spec fn is_last_event(ev: InputEvent) -> bool {
    ev == InputEvent::Char('G') || ev == InputEvent::End
}

pub open spec fn is_toggle_event(ev: InputEvent) -> bool {
    ev == InputEvent::Char('l') || ev == InputEvent::Right
}

/// How one input event changes the model: navigation moves the cursor,
/// toggling flips one expand flag, and every other event leaves the model
/// unchanged.
pub open spec fn step_conf(c: ConfV, ev: InputEvent) -> ConfV {
    let len = c.hosts.len() as int;
    if is_clear_event(ev) {
        ConfV { cursor: None, ..c }
    } else if is_next_event(ev) {
        ConfV { cursor: next_cursor(c.cursor, len), ..c }
    } else if is_prev_event(ev) {
        ConfV { cursor: prev_cursor(c.cursor, len), ..c }
    } else if is_first_event(ev) {
        ConfV { cursor: first_cursor(len), ..c }
    } else if is_last_event(ev) {
        ConfV { cursor: last_cursor(len), ..c }
    } else if is_toggle_event(ev) {
        ConfV { hosts: toggle_spec(c.hosts, c.cursor), ..c }
    } else {
        c
    }
}

/// What one input event decides: quitting aborts, confirming yields the
/// host under the cursor or the no-selection outcome, everything else keeps
/// browsing.
pub open spec fn step_out(c: ConfV, ev: InputEvent) -> OutV {
    if is_quit_event(ev) {
        OutV::Quit
    } else if ev == InputEvent::Enter {
        match c.cursor {
            Some(i) => OutV::Chosen(c.hosts[i].host_id),
            None => OutV::NoSelection,
        }
    } else {
        OutV::Continue
    }
}

impl SshConf {
    /// Applies one input event per the fixed key table.
    pub fn handle_key(&mut self, ev: InputEvent) -> (r: Outcome)
        requires
            old(self).wf(),
        ensures
            final(self).wf(),
            final(self)@ == step_conf(old(self)@, ev),
            r@ == step_out(old(self)@, ev),
    {
        match ev {
            InputEvent::Char(ch) => {
                if ch == 'q' {
                    Outcome::Quit
                } else if ch == 'h' {
                    self.clear_selection();
                    Outcome::Continue
                } else if ch == 'j' {
                    self.select_next();
                    Outcome::Continue
                } else if ch == 'k' {
                    self.select_previous();
                    Outcome::Continue
                } else if ch == 'g' {
                    self.select_first();
                    Outcome::Continue
                } else if ch == 'G' {
                    self.select_last();
                    Outcome::Continue
                } else if ch == 'l' {
                    self.toggle_expand();
                    Outcome::Continue
                } else {
                    Outcome::Continue
                }
            },
            InputEvent::Esc => Outcome::Quit,
            InputEvent::Left => {
                self.clear_selection();
                Outcome::Continue
            },
            InputEvent::Down => {
                self.select_next();
                Outcome::Continue
            },
            InputEvent::Up => {
                self.select_previous();
                Outcome::Continue
            },
            InputEvent::Home => {
                self.select_first();
                Outcome::Continue
            },
            InputEvent::End => {
                self.select_last();
                Outcome::Continue
            },
            InputEvent::Right => {
                self.toggle_expand();
                Outcome::Continue
            },
            InputEvent::Enter => match self.confirm() {
                Some(id) => Outcome::Chosen(id),
                None => Outcome::NoSelection,
            },
            InputEvent::Other => Outcome::Continue,
        }
    }
}

/// The cursor after repeatedly advancing `k` times.
pub open spec fn iter_next_cursor(c: Option<int>, len: int, k: nat) -> Option<int>
    decreases k,
{
    if k == 0 {
        c
    } else {
        next_cursor(iter_next_cursor(c, len, (k - 1) as nat), len)
    }
}

/// The cursor after repeatedly retreating `k` times.
pub open spec fn iter_prev_cursor(c: Option<int>, len: int, k: nat) -> Option<int>
    decreases k,
{
    if k == 0 {
        c
    } else {
        prev_cursor(iter_prev_cursor(c, len, (k - 1) as nat), len)
    }
}

pub open spec fn next_start_val(c: Option<int>) -> int {
    match c {
        None => -1,
        Some(i) => i,
    }
}

pub open spec fn prev_start_val(c: Option<int>, len: int) -> int {
    match c {
        None => len,
        Some(i) => i,
    }
}

proof fn lemma_iter_next_val(c: Option<int>, len: int, k: nat)
    requires
        len > 0,
        cursor_ok(c, len),
        k >= 1,
    ensures
        iter_next_cursor(c, len, k) == Some(
            if next_start_val(c) + k < len - 1 {
                next_start_val(c) + k
            } else {
                len - 1
            },
        ),
    decreases k,
{
    assert(iter_next_cursor(c, len, k) == next_cursor(iter_next_cursor(c, len, (k - 1) as nat), len));
    if k > 1 {
        lemma_iter_next_val(c, len, (k - 1) as nat);
    } else {
        assert(iter_next_cursor(c, len, 0) == c);
    }
}

proof fn lemma_iter_prev_val(c: Option<int>, len: int, k: nat)
    requires
        len > 0,
        cursor_ok(c, len),
        k >= 1,
    ensures
        iter_prev_cursor(c, len, k) == Some(
            if prev_start_val(c, len) - k > 0 {
                prev_start_val(c, len) - k
            } else {
                0
            },
        ),
    decreases k,
{
    assert(iter_prev_cursor(c, len, k) == prev_cursor(iter_prev_cursor(c, len, (k - 1) as nat), len));
    if k > 1 {
        lemma_iter_prev_val(c, len, (k - 1) as nat);
    } else {
        assert(iter_prev_cursor(c, len, 0) == c);
    }
}

/// On a non-empty list, advancing at least as many times as the list is long
/// puts the cursor on the last element from any valid start, and it stays
/// there.
pub proof fn lemma_select_next_converges(c: Option<int>, len: int, k: nat)
    requires
        len > 0,
        cursor_ok(c, len),
        k >= len,
    ensures
        iter_next_cursor(c, len, k) == Some(len - 1),
        next_cursor(Some(len - 1), len) == Some(len - 1),
{
    lemma_iter_next_val(c, len, k);
}

/// On a non-empty list, retreating at least as many times as the list is
/// long puts the cursor on the first element from any valid start, and it
/// stays there.
pub proof fn lemma_select_previous_converges(c: Option<int>, len: int, k: nat)
    requires
        len > 0,
        cursor_ok(c, len),
        k >= len,
    ensures
        iter_prev_cursor(c, len, k) == Some(0int),
        prev_cursor(Some(0int), len) == Some(0int),
{
    lemma_iter_prev_val(c, len, k);
}

/// On an empty list, advancing and retreating leave the cursor unchanged.
pub proof fn lemma_nav_empty_noop(c: Option<int>)
    requires
        cursor_ok(c, 0),
    ensures
        next_cursor(c, 0) == c,
        prev_cursor(c, 0) == c,
{
}

/// Two consecutive toggles under the same cursor restore every expand flag.
pub proof fn lemma_toggle_expand_involutive(hosts: Seq<HostV>, c: Option<int>)
    requires
        cursor_ok(c, hosts.len() as int),
    ensures
        toggle_spec(toggle_spec(hosts, c), c) == hosts,
{
    match c {
        None => {},
        Some(i) => {
            let twice = toggle_spec(toggle_spec(hosts, c), c);
            assert forall|j: int| 0 <= j < hosts.len() implies twice[j] == hosts[j] by {
                if j == i {
                    assert(twice[j] =~= hosts[j]);
                }
            }
            assert(twice =~= hosts);
        },
    }
}

} // verus!
