use vstd::prelude::*;
use crate::session::{new_window_placement, new_window_geometry, Point, Size};

verus! {

/// `im::HashMap`, whose contents the logic reads only through the wrappers
/// below.
#[verifier::external_type_specification]
#[verifier::external_body]
#[verifier::reject_recursive_types(K)]
#[verifier::reject_recursive_types(V)]
#[verifier::reject_recursive_types(S)]
pub struct ExImHashMap<K, V, S>(im::HashMap<K, V, S>);

/// A window's place on screen.
#[derive(Clone, Copy, Debug, PartialEq, Eq, Structural)]
pub struct WindowGeometry {
    pub size: Size,
    pub pos: Point,
}

/// An open window: its place and its active workspace tab.
#[derive(Clone, Copy, Debug, PartialEq, Eq, Structural)]
pub struct WindowState {
    pub geometry: WindowGeometry,
    pub active_tab: usize,
}

/// The open windows a map holds, by window id.
pub uninterp spec fn open_windows(m: im::HashMap<u64, WindowState>) -> Map<u64, WindowState>;

pub open spec fn no_windows() -> Map<u64, WindowState> {
    Map::empty()
}

/// Relies on `im::HashMap::new`: an empty map.
#[verifier::external_body]
fn windows_new() -> (r: im::HashMap<u64, WindowState>)
    ensures
        open_windows(r) == no_windows(),
{
    im::HashMap::new()
}

/// Relies on `im::HashMap::insert`: the key now maps to the value, the
/// other keys are untouched.
#[verifier::external_body]
fn windows_insert(m: &mut im::HashMap<u64, WindowState>, id: u64, g: WindowState)
    ensures
        open_windows(*final(m)) == open_windows(*old(m)).insert(id, g),
{
    m.insert(id, g);
}

/// Relies on `im::HashMap::remove`: the key is gone, and its value, if it
/// had one, comes back.
#[verifier::external_body]
fn windows_remove(m: &mut im::HashMap<u64, WindowState>, id: u64) -> (r: Option<WindowState>)
    ensures
        open_windows(*final(m)) == open_windows(*old(m)).remove(id),
        r == (if open_windows(*old(m)).contains_key(id) {
            Some(open_windows(*old(m))[id])
        } else {
            None
        }),
{
    m.remove(&id)
}

/// Relies on `im::HashMap::get`: the value of the key, if it has one.
#[verifier::external_body]
fn windows_get(m: &im::HashMap<u64, WindowState>, id: u64) -> (r: Option<WindowState>)
    ensures
        r == (if open_windows(*m).contains_key(id) {
            Some(open_windows(*m)[id])
        } else {
            None
        }),
{
    m.get(&id).copied()
}

/// Relies on `im::HashMap::len`: the number of keys.
#[verifier::external_body]
fn windows_len(m: &im::HashMap<u64, WindowState>) -> (r: usize)
    ensures
        r == open_windows(*m).dom().len(),
{
    m.len()
}

/// Relies on `im::HashMap::keys`: the first key the map yields, which
/// may be any of its keys; none only when it is empty.
#[verifier::external_body]
fn windows_any_key(m: &im::HashMap<u64, WindowState>) -> (r: Option<u64>)
    ensures
        match r {
            Some(k) => open_windows(*m).contains_key(k),
            None => open_windows(*m).dom() =~= Set::<u64>::empty(),
        },
{
    m.keys().next().copied()
}

/// A request to the window manager.
#[derive(Debug)]
pub enum AppCommand {
    SaveApp,
    NewWindow { folder: Option<String> },
    CloseWindow(u64),
    WindowGotFocus(u64),
    WindowClosed(u64),
}

/// What the window manager asks of its surroundings, in order.
#[derive(Debug)]
pub enum AppEffect {
    /// Write the current windows to the session store.
    SaveApp,
    /// Record the whole session, every window still open, as the one to
    /// restore at the next start.
    InsertApp,
    /// Release what the closed window held.
    DisposeWindow(u64),
    /// Ask the window to close.
    CloseWindow(u64),
    /// Open a window at this place, on this folder.
    OpenWindow { geometry: WindowGeometry, folder: Option<String> },
}

/// The open windows, the active one, and whether the process is ending.
pub struct AppData {
    pub windows: im::HashMap<u64, WindowState>,
    pub active_window: u64,
    pub app_terminated: bool,
}

impl AppData {
    pub open spec fn spec_windows(&self) -> Map<u64, WindowState> {
        open_windows(self.windows)
    }

    pub fn new() -> (r: Self)
        ensures
            r.spec_windows() == no_windows(),
            !r.app_terminated,
            r.active_window == 0,
    {
        AppData { windows: windows_new(), active_window: 0, app_terminated: false }
    }

    /// Records a window that opened or moved; an open window keeps its
    /// active tab, a new one starts on its first.
    pub fn window_placed(&mut self, id: u64, geometry: WindowGeometry)
        ensures
            final(self).spec_windows() == old(self).spec_windows().insert(
                id,
                WindowState {
                    geometry,
                    active_tab: if old(self).spec_windows().contains_key(id) {
                        old(self).spec_windows()[id].active_tab
                    } else {
                        0
                    },
                },
            ),
            final(self).active_window == old(self).active_window,
            final(self).app_terminated == old(self).app_terminated,
    {
        let active_tab = match windows_get(&self.windows, id) {
            Some(w) => w.active_tab,
            None => 0,
        };
        windows_insert(&mut self.windows, id, WindowState { geometry, active_tab });
    }

    /// Records that window `id` switched to its workspace tab `tab`; an id
    /// that is not open changes nothing.
    pub fn tab_activated(&mut self, id: u64, tab: usize)
        ensures
            old(self).spec_windows().contains_key(id) ==> final(self).spec_windows()
                == old(self).spec_windows().insert(
                id,
                WindowState { geometry: old(self).spec_windows()[id].geometry, active_tab: tab },
            ),
            !old(self).spec_windows().contains_key(id) ==> final(self).spec_windows()
                == old(self).spec_windows(),
            final(self).active_window == old(self).active_window,
            final(self).app_terminated == old(self).app_terminated,
    {
        match windows_get(&self.windows, id) {
            Some(w) => windows_insert(
                &mut self.windows,
                id,
                WindowState { geometry: w.geometry, active_tab: tab },
            ),
            None => {},
        }
    }

    /// The active window if it is open, else any open window.
    pub fn active_window(&self) -> (r: Option<u64>)
        ensures
            self.spec_windows().contains_key(self.active_window) ==> r == Some(self.active_window),
            !self.spec_windows().contains_key(self.active_window) ==> match r {
                Some(k) => self.spec_windows().contains_key(k),
                None => self.spec_windows().dom() =~= Set::<u64>::empty(),
            },
    {
        match windows_get(&self.windows, self.active_window) {
            Some(_) => Some(self.active_window),
            None => windows_any_key(&self.windows),
        }
    }

    /// The window `active_window` picks and its active workspace tab.
    pub fn active_window_tab(&self) -> (r: Option<(u64, usize)>)
        ensures
            match r {
                Some((id, tab)) => self.spec_windows().contains_key(id) && tab
                    == self.spec_windows()[id].active_tab && (self.spec_windows().contains_key(
                    self.active_window,
                ) ==> id == self.active_window),
                None => self.spec_windows().dom() =~= Set::<u64>::empty(),
            },
    {
        match self.active_window() {
            Some(id) => match windows_get(&self.windows, id) {
                Some(w) => Some((id, w.active_tab)),
                None => None,
            },
            None => None,
        }
    }

    /// The window a new window is placed beside: the active window when it
    /// is open, else some open window, else none.
    pub open spec fn beside(&self, src: Option<WindowGeometry>) -> bool {
        if self.spec_windows().contains_key(self.active_window) {
            src == Some(self.spec_windows()[self.active_window].geometry)
        } else if self.spec_windows().dom() =~= Set::<u64>::empty() {
            src is None
        } else {
            exists|k: u64| #[trigger] self.spec_windows().contains_key(k) && src == Some(self.spec_windows()[k].geometry)
        }
    }

    pub open spec fn placed(src: Option<WindowGeometry>, saved: Option<WindowGeometry>) -> (Size, Point) {
        let from_active = match src {
            Some(g) => Some((g.size, g.pos)),
            None => None,
        };
        let from_saved = match saved {
            Some(g) => Some((g.size, g.pos)),
            None => None,
        };
        new_window_placement(from_active, from_saved)
    }

    /// The place of a new window: beside the active window if there is
    /// one, else where the last saved window was, else the default.
    pub fn new_window(&self, saved: Option<WindowGeometry>) -> (r: WindowGeometry)
        ensures
            exists|src: Option<WindowGeometry>| #[trigger] self.beside(src) && (r.size, r.pos) == AppData::placed(src, saved),
    {
        let active = match self.active_window() {
            Some(id) => match windows_get(&self.windows, id) {
                Some(w) => Some(w.geometry),
                None => None,
            },
            None => None,
        };
        let from_active = match active {
            Some(g) => Some((g.size, g.pos)),
            None => None,
        };
        let from_saved = match saved {
            Some(g) => Some((g.size, g.pos)),
            None => None,
        };
        let (size, pos) = new_window_geometry(from_active, from_saved);
        let r = WindowGeometry { size, pos };
        proof {
            assert(self.beside(active));
            assert((r.size, r.pos) == AppData::placed(active, saved));
        }
        r
    }

    /// Carries out a command and says what the surroundings must do, in
    /// order. When the last window closes, the session is recorded before
    /// the window is released; nothing happens on a close once the process
    /// is ending.
    pub fn run_app_command(&mut self, cmd: AppCommand, saved: Option<WindowGeometry>) -> (r: Vec<
        AppEffect,
    >)
        ensures
            final(self).app_terminated == old(self).app_terminated,
            match cmd {
                AppCommand::SaveApp => r@.len() == 1 && r@[0] is SaveApp && *final(self) == *old(self),
                AppCommand::CloseWindow(id) => r@.len() == 1 && r@[0] == AppEffect::CloseWindow(id)
                    && *final(self) == *old(self),
                AppCommand::WindowGotFocus(id) => r@.len() == 0 && final(self).active_window == id
                    && final(self).spec_windows() == old(self).spec_windows(),
                AppCommand::NewWindow { folder } => r@.len() == 1 && (match r@[0] {
                    AppEffect::OpenWindow { geometry, folder: f } => f == folder && exists|
                        src: Option<WindowGeometry>,
                    | #[trigger] old(self).beside(src) && (geometry.size, geometry.pos) == AppData::placed(src, saved),
                    _ => false,
                }) && *final(self) == *old(self),
                AppCommand::WindowClosed(id) => {
                    if old(self).app_terminated {
                        r@.len() == 0 && *final(self) == *old(self)
                    } else {
                        let last = old(self).spec_windows().dom().len() == 1;
                        let open = old(self).spec_windows().contains_key(id);
                        &&& final(self).spec_windows() == old(self).spec_windows().remove(id)
                        &&& final(self).active_window == old(self).active_window
                        &&& r@ == seq![AppEffect::InsertApp].take(if last { 1 } else { 0 })
                            + seq![AppEffect::DisposeWindow(id)].take(if open { 1 } else { 0 })
                            + seq![AppEffect::SaveApp]
                    }
                },
            },
    {
        match cmd {
            AppCommand::SaveApp => {
                let mut r: Vec<AppEffect> = Vec::new();
                r.push(AppEffect::SaveApp);
                r
            },
            AppCommand::CloseWindow(id) => {
                let mut r: Vec<AppEffect> = Vec::new();
                r.push(AppEffect::CloseWindow(id));
                r
            },
            AppCommand::WindowGotFocus(id) => {
                self.active_window = id;
                Vec::new()
            },
            AppCommand::NewWindow { folder } => {
                let geometry = self.new_window(saved);
                let mut r: Vec<AppEffect> = Vec::new();
                r.push(AppEffect::OpenWindow { geometry, folder });
                r
            },
            AppCommand::WindowClosed(id) => {
                let mut r: Vec<AppEffect> = Vec::new();
                if self.app_terminated {
                    return r;
                }
                let last = windows_len(&self.windows) == 1;
                if last {
                    r.push(AppEffect::InsertApp);
                }
                let removed = windows_remove(&mut self.windows, id);
                if removed.is_some() {
                    r.push(AppEffect::DisposeWindow(id));
                }
                r.push(AppEffect::SaveApp);
                proof {
                    assert(r@ =~= seq![AppEffect::InsertApp].take(if last { 1 } else { 0 })
                        + seq![AppEffect::DisposeWindow(id)].take(if removed is Some { 1 } else { 0 })
                        + seq![AppEffect::SaveApp]);
                }
                r
            },
        }
    }

    /// The process is ending: the session is recorded once, and later
    /// window closes change nothing.
    pub fn terminate(&mut self) -> (r: Vec<AppEffect>)
        ensures
            final(self).app_terminated,
            final(self).spec_windows() == old(self).spec_windows(),
            final(self).active_window == old(self).active_window,
            r@.len() == 1 && r@[0] is InsertApp,
    {
        self.app_terminated = true;
        let mut r: Vec<AppEffect> = Vec::new();
        r.push(AppEffect::InsertApp);
        r
    }
}

} // verus!
