use vstd::prelude::*;
use crate::tabs::{insertion_index, moved};

verus! {

/// Where a workspace lives.
#[derive(Debug)]
pub enum WorkspaceKind {
    Local,
    /// On a host reached over SSH, named as it is shown.
    RemoteSsh(String),
    /// In a WSL distribution, named as it is shown.
    RemoteWsl(String),
}

/// A workspace tab's root folder (if any), where it lives, and when it was
/// last opened.
#[derive(Debug)]
pub struct WorkspaceDescriptor {
    pub kind: WorkspaceKind,
    pub path: Option<String>,
    pub last_open: u64,
}

/// A window's workspace tabs and which of them is active.
#[derive(Debug)]
pub struct TabsInfo {
    pub active_tab: usize,
    pub workspaces: Vec<WorkspaceDescriptor>,
}

/// A window's extent in pixels.
#[derive(Clone, Copy, Debug, PartialEq, Eq, Structural)]
pub struct Size {
    pub width: u32,
    pub height: u32,
}

/// A window's top left corner in screen pixels.
#[derive(Clone, Copy, Debug, PartialEq, Eq, Structural)]
pub struct Point {
    pub x: i32,
    pub y: i32,
}

/// What is kept of one window across restarts.
#[derive(Debug)]
pub struct WindowInfo {
    pub size: Size,
    pub pos: Point,
    pub maximised: bool,
    pub tabs: TabsInfo,
}

/// The whole session: every open window, in order.
#[derive(Debug)]
pub struct AppInfo {
    pub windows: Vec<WindowInfo>,
}

/// A line and column given on the command line, counted from 1.
#[derive(Clone, Copy, Debug, PartialEq, Eq, Structural)]
pub struct LineCol {
    pub line: usize,
    pub column: usize,
}

/// A position in a document, counted from 0.
#[derive(Clone, Copy, Debug, PartialEq, Eq, Structural)]
pub struct Position {
    pub line: usize,
    pub character: usize,
}

impl LineCol {
    /// The 0-based position of a 1-based line and column; a 0 given on the
    /// command line stays at 0.
    pub fn to_position(&self) -> (r: Position)
        ensures
            r.line == if self.line == 0 { 0 } else { self.line - 1 },
            r.character == if self.column == 0 { 0 } else { self.column - 1 },
    {
        Position {
            line: if self.line == 0 { 0 } else { self.line - 1 },
            character: if self.column == 0 { 0 } else { self.column - 1 },
        }
    }
}

/// A path to open, with the position to open it at.
#[derive(Debug)]
pub struct PathObject {
    pub path: String,
    pub linecol: Option<LineCol>,
    pub is_dir: bool,
}

/// A window to open at startup and the files to open in it.
#[derive(Debug)]
pub struct WindowPlan {
    pub info: WindowInfo,
    pub files: Vec<PathObject>,
}

/// The last component of a path as the platform reads it, if it has one.
pub uninterp spec fn file_name_of(path: Seq<char>) -> Option<Seq<char>>;

/// Relies on `std::path::Path::file_name`: the last component of the path,
/// read lossily as text, or none (a root, or a path ending in `..`). The
/// result depends on the path's text alone.
#[verifier::external_body]
fn file_name(path: &str) -> (r: Option<String>)
    ensures
        match r {
            Some(n) => file_name_of(path@) == Some(n@),
            None => file_name_of(path@) is None,
        },
{
    std::path::Path::new(path).file_name().map(|n| n.to_string_lossy().into_owned())
}

/// The name a folder is shown under: its last component, or the whole path
/// when it has none.
pub open spec fn shown_name(path: Seq<char>) -> Seq<char> {
    match file_name_of(path) {
        Some(n) => n,
        None => path,
    }
}

/// The title a workspace tab shows: the name of its folder, followed by the
/// remote host in brackets when it is not local; none without a folder.
pub open spec fn title_of(kind: WorkspaceKind, path: Option<String>) -> Option<Seq<char>> {
    match path {
        None => None,
        Some(p) => Some(
            match kind {
                WorkspaceKind::Local => shown_name(p@),
                WorkspaceKind::RemoteSsh(host) => shown_name(p@) + seq![' ', '['] + host@
                    + seq![']'],
                WorkspaceKind::RemoteWsl(host) => shown_name(p@) + seq![' ', '['] + host@
                    + seq![']'],
            },
        ),
    }
}

pub fn workspace_title(workspace: &WorkspaceDescriptor) -> (r: Option<String>)
    ensures
        match (r, title_of(workspace.kind, workspace.path)) {
            (Some(t), Some(u)) => t@ == u,
            (None, None) => true,
            _ => false,
        },
{
    match &workspace.path {
        None => None,
        Some(p) => {
            let dir = match file_name(p.as_str()) {
                Some(n) => n,
                None => p.clone(),
            };
            match &workspace.kind {
                WorkspaceKind::Local => Some(dir),
                WorkspaceKind::RemoteSsh(host) | WorkspaceKind::RemoteWsl(host) => {
                    let mut out = dir;
                    out.append(" [");
                    out.append(host.as_str());
                    out.append("]");
                    proof {
                        reveal_strlit(" [");
                        reveal_strlit("]");
                        assert(out@ =~= shown_name(p@) + seq![' ', '['] + host@ + seq![']']);
                    }
                    Some(out)
                },
            }
        },
    }
}

impl WorkspaceDescriptor {
    /// A local workspace without a folder.
    pub fn empty() -> (r: Self)
        ensures
            r.kind is Local,
            r.path is None,
            r.last_open == 0,
    {
        WorkspaceDescriptor { kind: WorkspaceKind::Local, path: None, last_open: 0 }
    }
}

impl PathObject {
    pub fn duplicate(&self) -> (r: Self)
        ensures
            r == *self,
    {
        PathObject { path: self.path.clone(), linecol: self.linecol, is_dir: self.is_dir }
    }
}

/// The value of a run of decimal digits, if it is one and fits a `usize`.
pub open spec fn digits_value(s: Seq<char>) -> int
    decreases s.len(),
{
    if s.len() == 0 {
        0
    } else {
        digits_value(s.drop_last()) * 10 + (s.last() as int - '0' as int)
    }
}

pub open spec fn is_number(s: Seq<char>) -> bool {
    &&& s.len() > 0
    &&& forall|i: int| 0 <= i < s.len() ==> '0' <= #[trigger] s[i] <= '9'
    &&& digits_value(s) <= usize::MAX
}

/// The position of the last ':' in `s`, or -1.
pub open spec fn last_colon(s: Seq<char>) -> int
    decreases s.len(),
{
    if s.len() == 0 {
        -1
    } else if s.last() == ':' {
        s.len() - 1
    } else {
        last_colon(s.drop_last())
    }
}

/// What follows the last ':' (all of `s` when it has none).
pub open spec fn tail_of(s: Seq<char>) -> Seq<char> {
    s.subrange(last_colon(s) + 1, s.len() as int)
}

/// What precedes the last ':' (nothing when it has none).
pub open spec fn head_of(s: Seq<char>) -> Seq<char> {
    if last_colon(s) < 0 {
        Seq::empty()
    } else {
        s.subrange(0, last_colon(s))
    }
}

/// A command-line path split from its `:line` or `:line:column` suffix;
/// a line alone opens at column 1.
pub open spec fn split_position(s: Seq<char>) -> (Seq<char>, Option<LineCol>) {
    if is_number(tail_of(s)) {
        let c = digits_value(tail_of(s)) as usize;
        if last_colon(s) >= 0 && is_number(tail_of(head_of(s))) {
            (head_of(head_of(s)), Some(LineCol { line: digits_value(tail_of(head_of(s))) as usize, column: c }))
        } else {
            (head_of(s), Some(LineCol { line: c, column: 1 }))
        }
    } else {
        (s, None)
    }
}

proof fn lemma_last_colon(s: Seq<char>)
    ensures
        -1 <= last_colon(s) < s.len(),
        last_colon(s) >= 0 ==> s[last_colon(s)] == ':',
        forall|j: int| last_colon(s) < j < s.len() ==> s[j] != ':',
    decreases s.len(),
{
    if s.len() > 0 && s.last() != ':' {
        lemma_last_colon(s.drop_last());
        assert forall|j: int| last_colon(s) < j < s.len() implies s[j] != ':' by {
            if j < s.len() - 1 {
                assert(s.drop_last()[j] == s[j]);
            }
        }
    }
}

proof fn lemma_last_colon_unique(s: Seq<char>, k: int)
    requires
        -1 <= k < s.len(),
        k >= 0 ==> s[k] == ':',
        forall|j: int| k < j < s.len() ==> s[j] != ':',
    ensures
        last_colon(s) == k,
    decreases s.len(),
{
    if s.len() > 0 && s.last() != ':' {
        lemma_last_colon_unique(s.drop_last(), k);
    }
}

/// The position just after the last ':' of `s[..end]`, or 0 when it has none.
fn find_after_last_colon(s: &str, end: usize) -> (r: usize)
    requires
        end <= s@.len(),
    ensures
        r == last_colon(s@.subrange(0, end as int)) + 1,
{
    let mut i: usize = end;
    while i > 0
        invariant
            i <= end <= s@.len(),
            forall|j: int| i <= j < end ==> s@[j] != ':',
        decreases i,
    {
        if s.get_char(i - 1) == ':' {
            proof {
                lemma_last_colon_unique(s@.subrange(0, end as int), i - 1);
            }
            return i;
        }
        i = i - 1;
    }
    proof {
        lemma_last_colon_unique(s@.subrange(0, end as int), -1);
    }
    0
}

/// Reads `s[from..to]` as a number, if it is one that fits a `usize`.
fn read_number(s: &str, from: usize, to: usize) -> (r: Option<usize>)
    requires
        from <= to <= s@.len(),
    ensures
        match r {
            Some(v) => is_number(s@.subrange(from as int, to as int)) && v == digits_value(
                s@.subrange(from as int, to as int),
            ),
            None => !is_number(s@.subrange(from as int, to as int)),
        },
{
    let ghost seg = s@.subrange(from as int, to as int);
    if from == to {
        return None;
    }
    let mut v: usize = 0;
    let mut i: usize = from;
    while i < to
        invariant
            from <= i <= to <= s@.len(),
            seg == s@.subrange(from as int, to as int),
            forall|j: int| 0 <= j < i - from ==> '0' <= #[trigger] seg[j] <= '9',
            v == digits_value(seg.subrange(0, i - from)),
        decreases to - i,
    {
        let c = s.get_char(i);
        proof {
            assert(seg.subrange(0, i - from + 1).drop_last() =~= seg.subrange(0, i - from));
        }
        proof {
            assert(seg[i - from] == c);
        }
        if c < '0' || c > '9' {
            return None;
        }
        let d = (c as u32 - '0' as u32) as usize;
        proof {
            assert(seg[i - from] == c);
            assert(seg.subrange(0, i - from + 1).last() == c);
            assert(digits_value(seg.subrange(0, i - from + 1)) == v * 10 + d);
        }
        if v > (usize::MAX - d) / 10 {
            proof {
                assert(digits_value(seg.subrange(0, i - from + 1)) > usize::MAX) by (nonlinear_arith)
                    requires
                        digits_value(seg.subrange(0, i - from + 1)) == v * 10 + d,
                        v > (usize::MAX - d) / 10,
                        0 <= d <= 9,
                ;
                lemma_digits_grow(seg, i - from + 1);
            }
            return None;
        }
        v = v * 10 + d;
        i = i + 1;
    }
    proof {
        assert(seg.subrange(0, to - from) =~= seg);
    }
    Some(v)
}

/// A longer run of digits is worth at least as much as its prefix.
proof fn lemma_digits_grow(s: Seq<char>, k: int)
    requires
        0 <= k <= s.len(),
        forall|j: int| 0 <= j < k ==> '0' <= #[trigger] s[j] <= '9',
        digits_value(s.subrange(0, k)) > usize::MAX,
    ensures
        !is_number(s),
    decreases s.len() - k,
{
    if k < s.len() {
        if forall|j: int| 0 <= j < s.len() ==> '0' <= #[trigger] s[j] <= '9' {
            assert(s.subrange(0, k + 1).drop_last() =~= s.subrange(0, k));
            assert(digits_value(s.subrange(0, k + 1)) >= digits_value(s.subrange(0, k)));
            lemma_digits_grow(s, k + 1);
        }
    } else {
        assert(s.subrange(0, k) =~= s);
    }
}

/// Splits a command-line path from its `:line` or `:line:column` suffix,
/// as used when no file or folder of that exact name exists.
pub fn split_line_column(arg: &str) -> (r: (String, Option<LineCol>))
    ensures
        (r.0@, r.1) == split_position(arg@),
{
    let n = arg.unicode_len();
    proof {
        assert(arg@.subrange(0, n as int) =~= arg@);
        lemma_last_colon(arg@);
    }
    let tail_start = find_after_last_colon(arg, n);
    proof {
        assert(arg@.subrange(tail_start as int, n as int) =~= tail_of(arg@));
    }
    match read_number(arg, tail_start, n) {
        None => (arg.to_owned(), None),
        Some(c) => {
            if tail_start == 0 {
                proof {
                    assert(head_of(arg@) =~= Seq::<char>::empty());
                    assert(tail_of(head_of(arg@)) =~= Seq::<char>::empty());
                }
                return (arg.substring_char(0, 0).to_owned(), Some(LineCol { line: c, column: 1 }));
            }
            let head_end = tail_start - 1;
            let ghost head = head_of(arg@);
            proof {
                assert(head =~= arg@.subrange(0, head_end as int));
                lemma_last_colon(head);
            }
            let tail2_start = find_after_last_colon(arg, head_end);
            proof {
                assert(arg@.subrange(tail2_start as int, head_end as int) =~= tail_of(head));
            }
            match read_number(arg, tail2_start, head_end) {
                Some(l) => {
                    let end2: usize = if tail2_start == 0 {
                        0
                    } else {
                        tail2_start - 1
                    };
                    proof {
                        assert(arg@.subrange(0, end2 as int) =~= head_of(head));
                    }
                    (arg.substring_char(0, end2).to_owned(), Some(LineCol { line: l, column: c }))
                },
                None => (arg.substring_char(0, head_end).to_owned(), Some(LineCol { line: c, column: 1 })),
            }
        },
    }
}

/// The offset between a new window and the one it is derived from.
pub const WINDOW_OFFSET: i32 = 50;

/// The size of a window when nothing else is known.
pub const DEFAULT_WIDTH: u32 = 800;

pub const DEFAULT_HEIGHT: u32 = 600;

/// A coordinate moved by the window offset, stopping at the largest value.
pub open spec fn shifted(v: i32) -> i32 {
    if v > i32::MAX - WINDOW_OFFSET {
        i32::MAX
    } else {
        (v + WINDOW_OFFSET) as i32
    }
}

pub open spec fn shifted_by(v: i32, n: nat) -> i32
    decreases n,
{
    if n == 0 {
        v
    } else {
        shifted(shifted_by(v, (n - 1) as nat))
    }
}

pub fn shift(v: i32) -> (r: i32)
    ensures
        r == shifted(v),
{
    if v > i32::MAX - WINDOW_OFFSET {
        i32::MAX
    } else {
        v + WINDOW_OFFSET
    }
}

pub open spec fn default_size() -> Size {
    Size { width: DEFAULT_WIDTH, height: DEFAULT_HEIGHT }
}

/// The size and position of a new window: the active window's size, moved
/// by the offset; else the last saved window's; else the default size.
pub open spec fn new_window_placement(active: Option<(Size, Point)>, saved: Option<(Size, Point)>) -> (Size, Point) {
    match active {
        Some((s, p)) => (s, Point { x: shifted(p.x), y: shifted(p.y) }),
        None => match saved {
            Some(sp) => sp,
            None => (default_size(), Point { x: 0, y: 0 }),
        },
    }
}

pub fn new_window_geometry(active: Option<(Size, Point)>, saved: Option<(Size, Point)>) -> (r: (Size, Point))
    ensures
        r == new_window_placement(active, saved),
{
    match active {
        Some((s, p)) => (s, Point { x: shift(p.x), y: shift(p.y) }),
        None => match saved {
            Some(sp) => sp,
            None => (Size { width: DEFAULT_WIDTH, height: DEFAULT_HEIGHT }, Point { x: 0, y: 0 }),
        },
    }
}


/// The folders among the paths, in order.
pub open spec fn dirs_of(paths: Seq<PathObject>) -> Seq<PathObject>
    decreases paths.len(),
{
    if paths.len() == 0 {
        Seq::empty()
    } else if paths.last().is_dir {
        dirs_of(paths.drop_last()).push(paths.last())
    } else {
        dirs_of(paths.drop_last())
    }
}

/// The files among the paths, in order.
pub open spec fn files_of(paths: Seq<PathObject>) -> Seq<PathObject>
    decreases paths.len(),
{
    if paths.len() == 0 {
        Seq::empty()
    } else if !paths.last().is_dir {
        files_of(paths.drop_last()).push(paths.last())
    } else {
        files_of(paths.drop_last())
    }
}

/// The size and position new windows start from: those of the last window
/// that was open, or the default size at the origin.
pub open spec fn base_placement(last: Option<WindowInfo>) -> (Size, Point) {
    match last {
        Some(w) => (w.size, w.pos),
        None => (default_size(), Point { x: 0, y: 0 }),
    }
}

/// The window opened for the `i`-th folder named at startup.
pub open spec fn folder_window_ok(plan: WindowPlan, dir: PathObject, base: (Size, Point), i: nat) -> bool {
    &&& plan.info.size == base.0
    &&& plan.info.pos == Point { x: shifted_by(base.1.x, i), y: shifted_by(base.1.y, i) }
    &&& !plan.info.maximised
    &&& plan.info.tabs.active_tab == 0
    &&& plan.info.tabs.workspaces@.len() == 1
    &&& plan.info.tabs.workspaces@[0].kind is Local
    &&& plan.info.tabs.workspaces@[0].path == Some(dir.path)
    &&& plan.info.tabs.workspaces@[0].last_open == 0
}

/// Splits the paths into folders and files, keeping their order.
pub fn partition_paths(paths: &Vec<PathObject>) -> (r: (Vec<PathObject>, Vec<PathObject>))
    ensures
        r.0@ == dirs_of(paths@),
        r.1@ == files_of(paths@),
{
    let mut dirs: Vec<PathObject> = Vec::new();
    let mut files: Vec<PathObject> = Vec::new();
    let mut i: usize = 0;
    while i < paths.len()
        invariant
            i <= paths@.len(),
            dirs@ == dirs_of(paths@.subrange(0, i as int)),
            files@ == files_of(paths@.subrange(0, i as int)),
        decreases paths@.len() - i,
    {
        proof {
            assert(paths@.subrange(0, i + 1).drop_last() =~= paths@.subrange(0, i as int));
        }
        let p = paths[i].duplicate();
        if p.is_dir {
            dirs.push(p);
        } else {
            files.push(p);
        }
        i = i + 1;
    }
    proof {
        assert(paths@.subrange(0, i as int) =~= paths@);
    }
    (dirs, files)
}

/// The windows a startup opens for these paths, saved session and last
/// window (see `plan_startup`).
pub open spec fn startup_plan(paths: Seq<PathObject>, saved: Option<AppInfo>, last: Option<WindowInfo>, r: Seq<WindowPlan>) -> bool {
    let dirs = dirs_of(paths);
    let files = files_of(paths);
    let base = base_placement(last);
    let restore = dirs.len() == 0 && files.len() == 0 && saved is Some
        && saved.unwrap().windows@.len() > 0;
    &&& dirs.len() > 0 ==> {
        &&& r.len() == dirs.len()
        &&& forall|i: int|
            0 <= i < dirs.len() ==> folder_window_ok(#[trigger] r[i], dirs[i], base, i as nat)
        &&& r[0].files@ == files
        &&& forall|i: int| 1 <= i < dirs.len() ==> #[trigger] r[i].files@.len() == 0
    }
    &&& restore ==> {
        &&& r.len() == saved.unwrap().windows@.len()
        &&& forall|i: int|
            0 <= i < r.len() ==> #[trigger] r[i].info == saved.unwrap().windows@[i]
                && r[i].files@.len() == 0
    }
    &&& dirs.len() == 0 && !restore ==> {
        &&& r.len() == 1
        &&& r[0].info.size == base.0
        &&& r[0].info.pos == base.1
        &&& r[0].info.maximised == (last is Some && last.unwrap().maximised)
        &&& r[0].info.tabs.active_tab == 0
        &&& r[0].info.tabs.workspaces@.len() == 1
        &&& r[0].info.tabs.workspaces@[0].kind is Local
        &&& r[0].info.tabs.workspaces@[0].path is None
        &&& r[0].info.tabs.workspaces@[0].last_open == 0
        &&& r[0].files@ == files
    }
}

/// A launch that found no running instance and names files but no folder
/// opens exactly one window, and it opens those files.
pub proof fn lemma_named_files_open(paths: Seq<PathObject>, saved: Option<AppInfo>, last: Option<WindowInfo>, r: Seq<WindowPlan>)
    requires
        startup_plan(paths, saved, last, r),
        dirs_of(paths).len() == 0,
        files_of(paths).len() > 0,
    ensures
        r.len() == 1,
        r[0].files@ == files_of(paths),
        r[0].info.tabs.workspaces@[0].path is None,
{
}

/// The windows to open at startup. Each folder named on the command line
/// gets a window, the first of them also opening the named files, each
/// window moved by the offset from the one before. With files but no
/// folders, one window without a folder opens the files. With neither, the
/// saved session's windows come back. When that leaves no window, one
/// window opens at the last window's place (or the default) with an empty
/// workspace, opening the named files.
pub fn plan_startup(paths: &Vec<PathObject>, saved: Option<AppInfo>, last: Option<WindowInfo>) -> (r:
    Vec<WindowPlan>)
    ensures
        startup_plan(paths@, saved, last, r@),
{
    let (dirs, files) = partition_paths(paths);
    let (size, pos, maximised) = match &last {
        Some(w) => (w.size, w.pos, w.maximised),
        None => (Size { width: DEFAULT_WIDTH, height: DEFAULT_HEIGHT }, Point { x: 0, y: 0 }, false),
    };
    let mut plans: Vec<WindowPlan> = Vec::new();
    if dirs.len() > 0 {
        let ghost base = base_placement(last);
        let mut p = pos;
        let mut j: usize = 0;
        let mut first_files: Option<Vec<PathObject>> = Some(files);
        while j < dirs.len()
            invariant
                base == (size, pos),
                j <= dirs@.len(),
                plans@.len() == j,
                p == (Point { x: shifted_by(pos.x, j as nat), y: shifted_by(pos.y, j as nat) }),
                forall|i: int| 0 <= i < j ==> folder_window_ok(#[trigger] plans@[i], dirs@[i], base, i as nat),
                j == 0 ==> (first_files is Some && first_files.unwrap()@ == files_of(paths@)),
                j > 0 ==> first_files is None && plans@[0].files@ == files_of(paths@),
                forall|i: int| 1 <= i < j ==> #[trigger] plans@[i].files@.len() == 0,
            decreases dirs@.len() - j,
        {
            let ws = WorkspaceDescriptor {
                kind: WorkspaceKind::Local,
                path: Some(dirs[j].path.clone()),
                last_open: 0,
            };
            let mut workspaces: Vec<WorkspaceDescriptor> = Vec::new();
            workspaces.push(ws);
            let info = WindowInfo {
                size,
                pos: p,
                maximised: false,
                tabs: TabsInfo { active_tab: 0, workspaces },
            };
            let these = match first_files {
                Some(f) => f,
                None => Vec::new(),
            };
            first_files = None;
            plans.push(WindowPlan { info, files: these });
            p = Point { x: shift(p.x), y: shift(p.y) };
            j = j + 1;
        }
        return plans;
    }
    if files.len() == 0 {
        match saved {
            Some(app) => {
                let ghost orig = app.windows@;
                let mut ws = app.windows;
                let n = ws.len();
                let mut j: usize = 0;
                while j < n
                    invariant
                        n == orig.len(),
                        j <= n,
                        ws@ == orig.subrange(j as int, n as int),
                        plans@.len() == j,
                        forall|i: int|
                            0 <= i < j ==> #[trigger] plans@[i].info == orig[i] && plans@[i].files@.len() == 0,
                    decreases n - j,
                {
                    let info = ws.remove(0);
                    plans.push(WindowPlan { info, files: Vec::new() });
                    proof {
                        assert(ws@ =~= orig.subrange(j + 1, n as int));
                    }
                    j = j + 1;
                }
                if n > 0 {
                    return plans;
                }
            },
            None => {},
        }
    }
    let mut workspaces: Vec<WorkspaceDescriptor> = Vec::new();
    workspaces.push(WorkspaceDescriptor::empty());
    let info = WindowInfo { size, pos, maximised, tabs: TabsInfo { active_tab: 0, workspaces } };
    let mut single: Vec<WindowPlan> = Vec::new();
    single.push(WindowPlan { info, files });
    single
}


impl TabsInfo {
    /// Moves the workspace tab at `from` so that it lands before the tab
    /// that stood at `to` (`to == len` puts it last), and makes it active.
    pub fn move_tab(&mut self, from: usize, to: usize)
        requires
            from < old(self).workspaces@.len(),
            to <= old(self).workspaces@.len(),
        ensures
            final(self).workspaces@ == moved(old(self).workspaces@, from as int, to as int),
            final(self).active_tab as int == insertion_index(from as int, to as int),
    {
        let tab = self.workspaces.remove(from);
        let at: usize = if to > from {
            to - 1
        } else {
            to
        };
        self.workspaces.insert(at, tab);
        self.active_tab = at;
    }
}

} // verus!
