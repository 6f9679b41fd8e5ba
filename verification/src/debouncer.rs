//! Turning the events of the file system into changes worth syncing.

use std::path::PathBuf;
use std::time::Instant;

use vstd::prelude::*;

use crate::echo::{consumed, is_echo, recorded, EchoMap};
use crate::path::{copy_path, same_path};

verus! {

/// For how many nanoseconds after a file was created the end of the first
/// write to it is taken for a part of that.
pub const DEBOUNCE_TIME: u128 = 500_000;

/// A change to a file or a directory.
#[derive(Debug)]
pub enum VfsEvent {
    Create(PathBuf),
    Delete(PathBuf),
    Write(PathBuf),
}

/// The path that changed.
pub open spec fn changed_path(event: VfsEvent) -> PathBuf {
    match event {
        VfsEvent::Create(path) => path,
        VfsEvent::Delete(path) => path,
        VfsEvent::Write(path) => path,
    }
}

impl VfsEvent {
    /// The path that changed.
    pub fn path(&self) -> (res: &PathBuf)
        ensures
            *res == changed_path(*self),
    {
        match self {
            VfsEvent::Create(path) => path,
            VfsEvent::Delete(path) => path,
            VfsEvent::Write(path) => path,
        }
    }
}

/// The systems that report events in ways of their own.
#[derive(Debug, Clone, Copy, PartialEq, Eq, Structural)]
pub enum Platform {
    Linux,
    MacOs,
    Windows,
}

/// Which end of a rename an event tells of.
#[derive(Debug, Clone, Copy, PartialEq, Eq, Structural)]
pub enum RenameMode {
    From,
    To,
    Other,
}

/// What about a file was modified.
#[derive(Debug, Clone, Copy, PartialEq, Eq, Structural)]
pub enum ModifyKind {
    /// Its name.
    Name(RenameMode),
    /// What it holds.
    Content,
    /// Anything else about its data.
    OtherData,
    /// Anything but its name and its data.
    Other,
}

/// What the file system tells of.
#[derive(Debug, Clone, Copy, PartialEq, Eq, Structural)]
pub enum EventKind {
    Create,
    Remove,
    Modify(ModifyKind),
    /// A file that was open for writing was closed.
    CloseWrite,
    Other,
}

/// An event of the file system.
#[derive(Debug)]
pub struct FileEvent {
    pub kind: EventKind,
    /// The paths that the event is about.
    pub paths: Vec<PathBuf>,
    /// When it happened, in nanoseconds.
    pub time: u128,
    /// Whether there is anything at the first path by now.
    pub exists: bool,
}

/// The file that was created last.
#[derive(Debug)]
pub struct DebounceContext {
    /// When it was created, in nanoseconds.
    pub time: u128,
    pub path: PathBuf,
}

/// What to make of an event on macOS.
pub open spec fn debounced_on_macos(event: FileEvent) -> Option<VfsEvent> {
    let path = event.paths@[0];
    match event.kind {
        EventKind::Create => if event.exists {
            Some(VfsEvent::Create(path))
        } else {
            None
        },
        EventKind::Remove => Some(VfsEvent::Delete(path)),
        EventKind::Modify(ModifyKind::Name(_)) => if event.exists {
            Some(VfsEvent::Create(path))
        } else {
            Some(VfsEvent::Delete(path))
        },
        EventKind::Modify(ModifyKind::Content) => Some(VfsEvent::Write(path)),
        _ => None,
    }
}

/// The end of the first write to the file that was just created.
pub open spec fn completes_creation(event: FileEvent, context: DebounceContext) -> bool {
    event.time - context.time < DEBOUNCE_TIME && event.paths@[0] == context.path
}

/// What to make of an event on Linux.
pub open spec fn debounced_on_linux(event: FileEvent, context: DebounceContext) -> Option<
    VfsEvent,
> {
    let path = event.paths@[0];
    match event.kind {
        EventKind::Create => Some(VfsEvent::Create(path)),
        EventKind::Remove => Some(VfsEvent::Delete(path)),
        EventKind::Modify(ModifyKind::Name(RenameMode::From)) => Some(VfsEvent::Delete(path)),
        EventKind::Modify(ModifyKind::Name(RenameMode::To)) => Some(VfsEvent::Create(path)),
        EventKind::CloseWrite => if completes_creation(event, context) {
            None
        } else {
            Some(VfsEvent::Write(path))
        },
        _ => None,
    }
}

/// What to make of an event on Windows.
pub open spec fn debounced_on_windows(event: FileEvent) -> Option<VfsEvent> {
    let path = event.paths@[0];
    match event.kind {
        EventKind::Create => Some(VfsEvent::Create(path)),
        EventKind::Remove => Some(VfsEvent::Delete(path)),
        EventKind::Modify(_) => Some(VfsEvent::Write(path)),
        _ => None,
    }
}

/// What to make of an event.
pub open spec fn debounced(
    platform: Platform,
    event: FileEvent,
    context: DebounceContext,
) -> Option<VfsEvent> {
    match platform {
        Platform::Linux => debounced_on_linux(event, context),
        Platform::MacOs => debounced_on_macos(event),
        Platform::Windows => debounced_on_windows(event),
    }
}

/// The file that was created last, once the event happened.
pub open spec fn context_after(
    platform: Platform,
    event: FileEvent,
    context: DebounceContext,
) -> DebounceContext {
    if platform == Platform::Linux && event.kind == EventKind::Create {
        DebounceContext { time: event.time, path: event.paths@[0] }
    } else {
        context
    }
}

/// The event is of a kind that is told from others by what happened to its
/// first path.
pub open spec fn concerns_path(platform: Platform, kind: EventKind) -> bool {
    match kind {
        EventKind::Create => true,
        EventKind::Remove => true,
        EventKind::Modify(ModifyKind::Name(RenameMode::Other)) => platform != Platform::Linux,
        EventKind::Modify(ModifyKind::Name(_)) => true,
        EventKind::Modify(ModifyKind::Content) => platform != Platform::Linux,
        EventKind::Modify(_) => platform == Platform::Windows,
        EventKind::CloseWrite => platform == Platform::Linux,
        EventKind::Other => false,
    }
}

/// The event has a path, if it is of a kind that concerns one.
pub open spec fn has_path(platform: Platform, event: FileEvent) -> bool {
    concerns_path(platform, event.kind) ==> event.paths@.len() > 0
}

/// Tells whether an event has a path, if it is of a kind that concerns one.
pub fn names_path(platform: Platform, event: &FileEvent) -> (res: bool)
    ensures
        res == has_path(platform, *event),
{
    let concerned = match event.kind {
        EventKind::Create => true,
        EventKind::Remove => true,
        EventKind::Modify(kind) => match kind {
            ModifyKind::Name(mode) => mode != RenameMode::Other || platform != Platform::Linux,
            ModifyKind::Content => platform != Platform::Linux,
            _ => platform == Platform::Windows,
        },
        EventKind::CloseWrite => platform == Platform::Linux,
        EventKind::Other => false,
    };
    !concerned || event.paths.len() > 0
}

/// Tells what to make of an event on macOS.
fn debounce_on_macos(event: &FileEvent) -> (res: Option<VfsEvent>)
    requires
        has_path(Platform::MacOs, *event),
    ensures
        res == debounced_on_macos(*event),
{
    match event.kind {
        EventKind::Create => {
            if event.exists {
                Some(VfsEvent::Create(copy_path(&event.paths[0])))
            } else {
                None
            }
        },
        EventKind::Remove => Some(VfsEvent::Delete(copy_path(&event.paths[0]))),
        EventKind::Modify(kind) => match kind {
            ModifyKind::Name(_) => {
                let path = copy_path(&event.paths[0]);
                if event.exists {
                    Some(VfsEvent::Create(path))
                } else {
                    Some(VfsEvent::Delete(path))
                }
            },
            ModifyKind::Content => Some(VfsEvent::Write(copy_path(&event.paths[0]))),
            _ => None,
        },
        _ => None,
    }
}

/// Tells what to make of an event on Linux.
fn debounce_on_linux(event: &FileEvent, context: &mut DebounceContext) -> (res: Option<VfsEvent>)
    requires
        has_path(Platform::Linux, *event),
    ensures
        res == debounced_on_linux(*event, *old(context)),
        *final(context) == context_after(Platform::Linux, *event, *old(context)),
{
    match event.kind {
        EventKind::Create => {
            let path = copy_path(&event.paths[0]);
            context.time = event.time;
            context.path = copy_path(&path);
            Some(VfsEvent::Create(path))
        },
        EventKind::Remove => Some(VfsEvent::Delete(copy_path(&event.paths[0]))),
        EventKind::Modify(ModifyKind::Name(mode)) => match mode {
            RenameMode::From => Some(VfsEvent::Delete(copy_path(&event.paths[0]))),
            RenameMode::To => Some(VfsEvent::Create(copy_path(&event.paths[0]))),
            RenameMode::Other => None,
        },
        EventKind::CloseWrite => {
            let path = copy_path(&event.paths[0]);
            let recent = event.time < context.time || event.time - context.time < DEBOUNCE_TIME;
            if recent && same_path(&path, &context.path) {
                return None;
            }
            Some(VfsEvent::Write(path))
        },
        _ => None,
    }
}

/// Tells what to make of an event on Windows.
fn debounce_on_windows(event: &FileEvent) -> (res: Option<VfsEvent>)
    requires
        has_path(Platform::Windows, *event),
    ensures
        res == debounced_on_windows(*event),
{
    match event.kind {
        EventKind::Create => Some(VfsEvent::Create(copy_path(&event.paths[0]))),
        EventKind::Remove => Some(VfsEvent::Delete(copy_path(&event.paths[0]))),
        EventKind::Modify(_) => Some(VfsEvent::Write(copy_path(&event.paths[0]))),
        _ => None,
    }
}

/// Tells what to make of an event.
pub fn debounce(platform: Platform, event: &FileEvent, context: &mut DebounceContext) -> (res:
    Option<VfsEvent>)
    requires
        has_path(platform, *event),
    ensures
        res == debounced(platform, *event, *old(context)),
        *final(context) == context_after(platform, *event, *old(context)),
{
    match platform {
        Platform::Linux => debounce_on_linux(event, context),
        Platform::MacOs => debounce_on_macos(event),
        Platform::Windows => debounce_on_windows(event),
    }
}

/// Passes on the changes that others make, and keeps back the echoes of our
/// own writes.
#[derive(Debug)]
pub struct VfsDebouncer {
    platform: Platform,
    is_paused: bool,
    echoes: EchoMap,
    context: DebounceContext,
}

/// The state of a [`VfsDebouncer`].
pub struct DebouncerView {
    pub platform: Platform,
    pub is_paused: bool,
    /// When we wrote to which path.
    pub writes: Map<PathBuf, u128>,
    pub context: DebounceContext,
}

/// What is passed on of an event that arrives at `now`.
pub open spec fn passed_on(state: DebouncerView, event: FileEvent, now: u128) -> Option<VfsEvent> {
    match debounced(state.platform, event, state.context) {
        Some(change) => if is_echo(state.writes, changed_path(change), now) {
            None
        } else {
            Some(change)
        },
        None => None,
    }
}

/// The state after an event that arrives at `now`.
pub open spec fn state_after(state: DebouncerView, event: FileEvent, now: u128) -> DebouncerView {
    DebouncerView {
        context: context_after(state.platform, event, state.context),
        writes: match debounced(state.platform, event, state.context) {
            Some(change) => consumed(state.writes, changed_path(change), now),
            None => state.writes,
        },
        ..state
    }
}

/// The state after events that arrive one after the other.
pub open spec fn state_after_all(
    state: DebouncerView,
    events: Seq<FileEvent>,
    times: Seq<u128>,
) -> DebouncerView
    decreases events.len(),
{
    if events.len() == 0 {
        state
    } else {
        state_after(
            state_after_all(state, events.drop_last(), times.drop_last()),
            events.last(),
            times.last(),
        )
    }
}

/// What is passed on of events that arrive one after the other, in order.
pub open spec fn all_passed_on(
    state: DebouncerView,
    events: Seq<FileEvent>,
    times: Seq<u128>,
) -> Seq<VfsEvent>
    decreases events.len(),
{
    if events.len() == 0 {
        Seq::empty()
    } else {
        let before = all_passed_on(state, events.drop_last(), times.drop_last());
        let current = state_after_all(state, events.drop_last(), times.drop_last());
        match passed_on(current, events.last(), times.last()) {
            Some(change) => before.push(change),
            None => before,
        }
    }
}

impl View for VfsDebouncer {
    type V = DebouncerView;

    closed spec fn view(&self) -> DebouncerView {
        DebouncerView {
            platform: self.platform,
            is_paused: self.is_paused,
            writes: self.echoes@,
            context: self.context,
        }
    }
}

impl VfsDebouncer {
    /// No write is kept twice.
    pub closed spec fn well_formed(&self) -> bool {
        self.echoes.well_formed()
    }

    /// The point in time that the times of our writes are counted from.
    pub closed spec fn started(&self) -> Instant {
        self.echoes.started()
    }

    /// A debouncer that is not paused and knows of no write yet.
    pub fn new(platform: Platform, context: DebounceContext) -> (res: VfsDebouncer)
        ensures
            res.well_formed(),
            res@ == (DebouncerView { platform, is_paused: false, writes: Map::empty(), context }),
    {
        VfsDebouncer { platform, is_paused: false, echoes: EchoMap::default(), context }
    }

    /// Marks `path` as written by us at `now`, so that the event it triggers
    /// gets skipped instead of being synced back to the client.
    pub fn record_at(&mut self, path: &PathBuf, now: u128)
        requires
            old(self).well_formed(),
        ensures
            final(self).well_formed(),
            final(self).started() == old(self).started(),
            final(self)@ == (DebouncerView {
                writes: recorded(old(self)@.writes, *path, now),
                ..old(self)@
            }),
    {
        self.echoes.record_at(path, now);
    }

    /// Marks `path` as written by us just now, so that the event it triggers
    /// gets skipped instead of being synced back to the client.
    pub fn record(&mut self, path: &PathBuf)
        requires
            old(self).well_formed(),
        ensures
            final(self).well_formed(),
            final(self).started() == old(self).started(),
            exists|now: u128|
                final(self)@ == (DebouncerView {
                    writes: #[trigger] recorded(old(self)@.writes, *path, now),
                    ..old(self)@
                }),
    {
        let now = self.echoes.age();
        self.record_at(path, now);
    }

    /// Ignores events from now on.
    pub fn pause(&mut self)
        ensures
            final(self).well_formed() == old(self).well_formed(),
            final(self).started() == old(self).started(),
            final(self)@ == (DebouncerView { is_paused: true, ..old(self)@ }),
    {
        self.is_paused = true;
    }

    /// Heeds events again.
    pub fn resume(&mut self)
        ensures
            final(self).well_formed() == old(self).well_formed(),
            final(self).started() == old(self).started(),
            final(self)@ == (DebouncerView { is_paused: false, ..old(self)@ }),
    {
        self.is_paused = false;
    }

    /// Tells whether events are ignored.
    pub fn is_paused(&self) -> (res: bool)
        ensures
            res == self@.is_paused,
    {
        self.is_paused
    }

    /// Tells what to pass on of an event that arrives at `now`.
    fn handle_at(&mut self, event: &FileEvent, now: u128) -> (res: Option<VfsEvent>)
        requires
            old(self).well_formed(),
            has_path(old(self)@.platform, *event),
        ensures
            final(self).well_formed(),
            final(self).started() == old(self).started(),
            res == passed_on(old(self)@, *event, now),
            final(self)@ == state_after(old(self)@, *event, now),
    {
        match debounce(self.platform, event, &mut self.context) {
            Some(change) => {
                if self.echoes.consume_at(change.path(), now) {
                    None
                } else {
                    Some(change)
                }
            },
            None => None,
        }
    }

    /// Tells what to pass on of events that arrive together, each with the time
    /// at which it is looked at. While paused, that is nothing.
    pub fn handle_batch_at(&mut self, events: &Vec<FileEvent>, times: &Vec<u128>) -> (res: Vec<
        VfsEvent,
    >)
        requires
            old(self).well_formed(),
            times.len() == events.len(),
            forall|i: int|
                0 <= i < events.len() ==> has_path(old(self)@.platform, #[trigger] events[i]),
        ensures
            final(self).well_formed(),
            final(self).started() == old(self).started(),
            old(self)@.is_paused ==> final(self)@ == old(self)@ && res.len() == 0,
            !old(self)@.is_paused ==> {
                &&& final(self)@ == state_after_all(old(self)@, events@, times@)
                &&& res@ == all_passed_on(old(self)@, events@, times@)
            },
    {
        let mut res: Vec<VfsEvent> = Vec::new();
        if self.is_paused {
            return res;
        }
        let ghost start = self@;
        let mut i: usize = 0;
        assert(events@.take(0) =~= Seq::empty());
        while i < events.len()
            invariant
                0 <= i <= events.len(),
                times.len() == events.len(),
                self.well_formed(),
                self.started() == old(self).started(),
                self@.platform == start.platform,
                forall|k: int|
                    0 <= k < events.len() ==> has_path(start.platform, #[trigger] events[k]),
                self@ == state_after_all(start, events@.take(i as int), times@.take(i as int)),
                res@ == all_passed_on(start, events@.take(i as int), times@.take(i as int)),
            decreases events.len() - i,
        {
            proof {
                assert(events@.take(i + 1).drop_last() =~= events@.take(i as int));
                assert(times@.take(i + 1).drop_last() =~= times@.take(i as int));
            }
            if let Some(change) = self.handle_at(&events[i], times[i]) {
                res.push(change);
            }
            i = i + 1;
        }
        assert(events@.take(i as int) =~= events@);
        assert(times@.take(i as int) =~= times@);
        res
    }

    /// Tells what to pass on of events that arrive together, each looked at as
    /// its turn comes. While paused, that is nothing.
    pub fn handle_batch(&mut self, events: &Vec<FileEvent>) -> (res: Vec<VfsEvent>)
        requires
            old(self).well_formed(),
            forall|i: int|
                0 <= i < events.len() ==> has_path(old(self)@.platform, #[trigger] events[i]),
        ensures
            final(self).well_formed(),
            final(self).started() == old(self).started(),
            old(self)@.is_paused ==> final(self)@ == old(self)@ && res.len() == 0,
            !old(self)@.is_paused ==> exists|times: Seq<u128>|
                times.len() == events.len() && final(self)@ == #[trigger] state_after_all(
                    old(self)@,
                    events@,
                    times,
                ) && res@ == all_passed_on(old(self)@, events@, times),
    {
        let mut res: Vec<VfsEvent> = Vec::new();
        if self.is_paused {
            return res;
        }
        let ghost start = self@;
        let ghost mut times: Seq<u128> = Seq::empty();
        let mut i: usize = 0;
        assert(events@.take(0) =~= Seq::empty());
        while i < events.len()
            invariant
                0 <= i <= events.len(),
                times.len() == i,
                self.well_formed(),
                self.started() == old(self).started(),
                self@.platform == start.platform,
                forall|k: int|
                    0 <= k < events.len() ==> has_path(start.platform, #[trigger] events[k]),
                self@ == state_after_all(start, events@.take(i as int), times),
                res@ == all_passed_on(start, events@.take(i as int), times),
            decreases events.len() - i,
        {
            let now = self.echoes.age();
            proof {
                assert(events@.take(i + 1).drop_last() =~= events@.take(i as int));
                assert(times.push(now).drop_last() =~= times);
                times = times.push(now);
            }
            if let Some(change) = self.handle_at(&events[i], now) {
                res.push(change);
            }
            i = i + 1;
        }
        assert(events@.take(i as int) =~= events@);
        res
    }
}

/// Why watching a path failed.
#[derive(Debug, Clone, Copy, PartialEq, Eq, Structural)]
pub enum WatchError {
    /// The file system refused.
    Io,
    PathNotFound,
    WatchNotFound,
    Other,
}

/// How a failure is reported.
#[derive(Debug, Clone, Copy, PartialEq, Eq, Structural)]
pub enum ReportedError {
    /// As what the file system said.
    Unchanged,
    NotFound,
    Other,
}

/// How a failure to watch a path is reported.
pub fn map_error(err: WatchError) -> (res: ReportedError)
    ensures
        res == ReportedError::Unchanged <==> err == WatchError::Io,
        res == ReportedError::NotFound <==> err == WatchError::PathNotFound || err
            == WatchError::WatchNotFound,
{
    match err {
        WatchError::Io => ReportedError::Unchanged,
        WatchError::PathNotFound => ReportedError::NotFound,
        WatchError::WatchNotFound => ReportedError::NotFound,
        WatchError::Other => ReportedError::Other,
    }
}

} // verus!
