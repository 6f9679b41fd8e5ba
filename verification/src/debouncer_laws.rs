//! What is passed on of the events of the file system, and what is not.

use std::path::PathBuf;

use vstd::prelude::*;

use crate::debouncer::{
    all_passed_on, changed_path, context_after, debounced, has_path, passed_on, state_after,
    state_after_all, DebounceContext, DebouncerView, EventKind, FileEvent, ModifyKind, Platform,
    RenameMode, VfsEvent, DEBOUNCE_TIME,
};
use crate::echo::{fresh, is_echo, recorded, SYNCBACK_DEBOUNCE_TIME};

verus! {

/// A change is about the path it names.
pub proof fn change_names_its_path(path: PathBuf)
    ensures
        changed_path(VfsEvent::Create(path)) == path,
        changed_path(VfsEvent::Delete(path)) == path,
        changed_path(VfsEvent::Write(path)) == path,
{
}

/// A change is always about the first path of the event it comes from.
pub proof fn change_is_about_first_path(
    platform: Platform,
    event: FileEvent,
    context: DebounceContext,
)
    ensures
        debounced(platform, event, context) matches Some(change) ==> changed_path(change)
            == event.paths@[0],
{
}

/// A change is kept back if and only if it is the echo of one of our own
/// writes. Everything else that happens to a path is passed on.
pub proof fn only_echoes_are_kept_back(state: DebouncerView, event: FileEvent, now: u128)
    ensures
        passed_on(state, event, now) != debounced(state.platform, event, state.context) <==> (
        debounced(state.platform, event, state.context) is Some && is_echo(
            state.writes,
            event.paths@[0],
            now,
        )),
        !state.writes.contains_key(event.paths@[0]) ==> passed_on(state, event, now) == debounced(
            state.platform,
            event,
            state.context,
        ),
{
}

/// The first change to a path that we wrote to is kept back if it comes in
/// time. The next one is passed on whenever it comes.
pub proof fn echo_is_kept_back_once(
    state: DebouncerView,
    path: PathBuf,
    written: u128,
    first: FileEvent,
    now: u128,
    second: FileEvent,
    later: u128,
)
    requires
        first.paths@[0] == path,
        second.paths@[0] == path,
        debounced(state.platform, first, state.context) is Some,
        fresh(written, now),
    ensures
        ({
            let marked = DebouncerView { writes: recorded(state.writes, path, written), ..state };
            let next = state_after(marked, first, now);
            &&& passed_on(marked, first, now) is None
            &&& passed_on(next, second, later) == debounced(
                next.platform,
                second,
                next.context,
            )
        }),
{
}

/// On Linux, the end of the write that comes with creating a file is not
/// reported again, but one that comes later is.
pub proof fn creation_is_reported_once(
    created: FileEvent,
    closed: FileEvent,
    context: DebounceContext,
)
    requires
        created.kind == EventKind::Create,
        closed.kind == EventKind::CloseWrite,
        closed.paths@[0] == created.paths@[0],
    ensures
        ({
            let path = created.paths@[0];
            let next = context_after(Platform::Linux, created, context);
            &&& debounced(Platform::Linux, created, context) == Some(VfsEvent::Create(path))
            &&& debounced(Platform::Linux, closed, next) == if closed.time - created.time
                < DEBOUNCE_TIME {
                None
            } else {
                Some(VfsEvent::Write(path))
            }
        }),
{
}

/// Events never change the platform or whether they are heeded.
pub proof fn events_keep_mode(state: DebouncerView, events: Seq<FileEvent>, times: Seq<u128>)
    ensures
        state_after_all(state, events, times).platform == state.platform,
        state_after_all(state, events, times).is_paused == state.is_paused,
    decreases events.len(),
{
    if events.len() > 0 {
        events_keep_mode(state, events.drop_last(), times.drop_last());
    }
}

/// No more is passed on than happened.
pub proof fn nothing_is_made_up(state: DebouncerView, events: Seq<FileEvent>, times: Seq<u128>)
    ensures
        all_passed_on(state, events, times).len() <= events.len(),
        forall|k: int|
            0 <= k < all_passed_on(state, events, times).len() ==> exists|i: int|
                0 <= i < events.len() && changed_path(
                    #[trigger] all_passed_on(state, events, times)[k],
                ) == (#[trigger] events[i]).paths@[0],
    decreases events.len(),
{
    if events.len() > 0 {
        let init = events.drop_last();
        nothing_is_made_up(state, init, times.drop_last());
        let before = all_passed_on(state, init, times.drop_last());
        let all = all_passed_on(state, events, times);
        assert forall|k: int| 0 <= k < all.len() implies exists|i: int|
            0 <= i < events.len() && changed_path(#[trigger] all[k]) == (
            #[trigger] events[i]).paths@[0] by {
            if k < before.len() {
                let i = choose|i: int|
                    0 <= i < init.len() && changed_path(before[k]) == (
                    #[trigger] init[i]).paths@[0];
                assert(events[i] == init[i]);
            } else {
                assert(events[events.len() - 1] == events.last());
            }
        }
    }
}

/// Removing a file is passed on as deleting its first path, on every system and
/// whatever is at that path by now.
pub proof fn removal_is_a_deletion(platform: Platform, event: FileEvent, context: DebounceContext)
    requires
        event.kind == EventKind::Remove,
    ensures
        debounced(platform, event, context) == Some(VfsEvent::Delete(event.paths@[0])),
{
}

/// Creating a file is passed on as such. Only macOS tells of files that are
/// gone by the time it does, and those are left out.
pub proof fn creation_is_a_creation(platform: Platform, event: FileEvent, context: DebounceContext)
    requires
        event.kind == EventKind::Create,
    ensures
        platform != Platform::MacOs || event.exists ==> debounced(platform, event, context)
            == Some(VfsEvent::Create(event.paths@[0])),
        platform == Platform::MacOs && !event.exists ==> debounced(
            platform,
            event,
            context,
        ) is None,
{
}

/// A rename is a deletion at the end it leads away from and a creation at the
/// one it leads to. Linux says which end an event is about, and an event that
/// is about both tells nothing new. On macOS it shows in whether there is
/// anything at the path. Windows only tells that something was modified.
pub proof fn renaming_deletes_and_creates(
    platform: Platform,
    event: FileEvent,
    context: DebounceContext,
    mode: RenameMode,
)
    requires
        event.kind == EventKind::Modify(ModifyKind::Name(mode)),
    ensures
        ({
            let path = event.paths@[0];
            let change = debounced(platform, event, context);
            &&& platform == Platform::Linux && mode == RenameMode::From ==> change == Some(
                VfsEvent::Delete(path),
            )
            &&& platform == Platform::Linux && mode == RenameMode::To ==> change == Some(
                VfsEvent::Create(path),
            )
            &&& platform == Platform::Linux && mode == RenameMode::Other ==> change is None
            &&& platform == Platform::MacOs && event.exists ==> change == Some(
                VfsEvent::Create(path),
            )
            &&& platform == Platform::MacOs && !event.exists ==> change == Some(
                VfsEvent::Delete(path),
            )
            &&& platform == Platform::Windows ==> change == Some(VfsEvent::Write(path))
        }),
{
}

/// Any other modification is a write on Windows. On macOS only one of what the
/// file holds is, and on Linux none, as the end of the write tells of it.
pub proof fn modification_is_a_write(
    platform: Platform,
    event: FileEvent,
    context: DebounceContext,
    kind: ModifyKind,
)
    requires
        event.kind == EventKind::Modify(kind),
        !(kind is Name),
    ensures
        platform == Platform::Windows || (platform == Platform::MacOs && kind
            == ModifyKind::Content) ==> debounced(platform, event, context) == Some(
            VfsEvent::Write(event.paths@[0]),
        ),
        platform == Platform::Linux || (platform == Platform::MacOs && kind
            != ModifyKind::Content) ==> debounced(platform, event, context) is None,
{
}

/// The end of a write is a write on Linux, unless it comes less than half a
/// millisecond after the creation of the same file. The other systems do not
/// heed it.
pub proof fn end_of_write_is_a_write(
    platform: Platform,
    event: FileEvent,
    context: DebounceContext,
)
    requires
        event.kind == EventKind::CloseWrite,
    ensures
        platform == Platform::Linux && event.paths@[0] == context.path && event.time
            < context.time + 500_000 ==> debounced(platform, event, context) is None,
        platform == Platform::Linux && (event.paths@[0] != context.path || event.time
            >= context.time + 500_000) ==> debounced(platform, event, context) == Some(
            VfsEvent::Write(event.paths@[0]),
        ),
        platform != Platform::Linux ==> debounced(platform, event, context) is None,
{
}

/// Whatever else happens is no change.
pub proof fn anything_else_is_no_change(
    platform: Platform,
    event: FileEvent,
    context: DebounceContext,
)
    requires
        event.kind == EventKind::Other,
    ensures
        debounced(platform, event, context) is None,
{
}

/// Only a creation on Linux is remembered, with its time and its first path.
pub proof fn only_creations_are_remembered(
    platform: Platform,
    event: FileEvent,
    context: DebounceContext,
)
    ensures
        platform == Platform::Linux && event.kind == EventKind::Create ==> context_after(
            platform,
            event,
            context,
        ).time == event.time && context_after(platform, event, context).path == event.paths@[0],
        platform != Platform::Linux || event.kind != EventKind::Create ==> context_after(
            platform,
            event,
            context,
        ) == context,
{
}

/// An event without any path is refused exactly if one of its kind could be a
/// change if it had one.
pub proof fn changes_need_a_path(platform: Platform, event: FileEvent)
    ensures
        event.paths@.len() > 0 ==> has_path(platform, event),
        event.paths@.len() == 0 ==> (has_path(platform, event) <==> forall|
            other: FileEvent,
            context: DebounceContext,
        |
            other.kind == event.kind ==> #[trigger] debounced(platform, other, context) is None),
{
    if event.paths@.len() == 0 {
        let path = event.paths@[0];
        let present = FileEvent { kind: event.kind, paths: event.paths, time: 500_000, exists: true };
        let context = DebounceContext { time: 0, path };
        if !has_path(platform, event) {
            assert(debounced(platform, present, context) is Some);
        }
    }
}

/// What is passed on of an event is the change it stands for or nothing, and
/// nothing only if there is no change or it is an echo.
pub proof fn changes_are_passed_on_or_kept_back(
    state: DebouncerView,
    event: FileEvent,
    now: u128,
)
    ensures
        ({
            let change = debounced(state.platform, event, state.context);
            let path = event.paths@[0];
            let echo = state.writes.contains_key(path) && now < state.writes[path]
                + SYNCBACK_DEBOUNCE_TIME;
            &&& change is None ==> passed_on(state, event, now) is None
            &&& change is Some && echo ==> passed_on(state, event, now) is None
            &&& change is Some && !echo ==> passed_on(state, event, now) == change
        }),
{
}

/// An event changes neither the system nor whether events are heeded, and what
/// it changes of the writes is to use up the one to its path, if it is a change
/// at all, and to forget those that are too long ago.
pub proof fn event_changes_state_by_its_path(
    state: DebouncerView,
    event: FileEvent,
    now: u128,
    path: PathBuf,
)
    ensures
        ({
            let next = state_after(state, event, now);
            &&& next.platform == state.platform
            &&& next.is_paused == state.is_paused
            &&& next.context == context_after(state.platform, event, state.context)
            &&& debounced(state.platform, event, state.context) is None ==> next.writes
                == state.writes
            &&& debounced(state.platform, event, state.context) is Some ==> {
                &&& next.writes.contains_key(path) <==> path != event.paths@[0]
                    && state.writes.contains_key(path) && now < state.writes[path]
                    + SYNCBACK_DEBOUNCE_TIME
                &&& next.writes.contains_key(path) ==> next.writes[path] == state.writes[path]
            }
        }),
{
}

/// None of the events is a change, as they come one after the other.
pub open spec fn no_changes(
    state: DebouncerView,
    events: Seq<FileEvent>,
    times: Seq<u128>,
) -> bool {
    forall|i: int|
        0 <= i < events.len() ==> debounced(
            state.platform,
            #[trigger] events[i],
            state_after_all(state, events.take(i), times.take(i)).context,
        ) is None
}

/// Events that are no changes leave the writes as they are, however many there
/// are, and nothing is passed on of them.
pub proof fn no_change_uses_up_no_write(
    state: DebouncerView,
    events: Seq<FileEvent>,
    times: Seq<u128>,
)
    requires
        events.len() == times.len(),
        no_changes(state, events, times),
    ensures
        state_after_all(state, events, times).writes == state.writes,
        all_passed_on(state, events, times).len() == 0,
    decreases events.len(),
{
    if events.len() > 0 {
        let init = events.drop_last();
        let early = times.drop_last();
        assert forall|i: int| 0 <= i < init.len() implies debounced(
            state.platform,
            #[trigger] init[i],
            state_after_all(state, init.take(i), early.take(i)).context,
        ) is None by {
            assert(init[i] == events[i]);
            assert(init.take(i) =~= events.take(i));
            assert(early.take(i) =~= times.take(i));
        }
        no_change_uses_up_no_write(state, init, early);
        events_keep_mode(state, init, early);
        let last = events.len() - 1;
        assert(events.take(last) =~= init);
        assert(times.take(last) =~= early);
        assert(debounced(state.platform, events[last], state_after_all(
            state,
            events.take(last),
            times.take(last),
        ).context) is None);
    }
}

/// After we wrote to a path, the first change to it is kept back if it comes in
/// time, no matter how many events that are no changes come before it.
pub proof fn first_change_after_write_is_kept_back(
    state: DebouncerView,
    path: PathBuf,
    written: u128,
    events: Seq<FileEvent>,
    times: Seq<u128>,
    event: FileEvent,
    now: u128,
)
    requires
        events.len() == times.len(),
        no_changes(
            DebouncerView { writes: recorded(state.writes, path, written), ..state },
            events,
            times,
        ),
        event.paths@[0] == path,
        now < written + SYNCBACK_DEBOUNCE_TIME,
    ensures
        ({
            let marked = DebouncerView { writes: recorded(state.writes, path, written), ..state };
            passed_on(state_after_all(marked, events, times), event, now) is None
        }),
{
    let marked = DebouncerView { writes: recorded(state.writes, path, written), ..state };
    no_change_uses_up_no_write(marked, events, times);
}

/// Handling events together is handling them one after the other: what comes
/// first is passed on first, and the rest is handled in the state it leaves.
pub proof fn batches_are_handled_in_order(
    state: DebouncerView,
    first: Seq<FileEvent>,
    then: Seq<FileEvent>,
    early: Seq<u128>,
    late: Seq<u128>,
)
    requires
        first.len() == early.len(),
        then.len() == late.len(),
    ensures
        state_after_all(state, first + then, early + late) == state_after_all(
            state_after_all(state, first, early),
            then,
            late,
        ),
        all_passed_on(state, first + then, early + late) == all_passed_on(state, first, early)
            + all_passed_on(state_after_all(state, first, early), then, late),
    decreases then.len(),
{
    if then.len() == 0 {
        assert(first + then =~= first);
        assert(early + late =~= early);
        assert(all_passed_on(state, first, early) + Seq::<VfsEvent>::empty() =~= all_passed_on(
            state,
            first,
            early,
        ));
    } else {
        batches_are_handled_in_order(state, first, then.drop_last(), early, late.drop_last());
        assert((first + then).drop_last() =~= first + then.drop_last());
        assert((early + late).drop_last() =~= early + late.drop_last());
        assert((first + then).last() == then.last());
        assert((early + late).last() == late.last());
        assert(all_passed_on(state, first + then, early + late) =~= all_passed_on(
            state,
            first,
            early,
        ) + all_passed_on(state_after_all(state, first, early), then, late));
    }
}

/// Handling one event alone passes on what it stands for, and no event at all
/// changes nothing.
pub proof fn single_event_is_handled_alone(state: DebouncerView, event: FileEvent, now: u128)
    ensures
        state_after_all(state, Seq::empty(), Seq::empty()) == state,
        all_passed_on(state, Seq::empty(), Seq::empty()) == Seq::<VfsEvent>::empty(),
        state_after_all(state, seq![event], seq![now]) == state_after(state, event, now),
        passed_on(state, event, now) is None ==> all_passed_on(
            state,
            seq![event],
            seq![now],
        ).len() == 0,
        passed_on(state, event, now) matches Some(change) ==> all_passed_on(
            state,
            seq![event],
            seq![now],
        ) == seq![change],
{
    let none = Seq::<FileEvent>::empty();
    let never = Seq::<u128>::empty();
    assert(seq![event].drop_last() =~= none);
    assert(seq![now].drop_last() =~= never);
    assert(state_after_all(state, none, never) == state);
    assert(all_passed_on(state, none, never) =~= Seq::empty());
    assert(seq![event].last() == event && seq![now].last() == now);
    if let Some(change) = passed_on(state, event, now) {
        assert(all_passed_on(state, seq![event], seq![now]) =~= seq![change]);
    }
}

} // verus!
