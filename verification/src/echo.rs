//! Telling the echoes of our own writes from the changes of others.

use std::path::PathBuf;
use std::time::Instant;

use vstd::prelude::*;

use crate::path::{copy_path, nanos_since, now, same_path};

verus! {

/// For how many nanoseconds after a write an event may be its echo.
pub const SYNCBACK_DEBOUNCE_TIME: u128 = 200_000_000;

/// A write at `time` is recent enough for an event at `now` to be its echo.
pub open spec fn fresh(time: u128, now: u128) -> bool {
    now - time < SYNCBACK_DEBOUNCE_TIME
}

/// The writes that are still recent enough at `now`.
pub open spec fn swept(writes: Map<PathBuf, u128>, now: u128) -> Map<PathBuf, u128> {
    Map::new(
        |path: PathBuf| writes.contains_key(path) && fresh(writes[path], now),
        |path: PathBuf| writes[path],
    )
}

/// An event on `path` at `now` is the echo of one of the writes.
pub open spec fn is_echo(writes: Map<PathBuf, u128>, path: PathBuf, now: u128) -> bool {
    writes.contains_key(path) && fresh(writes[path], now)
}

/// The writes after another one at `now`.
pub open spec fn recorded(
    writes: Map<PathBuf, u128>,
    path: PathBuf,
    now: u128,
) -> Map<PathBuf, u128> {
    swept(writes, now).insert(path, now)
}

/// The writes after an event on `path` at `now`.
pub open spec fn consumed(
    writes: Map<PathBuf, u128>,
    path: PathBuf,
    now: u128,
) -> Map<PathBuf, u128> {
    swept(writes, now).remove(path)
}

/// Paths that were just written by us, mapped to the time of the write.
///
/// The file system events they trigger are only echoes of changes the client
/// already knows about, so they must not be synced back. Unlike a blanket time
/// window this drops the exact paths we wrote and nothing else, so user changes
/// are never lost.
#[derive(Debug)]
pub struct EchoMap {
    start: Instant,
    entries: Vec<(PathBuf, u128)>,
}

/// `path` is the path of one of the entries.
spec fn listed(entries: Seq<(PathBuf, u128)>, path: PathBuf) -> bool {
    exists|i: int| 0 <= i < entries.len() && (#[trigger] entries[i]).0 == path
}

/// The time that is kept for each path.
spec fn times(entries: Seq<(PathBuf, u128)>) -> Map<PathBuf, u128> {
    Map::new(
        |path: PathBuf| listed(entries, path),
        |path: PathBuf|
            entries[choose|i: int| 0 <= i < entries.len() && (#[trigger] entries[i]).0 == path].1,
    )
}

/// No path is listed twice.
spec fn unique(entries: Seq<(PathBuf, u128)>) -> bool {
    forall|i: int, j: int|
        0 <= i < j < entries.len() ==> (#[trigger] entries[i]).0 != (#[trigger] entries[j]).0
}

proof fn lemma_time_of(entries: Seq<(PathBuf, u128)>, i: int)
    requires
        unique(entries),
        0 <= i < entries.len(),
    ensures
        times(entries).contains_key(entries[i].0),
        times(entries)[entries[i].0] == entries[i].1,
{
    let path = entries[i].0;
    let k = choose|k: int| 0 <= k < entries.len() && (#[trigger] entries[k]).0 == path;
    assert(entries[i].0 == path);
    assert(entries[k].0 == path);
    assert(k == i);
}

proof fn lemma_remove(entries: Seq<(PathBuf, u128)>, i: int)
    requires
        unique(entries),
        0 <= i < entries.len(),
    ensures
        unique(entries.remove(i)),
        times(entries.remove(i)) == times(entries).remove(entries[i].0),
{
    let rest = entries.remove(i);
    let gone = entries[i].0;
    assert forall|k: int| 0 <= k < rest.len() implies #[trigger] rest[k] == entries[if k < i {
        k
    } else {
        k + 1
    }] by {}
    assert(unique(rest));
    assert forall|path: PathBuf| listed(rest, path) <==> listed(entries, path) && path != gone by {
        if listed(rest, path) {
            let k = choose|k: int| 0 <= k < rest.len() && (#[trigger] rest[k]).0 == path;
            let l = if k < i {
                k
            } else {
                k + 1
            };
            assert(entries[l].0 == path);
        }
        if listed(entries, path) && path != gone {
            let l = choose|l: int| 0 <= l < entries.len() && (#[trigger] entries[l]).0 == path;
            let k = if l < i {
                l
            } else {
                l - 1
            };
            assert(rest[k].0 == path);
        }
    }
    assert forall|path: PathBuf| listed(rest, path) implies times(rest)[path]
        == times(entries)[path] by {
        let k = choose|k: int| 0 <= k < rest.len() && (#[trigger] rest[k]).0 == path;
        let l = if k < i {
            k
        } else {
            k + 1
        };
        lemma_time_of(rest, k);
        lemma_time_of(entries, l);
    }
    assert(times(rest) =~= times(entries).remove(gone));
}

proof fn lemma_push(entries: Seq<(PathBuf, u128)>, entry: (PathBuf, u128))
    requires
        unique(entries),
        !listed(entries, entry.0),
    ensures
        unique(entries.push(entry)),
        times(entries.push(entry)) == times(entries).insert(entry.0, entry.1),
{
    let more = entries.push(entry);
    assert forall|i: int| 0 <= i < entries.len() implies (#[trigger] entries[i]).0
        != entry.0 by {}
    assert(unique(more));
    lemma_time_of(more, entries.len() as int);
    assert forall|path: PathBuf| listed(more, path) <==> listed(entries, path) || path
        == entry.0 by {
        if listed(entries, path) {
            let k = choose|k: int| 0 <= k < entries.len() && (#[trigger] entries[k]).0 == path;
            assert(more[k].0 == path);
        }
        if listed(more, path) && path != entry.0 {
            let k = choose|k: int| 0 <= k < more.len() && (#[trigger] more[k]).0 == path;
            assert(entries[k].0 == path);
        }
    }
    assert forall|path: PathBuf| listed(entries, path) implies times(more)[path]
        == times(entries)[path] by {
        let k = choose|k: int| 0 <= k < entries.len() && (#[trigger] entries[k]).0 == path;
        lemma_time_of(entries, k);
        lemma_time_of(more, k);
    }
    assert(times(more) =~= times(entries).insert(entry.0, entry.1));
}

proof fn lemma_count(entries: Seq<(PathBuf, u128)>)
    requires
        unique(entries),
    ensures
        times(entries).dom().finite(),
        times(entries).dom().len() == entries.len(),
    decreases entries.len(),
{
    if entries.len() == 0 {
        assert(times(entries).dom() =~= Set::empty());
    } else {
        let last = entries.len() - 1;
        lemma_remove(entries, last);
        lemma_time_of(entries, last);
        lemma_count(entries.remove(last));
        assert(times(entries).dom() =~= times(entries.remove(last)).dom().insert(entries[last].0));
    }
}

impl View for EchoMap {
    type V = Map<PathBuf, u128>;

    closed spec fn view(&self) -> Map<PathBuf, u128> {
        times(self.entries@)
    }
}

impl Default for EchoMap {
    /// A map that knows of no write yet.
    fn default() -> (res: EchoMap)
        ensures
            res.well_formed(),
            res@ == Map::<PathBuf, u128>::empty(),
    {
        let res = EchoMap { start: now(), entries: Vec::new() };
        assert(res@ =~= Map::empty());
        res
    }
}

impl EchoMap {
    /// No path is kept twice.
    pub closed spec fn well_formed(&self) -> bool {
        unique(self.entries@)
    }

    /// The point in time that the times of the writes are counted from.
    pub closed spec fn started(&self) -> Instant {
        self.start
    }

    /// How many writes are kept.
    pub fn len(&self) -> (res: usize)
        requires
            self.well_formed(),
        ensures
            res == self@.dom().len(),
    {
        proof {
            lemma_count(self.entries@);
        }
        self.entries.len()
    }

    /// Forgets `path`, and tells whether it was kept.
    fn forget(&mut self, path: &PathBuf) -> (res: bool)
        requires
            old(self).well_formed(),
        ensures
            final(self).well_formed(),
            final(self).started() == old(self).started(),
            res == old(self)@.contains_key(*path),
            final(self)@ == old(self)@.remove(*path),
    {
        let mut i: usize = 0;
        while i < self.entries.len()
            invariant
                *self == *old(self),
                self.well_formed(),
                0 <= i <= self.entries.len(),
                forall|k: int| 0 <= k < i ==> (#[trigger] self.entries@[k]).0 != *path,
            decreases self.entries.len() - i,
        {
            if same_path(&self.entries[i].0, path) {
                proof {
                    lemma_time_of(self.entries@, i as int);
                    lemma_remove(self.entries@, i as int);
                }
                self.entries.remove(i);
                return true;
            }
            i = i + 1;
        }
        assert(!listed(self.entries@, *path));
        assert(self@ =~= self@.remove(*path));
        false
    }

    /// Forgets the writes that are too old at `now` for an event to be their
    /// echo.
    pub fn sweep_at(&mut self, now: u128)
        requires
            old(self).well_formed(),
        ensures
            final(self).well_formed(),
            final(self).started() == old(self).started(),
            final(self)@ == swept(old(self)@, now),
    {
        let ghost before = self@;
        let mut i: usize = 0;
        while i < self.entries.len()
            invariant
                before == old(self)@,
                self.well_formed(),
                self.started() == old(self).started(),
                0 <= i <= self.entries.len(),
                forall|k: int| 0 <= k < i ==> fresh((#[trigger] self.entries@[k]).1, now),
                forall|path: PathBuf| #[trigger]
                    self@.contains_key(path) ==> before.contains_key(path) && self@[path]
                        == before[path],
                forall|path: PathBuf| #[trigger]
                    before.contains_key(path) && !self@.contains_key(path) ==> !fresh(
                        before[path],
                        now,
                    ),
            decreases self.entries.len() - i,
        {
            proof {
                lemma_time_of(self.entries@, i as int);
            }
            let ghost earlier = self@;
            let time = self.entries[i].1;
            if now >= time && now - time >= SYNCBACK_DEBOUNCE_TIME {
                proof {
                    lemma_remove(self.entries@, i as int);
                }
                self.entries.remove(i);
                assert forall|path: PathBuf| #[trigger] self@.contains_key(path) implies
                    earlier.contains_key(path) && self@[path] == earlier[path] by {}
            } else {
                i = i + 1;
            }
        }
        proof {
            assert forall|path: PathBuf| #[trigger] self@.contains_key(path) implies fresh(
                before[path],
                now,
            ) by {
                let k = choose|k: int|
                    0 <= k < self.entries@.len() && (#[trigger] self.entries@[k]).0 == path;
                lemma_time_of(self.entries@, k);
            }
            assert(self@ =~= swept(before, now));
        }
    }

    /// Remembers `path` as written by us at `now`, so the event it causes can
    /// later be recognized as an echo.
    pub fn record_at(&mut self, path: &PathBuf, now: u128)
        requires
            old(self).well_formed(),
        ensures
            final(self).well_formed(),
            final(self).started() == old(self).started(),
            final(self)@ == recorded(old(self)@, *path, now),
    {
        self.sweep_at(now);
        self.forget(path);
        proof {
            if listed(self.entries@, *path) {
                assert(self@.contains_key(*path));
            }
            lemma_push(self.entries@, (*path, now));
        }
        self.entries.push((copy_path(path), now));
        assert(self@ =~= recorded(old(self)@, *path, now));
    }

    /// Tells whether `path` was written by us recently enough for an event at
    /// `now` to be an echo, consuming the entry that matched.
    pub fn consume_at(&mut self, path: &PathBuf, now: u128) -> (res: bool)
        requires
            old(self).well_formed(),
        ensures
            final(self).well_formed(),
            final(self).started() == old(self).started(),
            res == is_echo(old(self)@, *path, now),
            final(self)@ == consumed(old(self)@, *path, now),
    {
        self.sweep_at(now);
        self.forget(path)
    }

    /// How many nanoseconds the map has been around.
    pub(crate) fn age(&self) -> (res: u128) {
        nanos_since(&self.start)
    }

    /// Remembers `path` as written by us just now.
    pub fn record(&mut self, path: &PathBuf)
        requires
            old(self).well_formed(),
        ensures
            final(self).well_formed(),
            final(self).started() == old(self).started(),
            exists|now: u128| final(self)@ == #[trigger] recorded(old(self)@, *path, now),
    {
        let now = self.age();
        self.record_at(path, now);
    }

    /// Tells whether `path` was written by us recently enough for an event that
    /// arrives now to be an echo, consuming the entry that matched.
    pub fn consume(&mut self, path: &PathBuf) -> (res: bool)
        requires
            old(self).well_formed(),
        ensures
            final(self).well_formed(),
            final(self).started() == old(self).started(),
            exists|now: u128|
                res == #[trigger] is_echo(old(self)@, *path, now) && final(self)@ == consumed(
                    old(self)@,
                    *path,
                    now,
                ),
    {
        let now = self.age();
        self.consume_at(path, now)
    }

    /// Forgets the writes that are too old for an event to be their echo, so
    /// the map stays bounded even when the events we expected never arrive.
    pub fn sweep(&mut self)
        requires
            old(self).well_formed(),
        ensures
            final(self).well_formed(),
            final(self).started() == old(self).started(),
            exists|now: u128| final(self)@ == #[trigger] swept(old(self)@, now),
    {
        let now = self.age();
        self.sweep_at(now);
    }
}

/// An event within the time to live of a write to the same path is its echo.
/// After that it is none.
pub proof fn echo_lasts_for_its_time(
    writes: Map<PathBuf, u128>,
    path: PathBuf,
    written: u128,
    now: u128,
)
    ensures
        is_echo(recorded(writes, path, written), path, now) <==> fresh(written, now),
{
}

/// An echo is dropped only once: what was consumed is not an echo again, no
/// matter when.
pub proof fn echo_is_consumed_once(
    writes: Map<PathBuf, u128>,
    path: PathBuf,
    now: u128,
    later: u128,
)
    ensures
        !is_echo(consumed(writes, path, now), path, later),
{
}

/// Neither a write to one path nor an event on it makes another path an echo,
/// or keeps it from being one while it still is.
pub proof fn other_paths_are_unaffected(
    writes: Map<PathBuf, u128>,
    path: PathBuf,
    other: PathBuf,
    now: u128,
    later: u128,
)
    requires
        other != path,
    ensures
        is_echo(recorded(writes, path, now), other, later) <==> is_echo(writes, other, later)
            && fresh(writes[other], now),
        is_echo(consumed(writes, path, now), other, later) <==> is_echo(writes, other, later)
            && fresh(writes[other], now),
{
}

/// After every write and every event, only writes that are recent enough are
/// kept, and none that was not kept before but the one just recorded.
pub proof fn old_writes_are_evicted(
    writes: Map<PathBuf, u128>,
    path: PathBuf,
    now: u128,
    kept: PathBuf,
)
    ensures
        recorded(writes, path, now).contains_key(kept) ==> fresh(
            recorded(writes, path, now)[kept],
            now,
        ) && (kept == path || writes.contains_key(kept)),
        consumed(writes, path, now).contains_key(kept) ==> fresh(
            consumed(writes, path, now)[kept],
            now,
        ) && writes.contains_key(kept),
{
}

/// What is kept of one path after a write: the time of the write if it was to
/// that path, and otherwise the time that was kept before, as long as it is not
/// too long ago.
pub proof fn write_is_kept_with_its_time(
    writes: Map<PathBuf, u128>,
    path: PathBuf,
    now: u128,
    other: PathBuf,
)
    ensures
        ({
            let after = recorded(writes, path, now);
            if other == path {
                after.contains_key(other) && after[other] == now
            } else {
                &&& after.contains_key(other) <==> writes.contains_key(other) && now
                    < writes[other] + SYNCBACK_DEBOUNCE_TIME
                &&& after.contains_key(other) ==> after[other] == writes[other]
            }
        }),
{
}

/// What is kept of one path after an event: nothing if it was on that path, and
/// otherwise the time that was kept before, as long as it is not too long ago.
pub proof fn event_uses_up_its_write(
    writes: Map<PathBuf, u128>,
    path: PathBuf,
    now: u128,
    other: PathBuf,
)
    ensures
        ({
            let after = consumed(writes, path, now);
            &&& after.contains_key(other) <==> other != path && writes.contains_key(other) && now
                < writes[other] + SYNCBACK_DEBOUNCE_TIME
            &&& after.contains_key(other) ==> after[other] == writes[other]
        }),
{
}

/// Sweeping forgets exactly the writes that are too long ago, and changes none
/// of the others.
pub proof fn sweeping_forgets_old_writes(writes: Map<PathBuf, u128>, now: u128, path: PathBuf)
    ensures
        swept(writes, now).contains_key(path) <==> writes.contains_key(path) && now < writes[path]
            + SYNCBACK_DEBOUNCE_TIME,
        swept(writes, now).contains_key(path) ==> swept(writes, now)[path] == writes[path],
{
}

/// An event is an echo exactly if a write to its path is kept that is not too
/// long ago.
pub proof fn echo_follows_recent_write(writes: Map<PathBuf, u128>, path: PathBuf, now: u128)
    ensures
        is_echo(writes, path, now) <==> writes.contains_key(path) && now < writes[path]
            + SYNCBACK_DEBOUNCE_TIME,
{
}

/// Something that happens to the writes.
pub enum Occurrence {
    /// We write to the path.
    Write { path: PathBuf, now: u128 },
    /// An event on the path arrives.
    Event { path: PathBuf, now: u128 },
}

/// The path that something happens to.
pub open spec fn path_of(what: Occurrence) -> PathBuf {
    match what {
        Occurrence::Write { path, .. } => path,
        Occurrence::Event { path, .. } => path,
    }
}

/// The writes that are kept after all of this happened, one after the other.
pub open spec fn kept_after(history: Seq<Occurrence>) -> Map<PathBuf, u128>
    decreases history.len(),
{
    if history.len() == 0 {
        Map::empty()
    } else {
        let before = kept_after(history.drop_last());
        match history.last() {
            Occurrence::Write { path, now } => recorded(before, path, now),
            Occurrence::Event { path, now } => consumed(before, path, now),
        }
    }
}

/// A path is only ever kept, and an event on it only ever dropped, because we
/// wrote to it ourselves and nothing has happened to it since.
pub proof fn only_own_writes_are_kept(history: Seq<Occurrence>, path: PathBuf)
    requires
        kept_after(history).contains_key(path),
    ensures
        exists|i: int|
            #![trigger history[i]]
            0 <= i < history.len() && history[i] == (Occurrence::Write {
                path,
                now: kept_after(history)[path],
            }) && forall|j: int|
                i < j < history.len() ==> path_of(#[trigger] history[j]) != path,
    decreases history.len(),
{
    let init = history.drop_last();
    let last = history.len() - 1;
    if path_of(history[last]) == path {
        assert(history[last] == (Occurrence::Write { path, now: kept_after(history)[path] }));
    } else {
        only_own_writes_are_kept(init, path);
        let i = choose|i: int|
            #![trigger init[i]]
            0 <= i < init.len() && init[i] == (Occurrence::Write {
                path,
                now: kept_after(init)[path],
            }) && forall|j: int| i < j < init.len() ==> path_of(#[trigger] init[j]) != path;
        assert(history[i] == init[i]);
        assert forall|j: int| i < j < history.len() implies path_of(#[trigger] history[j])
            != path by {
            if j < last {
                assert(init[j] == history[j]);
            }
        }
    }
}

} // verus!
