//! The model behind a feed list: all its videos, of which the first ones are
//! shown, more being shown in batches as the user scrolls.
//!
//! A video is represented by an entry that holds what the list reads of it:
//! an identifier (the caller keeps the video under it) and its upload time in
//! seconds since the Unix epoch (0 when the platform gives none).
use vstd::prelude::*;
use vstd::multiset::Multiset;

verus! {

/// How many more videos are shown at a time.
pub const LOAD_COUNT: usize = 10;

/// How many videos are shown after showing more, of `len` with `loaded`
/// shown: `LOAD_COUNT` more, or all of them when fewer are left.
pub open spec fn more_step(len: nat, loaded: nat) -> nat {
    if len - loaded < LOAD_COUNT {
        len
    } else {
        loaded + LOAD_COUNT as nat
    }
}

/// How many videos are shown after showing more `k` times.
pub open spec fn loaded_after(len: nat, loaded: nat, k: nat) -> nat
    decreases k,
{
    if k == 0 {
        loaded
    } else {
        more_step(len, loaded_after(len, loaded, (k - 1) as nat))
    }
}

/// Showing more often enough shows every video: once `k` batches cover
/// the videos not shown yet, all are shown after `k` steps.
pub proof fn lemma_more_shows_all(len: nat, loaded: nat, k: nat)
    requires
        loaded <= len,
        k * LOAD_COUNT >= len - loaded,
    ensures
        loaded_after(len, loaded, k) == len,
    decreases k,
{
    if k > 0 {
        if len - loaded < LOAD_COUNT {
            lemma_loaded_after_fixed(len, (k - 1) as nat);
            lemma_loaded_after_first(len, loaded, k);
        } else {
            lemma_loaded_after_first(len, loaded, k);
            assert((k - 1) * LOAD_COUNT >= len - (loaded + LOAD_COUNT)) by (nonlinear_arith)
                requires
                    k * LOAD_COUNT >= len - loaded,
                    k > 0,
            ;
            lemma_more_shows_all(len, loaded + LOAD_COUNT as nat, (k - 1) as nat);
        }
    } else {
        assert(len - loaded <= 0);
    }
}

/// Once every video is shown, showing more changes nothing.
proof fn lemma_loaded_after_fixed(len: nat, k: nat)
    ensures
        loaded_after(len, len, k) == len,
    decreases k,
{
    if k > 0 {
        lemma_loaded_after_fixed(len, (k - 1) as nat);
    }
}

/// Showing more `k` times is showing more once, then `k - 1` times.
proof fn lemma_loaded_after_first(len: nat, loaded: nat, k: nat)
    requires
        k > 0,
    ensures
        loaded_after(len, loaded, k) == loaded_after(len, more_step(len, loaded), (k - 1) as nat),
    decreases k,
{
    let m = more_step(len, loaded);
    if k > 1 {
        lemma_loaded_after_first(len, loaded, (k - 1) as nat);
        assert(loaded_after(len, loaded, k) == more_step(len, loaded_after(len, loaded, (k - 1) as nat)));
        assert(loaded_after(len, m, (k - 1) as nat) == more_step(len, loaded_after(len, m, (k - 2) as nat)));
    } else {
        assert(loaded_after(len, loaded, 0) == loaded);
        assert(loaded_after(len, m, 0) == m);
    }
}

/// What the feed list reads of a video.
#[derive(Clone, Copy, Debug)]
pub struct FeedEntry {
    pub id: u64,
    pub uploaded: i64,
}

/// Whether the entries go from the newest upload to the oldest.
pub open spec fn sorted_desc(entries: Seq<FeedEntry>) -> bool {
    forall|i: int, j: int| 0 <= i < j < entries.len() ==> entries[i].uploaded >= entries[j].uploaded
}

/// The videos of a feed list, the first `loaded` of which are shown.
pub struct FeedList {
    items: Vec<FeedEntry>,
    loaded: usize,
}

impl FeedList {
    /// The videos of the list, in order.
    pub closed spec fn entries(&self) -> Seq<FeedEntry> {
        self.items@
    }

    /// How many videos of the list are shown.
    pub closed spec fn loaded_count(&self) -> nat {
        self.loaded as nat
    }

    /// No more videos are shown than the list holds.
    pub closed spec fn wf(&self) -> bool {
        self.loaded <= self.items@.len()
    }

    /// The videos that are shown: the first `loaded_count` of the list.
    pub open spec fn shown(&self) -> Seq<FeedEntry> {
        self.entries().take(self.loaded_count() as int)
    }

    /// In a well-formed list, no more videos are shown than it holds.
    pub proof fn lemma_wf(&self)
        requires
            self.wf(),
        ensures
            self.loaded_count() <= self.entries().len(),
    {
    }

    /// An empty list.
    pub fn new() -> (list: FeedList)
        ensures
            list.wf(),
            list.entries() == Seq::<FeedEntry>::empty(),
            list.loaded_count() == 0,
    {
        FeedList { items: Vec::new(), loaded: 0 }
    }

    /// Shows up to `LOAD_COUNT` more videos; returns those that became shown.
    pub fn more(&mut self) -> (added: Vec<FeedEntry>)
        requires
            old(self).wf(),
        ensures
            final(self).wf(),
            final(self).entries() == old(self).entries(),
            final(self).loaded_count() == more_step(
                old(self).entries().len(),
                old(self).loaded_count(),
            ),
            added@ == old(self).entries().subrange(
                old(self).loaded_count() as int,
                final(self).loaded_count() as int,
            ),
    {
        let remaining: usize = self.items.len() - self.loaded;
        let to_load: usize = if LOAD_COUNT < remaining {
            LOAD_COUNT
        } else {
            remaining
        };
        let mut added: Vec<FeedEntry> = Vec::new();
        let mut i: usize = self.loaded;
        let end: usize = self.loaded + to_load;
        while i < end
            invariant
                self.loaded <= i <= end <= self.items@.len(),
                added@ == self.items@.subrange(self.loaded as int, i as int),
            decreases end - i,
        {
            added.push(self.items[i]);
            i = i + 1;
            assert(added@ =~= self.items@.subrange(self.loaded as int, i as int));
        }
        self.loaded = end;
        added
    }

    /// Whether more videos can be shown.
    pub fn more_available(&self) -> (more: bool)
        requires
            self.wf(),
        ensures
            more == (self.loaded_count() < self.entries().len()),
    {
        self.items.len() != self.loaded
    }

    /// Whether no video is shown.
    pub fn is_empty(&self) -> (empty: bool)
        requires
            self.wf(),
        ensures
            empty == (self.shown().len() == 0),
    {
        self.loaded == 0
    }

    /// Replaces the videos by `new_items` and shows the first batch of them;
    /// returns those shown.
    pub fn set_items(&mut self, new_items: Vec<FeedEntry>) -> (shown: Vec<FeedEntry>)
        ensures
            final(self).wf(),
            final(self).entries() == new_items@,
            final(self).loaded_count() == if new_items@.len() < LOAD_COUNT {
                new_items@.len()
            } else {
                LOAD_COUNT as nat
            },
            shown@ == final(self).shown(),
    {
        self.items = new_items;
        self.loaded = 0;
        let shown = self.more();
        assert(self.shown() =~= self.items@.subrange(0, self.loaded as int));
        shown
    }

    /// Replaces the videos by `new_items`, newest first, and shows the first
    /// batch of them; returns those shown.
    pub fn set_items_ordered(&mut self, new_items: Vec<FeedEntry>) -> (shown: Vec<FeedEntry>)
        ensures
            final(self).wf(),
            sorted_desc(final(self).entries()),
            final(self).entries().to_multiset() == new_items@.to_multiset(),
            final(self).loaded_count() == if new_items@.len() < LOAD_COUNT {
                new_items@.len()
            } else {
                LOAD_COUNT as nat
            },
            shown@ == final(self).shown(),
    {
        let sorted = sort_newest_first(&new_items);
        proof {
            vstd::seq_lib::to_multiset_len(sorted@);
            vstd::seq_lib::to_multiset_len(new_items@);
        }
        self.set_items(sorted)
    }

    /// Puts a video first, shown.
    pub fn prepend(&mut self, new_item: FeedEntry)
        requires
            old(self).wf(),
        ensures
            final(self).wf(),
            final(self).entries() == old(self).entries().insert(0, new_item),
            final(self).loaded_count() == old(self).loaded_count() + 1,
            final(self).shown() == old(self).shown().insert(0, new_item),
    {
        self.items.insert(0, new_item);
        assert(self.loaded < self.items.len());
        self.loaded = self.loaded + 1;
        assert(self.shown() =~= old(self).shown().insert(0, new_item));
    }

    /// Puts a video where its upload time places it in a list ordered newest
    /// first, and shows it if it lands among or just after the shown ones;
    /// returns its position and whether it is shown.
    pub fn insert_ordered_time(&mut self, new_item: FeedEntry) -> (res: (usize, bool))
        requires
            old(self).wf(),
        ensures
            final(self).wf(),
            res.0 <= old(self).entries().len(),
            final(self).entries() == old(self).entries().insert(res.0 as int, new_item),
            res.1 == (res.0 <= old(self).loaded_count()),
            final(self).loaded_count() == old(self).loaded_count() + if res.1 {
                1nat
            } else {
                0nat
            },
            res.1 ==> final(self).shown() == old(self).shown().insert(res.0 as int, new_item),
            !res.1 ==> final(self).shown() == old(self).shown(),
            sorted_desc(old(self).entries()) ==> {
                &&& forall|k: int|
                    0 <= k < res.0 ==> #[trigger] old(self).entries()[k].uploaded
                        > new_item.uploaded
                &&& forall|k: int|
                    res.0 <= k < old(self).entries().len() ==> #[trigger] old(
                        self,
                    ).entries()[k].uploaded <= new_item.uploaded
                &&& sorted_desc(final(self).entries())
            },
    {
        let idx: usize = ordered_position(&self.items, new_item.uploaded);
        let ghost before = self.items@;
        self.items.insert(idx, new_item);
        proof {
            if sorted_desc(before) {
                lemma_insert_sorted(before, idx as int, new_item);
            }
        }
        if idx <= self.loaded {
            assert(self.loaded < self.items.len());
            self.loaded = self.loaded + 1;
            assert(self.shown() =~= old(self).shown().insert(idx as int, new_item));
            (idx, true)
        } else {
            assert(self.shown() =~= old(self).shown());
            (idx, false)
        }
    }

    /// Takes the first video with identifier `id` out of the list, if there
    /// is one; returns its position and whether it was shown.
    pub fn remove(&mut self, id: u64) -> (res: Option<(usize, bool)>)
        requires
            old(self).wf(),
        ensures
            final(self).wf(),
            match res {
                None => {
                    &&& forall|k: int|
                        0 <= k < old(self).entries().len() ==> #[trigger] old(
                            self,
                        ).entries()[k].id != id
                    &&& final(self).entries() == old(self).entries()
                    &&& final(self).loaded_count() == old(self).loaded_count()
                },
                Some((idx, was_shown)) => {
                    &&& idx < old(self).entries().len()
                    &&& old(self).entries()[idx as int].id == id
                    &&& forall|k: int| 0 <= k < idx ==> #[trigger] old(self).entries()[k].id != id
                    &&& final(self).entries() == old(self).entries().remove(idx as int)
                    &&& was_shown == (idx < old(self).loaded_count())
                    &&& final(self).loaded_count() == old(self).loaded_count() - if was_shown {
                        1int
                    } else {
                        0int
                    }
                    &&& was_shown ==> final(self).shown() == old(self).shown().remove(idx as int)
                    &&& !was_shown ==> final(self).shown() == old(self).shown()
                },
            },
    {
        let mut i: usize = 0;
        while i < self.items.len()
            invariant
                self.items@ == old(self).items@,
                self.loaded == old(self).loaded,
                old(self).wf(),
                i <= self.items@.len(),
                forall|k: int| 0 <= k < i ==> #[trigger] self.items@[k].id != id,
            decreases self.items@.len() - i,
        {
            if self.items[i].id == id {
                let was_shown = i < self.loaded;
                if was_shown {
                    self.loaded = self.loaded - 1;
                }
                self.items.remove(i);
                if was_shown {
                    assert(self.shown() =~= old(self).shown().remove(i as int));
                } else {
                    assert(self.shown() =~= old(self).shown());
                }
                return Some((i, was_shown));
            }
            i = i + 1;
        }
        None
    }

    /// When the user scrolled to the bottom, shows more videos; returns those
    /// that became shown.
    pub fn edge_reached(&mut self, at_bottom: bool) -> (added: Vec<FeedEntry>)
        requires
            old(self).wf(),
        ensures
            final(self).wf(),
            final(self).entries() == old(self).entries(),
            !at_bottom ==> final(self).loaded_count() == old(self).loaded_count() && added@.len()
                == 0,
            at_bottom ==> final(self).loaded_count() == more_step(
                old(self).entries().len(),
                old(self).loaded_count(),
            ),
            added@ == old(self).entries().subrange(
                old(self).loaded_count() as int,
                final(self).loaded_count() as int,
            ),
    {
        if at_bottom {
            self.more()
        } else {
            let added: Vec<FeedEntry> = Vec::new();
            assert(added@ =~= old(self).entries().subrange(
                old(self).loaded_count() as int,
                old(self).loaded_count() as int,
            ));
            added
        }
    }
}


/// A change of the playlist that a feed list follows.
pub enum FeedChange {
    /// A video was added to the playlist.
    Add(FeedEntry),
    /// The video with this identifier was taken out of the playlist.
    Remove(u64),
}

/// What a change of the playlist did to the list.
pub enum FeedUpdate {
    /// The video was put at this position, shown or not.
    Inserted(usize, bool),
    /// The video was taken out from this position, shown or not, if it was
    /// there.
    Removed(Option<(usize, bool)>),
}

impl FeedList {
    /// Follows a change of the watch-later playlist: an added video goes
    /// where its upload time places it, a removed one leaves the list.
    pub fn apply(&mut self, change: FeedChange) -> (update: FeedUpdate)
        requires
            old(self).wf(),
        ensures
            final(self).wf(),
            sorted_desc(old(self).entries()) ==> final(self).entries() == feed_applied(
                old(self).entries(),
                change,
            ),
            match change {
                FeedChange::Add(entry) => {
                    &&& update matches FeedUpdate::Inserted(idx, shown)
                    &&& old(self).entries().len() >= idx
                    &&& final(self).entries() == old(self).entries().insert(idx as int, entry)
                    &&& shown == (old(self).loaded_count() >= idx)
                    &&& shown ==> final(self).shown() == old(self).shown().insert(idx as int, entry)
                    &&& !shown ==> final(self).shown() == old(self).shown()
                    &&& sorted_desc(old(self).entries()) ==> sorted_desc(final(self).entries())
                },
                FeedChange::Remove(id) => {
                    &&& update matches FeedUpdate::Removed(r)
                    &&& match r {
                        None => {
                            &&& final(self).entries() == old(self).entries()
                            &&& final(self).shown() == old(self).shown()
                            &&& forall|k: int|
                                0 <= k < old(self).entries().len() ==> #[trigger] old(
                                    self,
                                ).entries()[k].id != id
                        },
                        Some((idx, was_shown)) => {
                            &&& old(self).entries().len() > idx
                            &&& old(self).entries()[idx as int].id == id
                            &&& forall|k: int|
                                0 <= k < idx ==> #[trigger] old(self).entries()[k].id != id
                            &&& final(self).entries() == old(self).entries().remove(idx as int)
                            &&& was_shown == (old(self).loaded_count() > idx)
                            &&& was_shown ==> final(self).shown() == old(self).shown().remove(
                                idx as int,
                            )
                            &&& !was_shown ==> final(self).shown() == old(self).shown()
                        },
                    }
                },
            },
    {
        match change {
            FeedChange::Add(entry) => {
                let (idx, shown) = self.insert_ordered_time(entry);
                proof {
                    if sorted_desc(old(self).entries()) {
                        lemma_newer_count_at(old(self).entries(), entry.uploaded, idx as int);
                    }
                }
                FeedUpdate::Inserted(idx, shown)
            },
            FeedChange::Remove(id) => {
                let removed = self.remove(id);
                proof {
                    lemma_first_with_id(old(self).entries(), id);
                }
                FeedUpdate::Removed(removed)
            },
        }
    }
}

/// The position of the first video with identifier `id`.
pub open spec fn first_with_id(entries: Seq<FeedEntry>, id: u64) -> Option<int>
    decreases entries.len(),
{
    if entries.len() == 0 {
        None
    } else {
        match first_with_id(entries.drop_last(), id) {
            Some(i) => Some(i),
            None => if entries.last().id == id {
                Some(entries.len() - 1)
            } else {
                None
            },
        }
    }
}

/// `first_with_id` finds the first video with the identifier, and none when
/// no video has it.
pub proof fn lemma_first_with_id(entries: Seq<FeedEntry>, id: u64)
    ensures
        match first_with_id(entries, id) {
            Some(i) => 0 <= i < entries.len() && entries[i].id == id && forall|k: int|
                0 <= k < i ==> #[trigger] entries[k].id != id,
            None => forall|k: int| 0 <= k < entries.len() ==> #[trigger] entries[k].id != id,
        },
    decreases entries.len(),
{
    if entries.len() > 0 {
        lemma_first_with_id(entries.drop_last(), id);
        match first_with_id(entries.drop_last(), id) {
            Some(i) => {
                assert forall|k: int| 0 <= k < i implies #[trigger] entries[k].id != id by {
                    assert(entries[k] == entries.drop_last()[k]);
                }
            },
            None => {
                assert forall|k: int| 0 <= k < entries.len() - 1 implies #[trigger] entries[k].id
                    != id by {
                    assert(entries[k] == entries.drop_last()[k]);
                }
            },
        }
    }
}

/// Removing a video just inserted, whose identifier no other video has,
/// gives the list back: `remove` takes out the first video with the
/// identifier, which is the inserted one.
pub proof fn lemma_remove_undoes_insert(entries: Seq<FeedEntry>, idx: int, entry: FeedEntry)
    requires
        0 <= idx <= entries.len(),
        forall|k: int| 0 <= k < entries.len() ==> #[trigger] entries[k].id != entry.id,
    ensures
        first_with_id(entries.insert(idx, entry), entry.id) == Some(idx),
        entries.insert(idx, entry).remove(idx) == entries,
{
    let inserted = entries.insert(idx, entry);
    lemma_first_with_id(inserted, entry.id);
    match first_with_id(inserted, entry.id) {
        Some(i) => {
            if i < idx {
                assert(inserted[i] == entries[i]);
            } else if i > idx {
                assert(inserted[idx].id == entry.id);
            }
        },
        None => {
            assert(inserted[idx].id == entry.id);
        },
    }
    assert(inserted.remove(idx) =~= entries);
}

/// How many of the entries were uploaded after `uploaded`.
pub open spec fn newer_count(entries: Seq<FeedEntry>, uploaded: i64) -> nat
    decreases entries.len(),
{
    if entries.len() == 0 {
        0
    } else {
        newer_count(entries.drop_last(), uploaded) + if entries.last().uploaded > uploaded {
            1nat
        } else {
            0nat
        }
    }
}

/// Where the entries split into those newer than `uploaded` and the others,
/// that is where `newer_count` points.
proof fn lemma_newer_count_at(entries: Seq<FeedEntry>, uploaded: i64, idx: int)
    requires
        0 <= idx <= entries.len(),
        forall|k: int| 0 <= k < idx ==> #[trigger] entries[k].uploaded > uploaded,
        forall|k: int| idx <= k < entries.len() ==> #[trigger] entries[k].uploaded <= uploaded,
    ensures
        newer_count(entries, uploaded) == idx,
    decreases entries.len(),
{
    if entries.len() > 0 {
        let rest = entries.drop_last();
        let next = if idx == entries.len() {
            idx - 1
        } else {
            idx
        };
        assert forall|k: int| 0 <= k < next implies #[trigger] rest[k].uploaded > uploaded by {
            assert(rest[k] == entries[k]);
        }
        assert forall|k: int| next <= k < rest.len() implies #[trigger] rest[k].uploaded
            <= uploaded by {
            assert(rest[k] == entries[k]);
        }
        lemma_newer_count_at(rest, uploaded, next);
    }
}

/// In entries ordered newest first, those newer than `uploaded` come first.
proof fn lemma_sorted_newer_first(entries: Seq<FeedEntry>, uploaded: i64)
    requires
        sorted_desc(entries),
    ensures
        newer_count(entries, uploaded) <= entries.len(),
        forall|k: int|
            0 <= k < newer_count(entries, uploaded) ==> #[trigger] entries[k].uploaded > uploaded,
        forall|k: int|
            newer_count(entries, uploaded) <= k < entries.len() ==> #[trigger] entries[k].uploaded
                <= uploaded,
    decreases entries.len(),
{
    if entries.len() > 0 {
        let rest = entries.drop_last();
        assert(sorted_desc(rest)) by {
            assert forall|i: int, j: int| 0 <= i < j < rest.len() implies rest[i].uploaded
                >= rest[j].uploaded by {
                assert(rest[i] == entries[i] && rest[j] == entries[j]);
            }
        }
        lemma_sorted_newer_first(rest, uploaded);
        let c = newer_count(rest, uploaded);
        assert forall|k: int| 0 <= k < rest.len() implies #[trigger] entries[k] == rest[k] by {}
        if entries.last().uploaded > uploaded {
            if c < rest.len() {
                assert(entries[c as int].uploaded >= entries.last().uploaded);
                assert(entries[c as int] == rest[c as int]);
            }
        }
    }
}

/// The watch-later list after it followed one change of the playlist, when
/// it is ordered newest first (see `FeedList::apply`).
pub open spec fn feed_applied(entries: Seq<FeedEntry>, change: FeedChange) -> Seq<FeedEntry> {
    match change {
        FeedChange::Add(entry) => entries.insert(newer_count(entries, entry.uploaded) as int, entry),
        FeedChange::Remove(id) => match first_with_id(entries, id) {
            Some(i) => entries.remove(i),
            None => entries,
        },
    }
}

/// The watch-later list after it followed the changes, in order.
pub open spec fn feed_after(entries: Seq<FeedEntry>, changes: Seq<FeedChange>) -> Seq<FeedEntry>
    decreases changes.len(),
{
    if changes.len() == 0 {
        entries
    } else {
        feed_applied(feed_after(entries, changes.drop_last()), changes.last())
    }
}

/// The videos of the playlist after the change it announced: `toggle`
/// appends a video it does not hold and keeps every other video when it
/// takes one out.
pub open spec fn playlist_applied(playlist: Multiset<FeedEntry>, change: FeedChange) -> Multiset<
    FeedEntry,
> {
    match change {
        FeedChange::Add(entry) => playlist.insert(entry),
        FeedChange::Remove(id) => playlist.filter(|x: FeedEntry| x.id != id),
    }
}

/// The videos of the playlist after the changes, in order.
pub open spec fn playlist_after(playlist: Multiset<FeedEntry>, changes: Seq<FeedChange>) -> Multiset<
    FeedEntry,
>
    decreases changes.len(),
{
    if changes.len() == 0 {
        playlist
    } else {
        playlist_applied(playlist_after(playlist, changes.drop_last()), changes.last())
    }
}

/// The playlist holds each video once, and no two videos with one
/// identifier.
pub open spec fn one_per_id(playlist: Multiset<FeedEntry>) -> bool {
    &&& forall|x: FeedEntry| #[trigger] playlist.count(x) <= 1
    &&& forall|x: FeedEntry, y: FeedEntry|
        #[trigger] playlist.count(x) > 0 && #[trigger] playlist.count(y) > 0 && x.id == y.id
            ==> x == y
}

/// The playlist announces an added video only when it did not hold it (it
/// toggles).
pub open spec fn playlist_changes_fit(playlist: Multiset<FeedEntry>, changes: Seq<FeedChange>) -> bool
    decreases changes.len(),
{
    if changes.len() == 0 {
        true
    } else {
        &&& playlist_changes_fit(playlist, changes.drop_last())
        &&& match changes.last() {
            FeedChange::Add(entry) => forall|x: FeedEntry|
                #[trigger] playlist_after(playlist, changes.drop_last()).count(x) > 0 ==> x.id
                    != entry.id,
            FeedChange::Remove(_) => true,
        }
    }
}

/// One change keeps the list ordered newest first and holding the
/// playlist's videos.
proof fn lemma_feed_step(entries: Seq<FeedEntry>, playlist: Multiset<FeedEntry>, change: FeedChange)
    requires
        sorted_desc(entries),
        entries.to_multiset() == playlist,
        one_per_id(playlist),
        match change {
            FeedChange::Add(entry) => forall|x: FeedEntry|
                #[trigger] playlist.count(x) > 0 ==> x.id != entry.id,
            FeedChange::Remove(_) => true,
        },
    ensures
        sorted_desc(feed_applied(entries, change)),
        feed_applied(entries, change).to_multiset() == playlist_applied(playlist, change),
        one_per_id(playlist_applied(playlist, change)),
{
    broadcast use vstd::multiset::group_multiset_axioms;
    broadcast use vstd::multiset::group_multiset_properties;

    match change {
        FeedChange::Add(entry) => {
            lemma_sorted_newer_first(entries, entry.uploaded);
            let idx = newer_count(entries, entry.uploaded) as int;
            lemma_insert_sorted(entries, idx, entry);
            vstd::seq_lib::to_multiset_insert(entries, idx, entry);
            let grown = playlist.insert(entry);
            assert(playlist.count(entry) == 0);
            assert forall|x: FeedEntry, y: FeedEntry|
                #[trigger] grown.count(x) > 0 && #[trigger] grown.count(y) > 0 && x.id == y.id
                    implies x == y by {
                if x != entry && y != entry {
                    assert(playlist.count(x) > 0 && playlist.count(y) > 0);
                } else if x != entry {
                    assert(playlist.count(x) > 0);
                } else if y != entry {
                    assert(playlist.count(y) > 0);
                }
            }
        },
        FeedChange::Remove(id) => {
            let kept = playlist.filter(|x: FeedEntry| x.id != id);
            lemma_first_with_id(entries, id);
            match first_with_id(entries, id) {
                Some(i) => {
                    let gone = entries[i];
                    vstd::seq_lib::to_multiset_remove(entries, i);
                    vstd::seq_lib::to_multiset_contains(entries, gone);
                    assert(entries.contains(gone));
                    assert forall|x: FeedEntry| #[trigger] entries.remove(i).to_multiset().count(x)
                        == kept.count(x) by {
                        if x.id == id && x != gone && playlist.count(x) > 0 {
                            assert(playlist.count(gone) > 0);
                        }
                    }
                    assert(entries.remove(i).to_multiset() =~= kept);
                    let rest = entries.remove(i);
                    assert forall|a: int, b: int| 0 <= a < b < rest.len() implies rest[a].uploaded
                        >= rest[b].uploaded by {
                        let a0 = if a < i { a } else { a + 1 };
                        let b0 = if b < i { b } else { b + 1 };
                        assert(rest[a] == entries[a0] && rest[b] == entries[b0]);
                    }
                },
                None => {
                    assert forall|x: FeedEntry| #[trigger] entries.to_multiset().count(x)
                        == kept.count(x) by {
                        if x.id == id && entries.to_multiset().count(x) > 0 {
                            vstd::seq_lib::to_multiset_contains(entries, x);
                            let k = choose|k: int| 0 <= k < entries.len() && entries[k] == x;
                            assert(entries[k].id == id);
                        }
                    }
                    assert(entries.to_multiset() =~= kept);
                },
            }
        },
    }
}

/// The watch-later list follows its playlist: started with the playlist's
/// videos ordered newest first, and then told of each change the playlist
/// announces (an added video goes where its upload time places it, a
/// removed one leaves), it stays ordered newest first and holds exactly the
/// playlist's videos, as long as the playlist holds no two videos with one
/// identifier and adds only videos it does not hold.
pub proof fn lemma_watch_later_follows_playlist(
    entries: Seq<FeedEntry>,
    playlist: Multiset<FeedEntry>,
    changes: Seq<FeedChange>,
)
    requires
        sorted_desc(entries),
        entries.to_multiset() == playlist,
        one_per_id(playlist),
        playlist_changes_fit(playlist, changes),
    ensures
        sorted_desc(feed_after(entries, changes)),
        feed_after(entries, changes).to_multiset() == playlist_after(playlist, changes),
        one_per_id(playlist_after(playlist, changes)),
    decreases changes.len(),
{
    if changes.len() > 0 {
        lemma_watch_later_follows_playlist(entries, playlist, changes.drop_last());
        lemma_feed_step(
            feed_after(entries, changes.drop_last()),
            playlist_after(playlist, changes.drop_last()),
            changes.last(),
        );
    }
}

/// The change that toggling `video` in the playlist announces: it is taken
/// out where the playlist holds it, else added.
pub open spec fn toggle_change(playlist: Multiset<FeedEntry>, video: FeedEntry) -> FeedChange {
    if playlist.count(video) > 0 {
        FeedChange::Remove(video.id)
    } else {
        FeedChange::Add(video)
    }
}

/// The changes that the playlist announces when `videos` are toggled in
/// turn.
pub open spec fn toggle_changes(playlist: Multiset<FeedEntry>, videos: Seq<FeedEntry>) -> Seq<
    FeedChange,
>
    decreases videos.len(),
{
    if videos.len() == 0 {
        Seq::empty()
    } else {
        let before = toggle_changes(playlist, videos.drop_last());
        before.push(toggle_change(playlist_after(playlist, before), videos.last()))
    }
}

/// An identifier stands for one video: videos among the playlist's and the
/// toggled ones that share an identifier are the same video.
pub open spec fn ids_identify(playlist: Multiset<FeedEntry>, videos: Seq<FeedEntry>) -> bool {
    &&& forall|i: int, j: int|
        0 <= i < videos.len() && 0 <= j < videos.len() && #[trigger] videos[i].id
            == #[trigger] videos[j].id ==> videos[i] == videos[j]
    &&& forall|x: FeedEntry, j: int|
        #[trigger] playlist.count(x) > 0 && 0 <= j < videos.len() && x.id == #[trigger] videos[j].id
            ==> x == videos[j]
}

/// Toggling videos announces only changes that keep the playlist holding
/// each video once: an added video is not held, nor any with its identifier.
proof fn lemma_toggles_fit(playlist: Multiset<FeedEntry>, videos: Seq<FeedEntry>)
    requires
        one_per_id(playlist),
        ids_identify(playlist, videos),
    ensures
        playlist_changes_fit(playlist, toggle_changes(playlist, videos)),
        one_per_id(playlist_after(playlist, toggle_changes(playlist, videos))),
        forall|x: FeedEntry|
            #[trigger] playlist_after(playlist, toggle_changes(playlist, videos)).count(x) > 0
                ==> playlist.count(x) > 0 || videos.contains(x),
    decreases videos.len(),
{
    broadcast use vstd::multiset::group_multiset_axioms;
    broadcast use vstd::multiset::group_multiset_properties;

    if videos.len() > 0 {
        let rest = videos.drop_last();
        let v = videos.last();
        assert(ids_identify(playlist, rest)) by {
            assert forall|i: int, j: int|
                0 <= i < rest.len() && 0 <= j < rest.len() && #[trigger] rest[i].id
                    == #[trigger] rest[j].id implies rest[i] == rest[j] by {
                assert(rest[i] == videos[i] && rest[j] == videos[j]);
            }
            assert forall|x: FeedEntry, j: int|
                #[trigger] playlist.count(x) > 0 && 0 <= j < rest.len() && x.id
                    == #[trigger] rest[j].id implies x == rest[j] by {
                assert(rest[j] == videos[j]);
            }
        }
        lemma_toggles_fit(playlist, rest);
        let before = toggle_changes(playlist, rest);
        let held = playlist_after(playlist, before);
        let change = toggle_change(held, v);
        let changes = toggle_changes(playlist, videos);
        assert(changes.drop_last() =~= before);
        assert(changes.last() == change);
        let after = playlist_applied(held, change);
        assert(playlist_after(playlist, changes) == after);
        assert forall|x: FeedEntry| #[trigger] held.count(x) > 0 implies x.id != v.id || x == v by {
            if x.id == v.id {
                if playlist.count(x) > 0 {
                    assert(x == videos[videos.len() - 1]);
                } else {
                    let k = choose|k: int| 0 <= k < rest.len() && rest[k] == x;
                    assert(videos[k] == x);
                    assert(x == videos[videos.len() - 1]);
                }
            }
        }
        match change {
            FeedChange::Add(entry) => {
                assert(entry == v);
                assert(held.count(v) == 0);
                assert forall|x: FeedEntry, y: FeedEntry|
                    #[trigger] after.count(x) > 0 && #[trigger] after.count(y) > 0 && x.id == y.id
                        implies x == y by {
                    if x != v && y != v {
                        assert(held.count(x) > 0 && held.count(y) > 0);
                    } else if x != v {
                        assert(held.count(x) > 0);
                    } else if y != v {
                        assert(held.count(y) > 0);
                    }
                }
            },
            FeedChange::Remove(id) => {},
        }
        assert forall|x: FeedEntry| #[trigger] after.count(x) > 0 implies playlist.count(x) > 0
            || videos.contains(x) by {
            if x == v {
                assert(videos[videos.len() - 1] == x);
            } else {
                assert(held.count(x) > 0);
                if rest.contains(x) {
                    let k = choose|k: int| 0 <= k < rest.len() && rest[k] == x;
                    assert(videos[k] == x);
                }
            }
        }
    }
}

/// The watch-later list follows its playlist as the user toggles videos in
/// it: started with the playlist's videos ordered newest first, and then
/// told of each change that toggling `videos` in turn announces, it stays
/// ordered newest first and holds exactly the playlist's videos, as long as
/// an identifier stands for one video.
pub proof fn lemma_watch_later_follows_toggles(
    entries: Seq<FeedEntry>,
    playlist: Multiset<FeedEntry>,
    videos: Seq<FeedEntry>,
)
    requires
        sorted_desc(entries),
        entries.to_multiset() == playlist,
        one_per_id(playlist),
        ids_identify(playlist, videos),
    ensures
        sorted_desc(feed_after(entries, toggle_changes(playlist, videos))),
        feed_after(entries, toggle_changes(playlist, videos)).to_multiset() == playlist_after(
            playlist,
            toggle_changes(playlist, videos),
        ),
{
    lemma_toggles_fit(playlist, videos);
    lemma_watch_later_follows_playlist(entries, playlist, toggle_changes(playlist, videos));
}

/// The videos of the watch-later list as the page first shows them: the
/// playlist's videos in reverse order.
pub fn watch_later_items(existing: Vec<FeedEntry>) -> (items: Vec<FeedEntry>)
    ensures
        items@ == existing@.reverse(),
        items@.to_multiset() == existing@.to_multiset(),
{
    let mut items: Vec<FeedEntry> = Vec::new();
    let mut i: usize = existing.len();
    assert(existing@.skip(i as int) =~= Seq::<FeedEntry>::empty());
    while i > 0
        invariant
            i <= existing@.len(),
            items@ == existing@.skip(i as int).reverse(),
            items@.to_multiset() == existing@.skip(i as int).to_multiset(),
        decreases i,
    {
        i = i - 1;
        let ghost before = items@;
        items.push(existing[i]);
        assert(items@ =~= existing@.skip(i as int).reverse());
        proof {
            vstd::seq_lib::to_multiset_build(before, existing@[i as int]);
            assert(existing@.skip(i as int) =~= existing@.skip(i + 1).insert(0, existing@[i as int]));
            vstd::seq_lib::to_multiset_insert(existing@.skip(i + 1), 0, existing@[i as int]);
        }
    }
    assert(existing@.skip(0) =~= existing@);
    items
}

/// Inserting an entry at a position where everything before is newer and
/// everything after is not keeps the entries newest first.
proof fn lemma_insert_sorted(entries: Seq<FeedEntry>, idx: int, entry: FeedEntry)
    requires
        sorted_desc(entries),
        0 <= idx <= entries.len(),
        forall|k: int| 0 <= k < idx ==> #[trigger] entries[k].uploaded > entry.uploaded,
        forall|k: int| idx <= k < entries.len() ==> #[trigger] entries[k].uploaded <= entry.uploaded,
    ensures
        sorted_desc(entries.insert(idx, entry)),
{
    let r = entries.insert(idx, entry);
    assert forall|i: int, j: int| 0 <= i < j < r.len() implies r[i].uploaded >= r[j].uploaded by {
        if i < idx {
            assert(r[i] == entries[i]);
        }
        if j > idx {
            assert(r[j] == entries[j - 1]);
        }
        if i > idx {
            assert(r[i] == entries[i - 1]);
        }
    }
}

/// The position at which a video uploaded at `uploaded` goes among `items`:
/// in a list ordered newest first, after every newer video and before every
/// other.
fn ordered_position(items: &Vec<FeedEntry>, uploaded: i64) -> (idx: usize)
    ensures
        idx <= items@.len(),
        sorted_desc(items@) ==> {
            &&& forall|k: int| 0 <= k < idx ==> #[trigger] items@[k].uploaded > uploaded
            &&& forall|k: int|
                idx <= k < items@.len() ==> #[trigger] items@[k].uploaded <= uploaded
        },
{
    let mut lo: usize = 0;
    let mut hi: usize = items.len();
    while lo < hi
        invariant
            lo <= hi <= items@.len(),
            sorted_desc(items@) ==> {
                &&& forall|k: int| 0 <= k < lo ==> #[trigger] items@[k].uploaded > uploaded
                &&& forall|k: int| hi <= k < items@.len() ==> #[trigger] items@[k].uploaded <= uploaded
            },
        decreases hi - lo,
    {
        let mid: usize = lo + (hi - lo) / 2;
        if items[mid].uploaded > uploaded {
            proof {
                if sorted_desc(items@) {
                    assert forall|k: int| 0 <= k < mid + 1 implies #[trigger] items@[k].uploaded
                        > uploaded by {
                        if k < mid {
                            assert(items@[k].uploaded >= items@[mid as int].uploaded);
                        }
                    }
                }
            }
            lo = mid + 1;
        } else {
            proof {
                if sorted_desc(items@) {
                    assert forall|k: int| mid <= k < items@.len() implies #[trigger] items@[k].uploaded
                        <= uploaded by {
                        if k > mid {
                            assert(items@[mid as int].uploaded >= items@[k].uploaded);
                        }
                    }
                }
            }
            hi = mid;
        }
    }
    lo
}

/// The entries ordered newest first (entries with the same upload time in
/// any order).
pub fn sort_newest_first(entries: &Vec<FeedEntry>) -> (sorted: Vec<FeedEntry>)
    ensures
        sorted_desc(sorted@),
        sorted@.to_multiset() == entries@.to_multiset(),
{
    let mut sorted: Vec<FeedEntry> = Vec::new();
    let mut i: usize = 0;
    assert(entries@.take(0) =~= sorted@);
    while i < entries.len()
        invariant
            i <= entries@.len(),
            sorted_desc(sorted@),
            sorted@.to_multiset() == entries@.take(i as int).to_multiset(),
        decreases entries@.len() - i,
    {
        let e = entries[i];
        let idx: usize = ordered_position(&sorted, e.uploaded);
        let ghost before = sorted@;
        sorted.insert(idx, e);
        proof {
            lemma_insert_sorted(before, idx as int, e);
            vstd::seq_lib::to_multiset_insert(before, idx as int, e);
            assert(entries@.take(i + 1) =~= entries@.take(i as int).push(e));
            vstd::seq_lib::to_multiset_build(entries@.take(i as int), e);
        }
        i = i + 1;
    }
    assert(entries@.take(entries@.len() as int) =~= entries@);
    sorted
}

} // verus!
