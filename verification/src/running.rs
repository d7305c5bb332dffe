//! The trainers that were launched in this session.
//!
//! A trainer is known by the components of the path of its file, so that `/a/b`
//! and `/a//b` are the same trainer. What is kept of it is the process group in which it runs: a trainer unpacks
//! itself and starts anew, so that a single process would be lost. The group 0
//! stands for a launch that is under way and has no process yet.

use crate::paths;
use crate::paths::Components;
use crate::table;
use vstd::prelude::*;

verus! {

/// What is kept of a launch that has no process yet.
pub const PENDING: u32 = 0;

// ---------------------------------------------------------------------------
// What each event does
// ---------------------------------------------------------------------------

/// A launch begins: it is under way, unless the trainer is known already.
pub open spec fn begun(running: Map<Components, u32>, path: Components) -> Map<Components, u32> {
    if running.contains_key(path) {
        running
    } else {
        running.insert(path, PENDING)
    }
}

/// A launch is over: where it is still under way, it is forgotten. A group that
/// was recorded meanwhile stays.
pub open spec fn settled(running: Map<Components, u32>, path: Components) -> Map<Components, u32> {
    if running.contains_key(path) && running[path] == PENDING {
        running.remove(path)
    } else {
        running
    }
}

/// The group `pgid` of a trainer was found to be gone: the trainer is forgotten,
/// unless it was launched anew meanwhile.
pub open spec fn left(running: Map<Components, u32>, path: Components, pgid: u32) -> Map<Components, u32> {
    if running.contains_key(path) && running[path] == pgid {
        running.remove(path)
    } else {
        running
    }
}

/// These groups were found to be gone, one after the other.
pub open spec fn all_left(running: Map<Components, u32>, gone: Seq<(Components, u32)>) -> Map<Components, u32>
    decreases gone.len(),
{
    if gone.len() == 0 {
        running
    } else {
        left(all_left(running, gone.drop_last()), gone.last().0, gone.last().1)
    }
}

/// All trainers were stopped: what remains is under way.
pub open spec fn all_stopped(running: Map<Components, u32>) -> Map<Components, u32> {
    Map::new(
        |path: Components| running.contains_key(path) && running[path] == PENDING,
        |path: Components| running[path],
    )
}

/// Of the trainers, those that have a process group, in their order.
pub open spec fn with_group<K>(listed: Seq<(K, u32)>) -> Seq<(K, u32)>
    decreases listed.len(),
{
    if listed.len() == 0 {
        Seq::empty()
    } else if listed.last().1 != PENDING {
        with_group(listed.drop_last()).push(listed.last())
    } else {
        with_group(listed.drop_last())
    }
}

// ---------------------------------------------------------------------------
// The trainers of a session
// ---------------------------------------------------------------------------

/// The trainers of a session.
pub struct RunningTrainers {
    entries: Vec<(Vec<u8>, u32)>,
}

impl View for RunningTrainers {
    type V = Map<Components, u32>;

    closed spec fn view(&self) -> Map<Components, u32> {
        table::table_of(keyed(self.listed()))
    }
}

/// What trainers and their groups are.
pub open spec fn group_views(groups: Seq<(Vec<u8>, u32)>) -> Seq<(Seq<u8>, u32)> {
    Seq::new(groups.len(), |i: int| (groups[i].0@, groups[i].1))
}

/// Trainers and their groups, by what the trainers are known by.
pub open spec fn keyed(listed: Seq<(Seq<u8>, u32)>) -> Seq<(Components, u32)> {
    Seq::new(listed.len(), |i: int| (paths::byte_components(listed[i].0), listed[i].1))
}

impl RunningTrainers {
    /// The trainers, in the order in which they are handed out: each by the path
    /// under which it was first known.
    pub closed spec fn listed(self) -> Seq<(Seq<u8>, u32)> {
        group_views(self.entries@)
    }

    /// No trainer is listed twice.
    pub closed spec fn wf(self) -> bool {
        table::keys_differ(keyed(self.listed()))
    }

    /// A session without trainers.
    pub fn new() -> (running: RunningTrainers)
        ensures
            running.wf(),
            running@ == Map::<Components, u32>::empty(),
    {
        RunningTrainers { entries: Vec::new() }
    }

    /// Where a trainer is listed.
    fn position(&self, path: &[u8]) -> (found: Option<usize>)
        ensures
            self.listed().len() == self.entries@.len(),
            match found {
                Some(at) => at < self.listed().len() && keyed(self.listed())[at as int].0
                    == paths::byte_components(path@),
                None => forall|i: int|
                    0 <= i < self.listed().len() ==> (#[trigger] keyed(self.listed())[i]).0
                        != paths::byte_components(path@),
            },
    {
        for i in 0..self.entries.len()
            invariant
                forall|j: int|
                    0 <= j < i ==> (#[trigger] keyed(self.listed())[j]).0 != paths::byte_components(
                        path@,
                    ),
        {
            assert(keyed(self.listed())[i as int].0 == paths::byte_components(
                self.entries@[i as int].0@,
            ));
            if paths::same_byte_path(&self.entries[i].0, path) {
                return Some(i);
            }
        }
        None
    }

    /// What is kept of a trainer.
    pub fn get(&self, path: &[u8]) -> (found: Option<u32>)
        requires
            self.wf(),
        ensures
            found == if self@.contains_key(paths::byte_components(path@)) {
                Some(self@[paths::byte_components(path@)])
            } else {
                None
            },
    {
        proof {
            table::lemma_table(keyed(self.listed()));
        }
        match self.position(path) {
            Some(at) => Some(self.entries[at].1),
            None => None,
        }
    }

    /// The group of a trainer that runs: that is shown with a button to stop it,
    /// and any other with one to launch it.
    pub fn running_group(&self, path: &[u8]) -> (found: Option<u32>)
        requires
            self.wf(),
        ensures
            ({
                let key = paths::byte_components(path@);
                found == if self@.contains_key(key) && self@[key] != PENDING {
                    Some(self@[key])
                } else {
                    None
                }
            }),
            found matches Some(pgid) ==> pgid != 0,
            self@.contains_key(paths::byte_components(path@))
                && self@[paths::byte_components(path@)] != 0 ==> found is Some,
    {
        match self.get(path) {
            Some(pgid) => if pgid != PENDING {
                Some(pgid)
            } else {
                None
            },
            None => None,
        }
    }

    /// Takes a trainer out.
    fn take_out(&mut self, at: usize)
        requires
            old(self).wf(),
            at < old(self).listed().len(),
        ensures
            final(self).wf(),
            final(self).listed() == old(self).listed().remove(at as int),
            final(self)@ == old(self)@.remove(keyed(old(self).listed())[at as int].0),
    {
        let ghost before = self.listed();
        proof {
            table::lemma_table_remove(keyed(before), at as int);
        }
        self.entries.remove(at);
        assert(self.listed() == before.remove(at as int));
        assert(keyed(self.listed()) == keyed(before).remove(at as int));
    }

    /// Puts a new trainer behind the others.
    fn put_in(&mut self, path: &[u8], pgid: u32)
        requires
            old(self).wf(),
            forall|i: int|
                0 <= i < old(self).listed().len() ==> (#[trigger] keyed(old(self).listed())[i]).0
                    != paths::byte_components(path@),
        ensures
            final(self).wf(),
            final(self)@ == old(self)@.insert(paths::byte_components(path@), pgid),
    {
        let ghost before = self.listed();
        proof {
            table::lemma_table_push(keyed(before), paths::byte_components(path@), pgid);
        }
        self.entries.push((vstd::slice::slice_to_vec(path), pgid));
        assert(self.listed() == before.push((path@, pgid)));
        assert(keyed(self.listed()) == keyed(before).push(
            (paths::byte_components(path@), pgid),
        ));
    }

    /// Begins a launch; says whether it is to go on. A second click before the
    /// first has led to anything does nothing, and so does one on a trainer that
    /// runs.
    pub fn begin_launch(&mut self, path: &[u8]) -> (begins: bool)
        requires
            old(self).wf(),
        ensures
            final(self).wf(),
            begins == !old(self)@.contains_key(paths::byte_components(path@)),
            final(self)@ == begun(old(self)@, paths::byte_components(path@)),
            begins ==> final(self)@ == old(self)@.insert(paths::byte_components(path@), 0),
            !begins ==> final(self)@ == old(self)@,
    {
        proof {
            table::lemma_table(keyed(self.listed()));
        }
        match self.position(path) {
            Some(_) => false,
            None => {
                self.put_in(path, PENDING);
                true
            },
        }
    }

    /// Ends a launch, however it went.
    pub fn settle_launch(&mut self, path: &[u8])
        requires
            old(self).wf(),
        ensures
            final(self).wf(),
            final(self)@ == settled(old(self)@, paths::byte_components(path@)),
            ({
                let key = paths::byte_components(path@);
                final(self)@ == if old(self)@.contains_key(key) && old(self)@[key] == 0 {
                    old(self)@.remove(key)
                } else {
                    old(self)@
                }
            }),
    {
        self.forget(path, PENDING);
    }

    /// Records the process group in which a trainer runs.
    pub fn record_launch(&mut self, path: &[u8], pgid: u32)
        requires
            old(self).wf(),
        ensures
            final(self).wf(),
            final(self)@ == old(self)@.insert(paths::byte_components(path@), pgid),
    {
        match self.position(path) {
            Some(at) => {
                let ghost before = self.listed();
                proof {
                    table::lemma_table_update(keyed(before), at as int, pgid);
                }
                let known = vstd::slice::slice_to_vec(&self.entries[at].0);
                self.entries.set(at, (known, pgid));
                assert(self.listed() == before.update(at as int, (before[at as int].0, pgid)));
                assert(keyed(self.listed()) == keyed(before).update(
                    at as int,
                    (paths::byte_components(path@), pgid),
                ));
            },
            None => {
                self.put_in(path, pgid);
            },
        }
    }

    /// Forgets a trainer whose group was found to be gone; says whether there was
    /// anything to forget.
    pub fn forget(&mut self, path: &[u8], pgid: u32) -> (changed: bool)
        requires
            old(self).wf(),
        ensures
            final(self).wf(),
            ({
                let key = paths::byte_components(path@);
                changed == (old(self)@.contains_key(key) && old(self)@[key] == pgid)
            }),
            final(self)@ == left(old(self)@, paths::byte_components(path@), pgid),
            changed ==> final(self)@ == old(self)@.remove(paths::byte_components(path@)),
            !changed ==> final(self)@ == old(self)@,
    {
        proof {
            table::lemma_table(keyed(self.listed()));
        }
        match self.position(path) {
            Some(at) => if self.entries[at].1 == pgid {
                self.take_out(at);
                true
            } else {
                false
            },
            None => false,
        }
    }

    /// Forgets each trainer whose group was found to be gone; says whether
    /// anything changed, so that the list is shown anew.
    pub fn forget_all(&mut self, gone: &[(Vec<u8>, u32)]) -> (changed: bool)
        requires
            old(self).wf(),
        ensures
            final(self).wf(),
            final(self)@ == all_left(old(self)@, keyed(group_views(gone@))),
            changed == (final(self)@ != old(self)@),
    {
        let ghost before = self@;
        let ghost all = keyed(group_views(gone@));
        let mut changed = false;
        for i in 0..gone.len()
            invariant
                self.wf(),
                all == keyed(group_views(gone@)),
                self@ == all_left(before, all.take(i as int)),
                self@.submap_of(before),
                changed == (self@ != before),
        {
            let ghost here = self@;
            assert(all.take(i + 1).drop_last() == all.take(i as int));
            assert(all[i as int] == (
                paths::byte_components(gone@[i as int].0@),
                gone@[i as int].1,
            ));
            if self.forget(&gone[i].0, gone[i].1) {
                changed = true;
                assert(before.contains_key(all[i as int].0));
            }
            assert(self@ == left(here, all[i as int].0, all[i as int].1));
            assert(here.submap_of(before));
            assert forall|path: Components| #[trigger]
                self@.dom().contains(path) implies before.dom().contains(path) && self@[path]
                == before[path] by {
                assert(here.dom().contains(path));
                assert(self@[path] == here[path]);
                assert(before.dom().contains(path));
            }
        }
        assert(all.take(all.len() as int) == all);
        changed
    }

    /// Forgets a trainer that was stopped.
    pub fn stopped(&mut self, path: &[u8])
        requires
            old(self).wf(),
        ensures
            final(self).wf(),
            final(self)@ == old(self)@.remove(paths::byte_components(path@)),
    {
        proof {
            table::lemma_table(keyed(self.listed()));
        }
        match self.position(path) {
            Some(at) => {
                self.take_out(at);
            },
            None => {
                assert(self@.remove(paths::byte_components(path@)) =~= self@);
            },
        }
    }

    /// Forgets all trainers that were stopped together: all but those whose
    /// launch is under way.
    pub fn stopped_all(&mut self)
        requires
            old(self).wf(),
        ensures
            final(self).wf(),
            final(self)@ == all_stopped(old(self)@),
            forall|key: Components| #[trigger]
                final(self)@.contains_key(key) <==> old(self)@.contains_key(key) && old(self)@[key]
                    == 0,
            forall|key: Components| #[trigger]
                final(self)@.contains_key(key) ==> final(self)@[key] == 0,
    {
        let ghost before = self@;
        proof {
            table::lemma_table(keyed(self.listed()));
        }
        let mut at: usize = 0;
        while at < self.entries.len()
            invariant
                self.wf(),
                at <= self.listed().len(),
                self.listed().len() == self.entries@.len(),
                forall|i: int| 0 <= i < at ==> (#[trigger] keyed(self.listed())[i]).1 == PENDING,
                self@.submap_of(before),
                forall|path: Components| #[trigger]
                    before.contains_key(path) && before[path] == PENDING ==> self@.contains_key(path),
            decreases self.listed().len() - at,
        {
            let ghost here = keyed(self.listed());
            proof {
                table::lemma_table(here);
            }
            assert(here[at as int].1 == self.entries@[at as int].1);
            if self.entries[at].1 == PENDING {
                at += 1;
            } else {
                self.take_out(at);
                assert forall|i: int| 0 <= i < at implies (#[trigger] keyed(self.listed())[i]).1
                    == PENDING by {
                    assert(keyed(self.listed())[i] == here[i]);
                }
            }
        }
        proof {
            table::lemma_table(keyed(self.listed()));
            assert(self@ =~= all_stopped(before));
        }
    }

    /// The trainers that have a process group, and the groups.
    pub fn groups(&self) -> (found: Vec<(Vec<u8>, u32)>)
        requires
            self.wf(),
        ensures
            group_views(found@) == with_group(self.listed()),
            table::keys_differ(keyed(self.listed())),
            self@ == table::table_of(keyed(self.listed())),
            forall|key: Components, pgid: u32| #[trigger]
                keyed(group_views(found@)).contains((key, pgid)) <==> pgid != 0
                    && self@.contains_key(key) && self@[key] == pgid,
    {
        let ghost all = self.listed();
        let mut found: Vec<(Vec<u8>, u32)> = Vec::new();
        assert(group_views(found@) == with_group(all.take(0)));
        for i in 0..self.entries.len()
            invariant
                all == self.listed(),
                group_views(found@) == with_group(all.take(i as int)),
        {
            let ghost before = group_views(found@);
            assert(all.take(i + 1).drop_last() == all.take(i as int));
            assert(all[i as int] == (self.entries@[i as int].0@, self.entries@[i as int].1));
            let entry = &self.entries[i];
            if entry.1 != PENDING {
                found.push((vstd::slice::slice_to_vec(&entry.0), entry.1));
                assert(group_views(found@) == before.push(all[i as int]));
            }
        }
        assert(all.take(all.len() as int) == all);
        assert forall|key: Components, pgid: u32| #[trigger]
            keyed(group_views(found@)).contains((key, pgid)) <==> pgid != 0 && self@.contains_key(
                key,
            ) && self@[key] == pgid by {
            law_groups_are_those_of_running_trainers(all, key, pgid);
        }
        found
    }
}

// ---------------------------------------------------------------------------
// Laws
// ---------------------------------------------------------------------------

/// Those that have a group are exactly the keys that are in the table with one.
proof fn lemma_with_group<K>(listed: Seq<(K, u32)>, path: K, pgid: u32)
    requires
        table::keys_differ(listed),
    ensures
        with_group(listed).contains((path, pgid)) <==> pgid != PENDING && table::table_of(
            listed,
        ).contains_key(path) && table::table_of(listed)[path] == pgid,
    decreases listed.len(),
{
    table::lemma_table(listed);
    if listed.len() > 0 {
        let most = listed.drop_last();
        assert forall|i: int, j: int| 0 <= i < j < most.len() implies (#[trigger] most[i]).0 != (
        #[trigger] most[j]).0 by {
            assert(most[i] == listed[i] && most[j] == listed[j]);
        }
        table::lemma_table(most);
        lemma_with_group(most, path, pgid);
        let before = with_group(most);
        let last = listed.last();
        if table::table_of(most).contains_key(path) {
            let i = choose|i: int| 0 <= i < most.len() && (#[trigger] most[i]).0 == path;
            assert(listed[i] == most[i]);
            assert(listed[i].0 != listed[listed.len() - 1].0);
        }
        if last.1 != PENDING {
            let after = before.push(last);
            assert(after[before.len() as int] == last);
            assert(after.contains((path, pgid)) <==> before.contains((path, pgid)) || last == (
                path,
                pgid,
            )) by {
                if before.contains((path, pgid)) {
                    let k = choose|k: int| 0 <= k < before.len() && before[k] == (path, pgid);
                    assert(after[k] == (path, pgid));
                }
                if after.contains((path, pgid)) {
                    let k = choose|k: int| 0 <= k < after.len() && after[k] == (path, pgid);
                    if k < before.len() {
                        assert(before[k] == (path, pgid));
                    }
                }
            }
        }
    }
}

/// Of the trainers that have a group, each by what it is known by.
proof fn lemma_with_group_keyed(listed: Seq<(Seq<u8>, u32)>)
    ensures
        keyed(with_group(listed)) == with_group(keyed(listed)),
    decreases listed.len(),
{
    if listed.len() > 0 {
        lemma_with_group_keyed(listed.drop_last());
        assert(keyed(listed).drop_last() == keyed(listed.drop_last()));
        if listed.last().1 != PENDING {
            assert(keyed(with_group(listed.drop_last()).push(listed.last())) == keyed(
                with_group(listed.drop_last()),
            ).push(keyed(listed).last()));
        }
    } else {
        assert(keyed(with_group(listed)) == with_group(keyed(listed)));
    }
}

/// Those that have a group are exactly the trainers that are known with one.
pub proof fn law_groups_are_those_of_running_trainers(
    listed: Seq<(Seq<u8>, u32)>,
    path: Components,
    pgid: u32,
)
    requires
        table::keys_differ(keyed(listed)),
    ensures
        keyed(with_group(listed)).contains((path, pgid)) <==> pgid != PENDING && table::table_of(
            keyed(listed),
        ).contains_key(path) && table::table_of(keyed(listed))[path] == pgid,
{
    lemma_with_group_keyed(listed);
    lemma_with_group(keyed(listed), path, pgid);
}

/// A launch that led to nothing leaves no trace, a second click on the button
/// changes nothing, and a group that was recorded outlives the end of the launch.
pub proof fn law_launch(running: Map<Components, u32>, path: Components, pgid: u32)
    ensures
        begun(begun(running, path), path) == begun(running, path),
        !running.contains_key(path) ==> settled(begun(running, path), path) == running,
        pgid != PENDING ==> settled(begun(running, path).insert(path, pgid), path)
            == running.insert(path, pgid),
{
    if !running.contains_key(path) {
        assert(settled(begun(running, path), path) =~= running);
    }
    assert(begun(running, path).insert(path, pgid) =~= running.insert(path, pgid));
}

/// A trainer that was stopped and launched anew while it was looked for its
/// first group is kept with its second.
pub proof fn law_relaunch_is_kept(running: Map<Components, u32>, path: Components, first: u32, second: u32)
    requires
        first != second,
    ensures
        left(running.insert(path, second), path, first) == running.insert(path, second),
{
}

/// What happens to one trainer leaves every other one alone.
pub proof fn law_others_are_left_alone(
    running: Map<Components, u32>,
    path: Components,
    other: Components,
    pgid: u32,
)
    requires
        path != other,
    ensures
        begun(running, path).contains_key(other) == running.contains_key(other),
        settled(running, path).contains_key(other) == running.contains_key(other),
        left(running, path, pgid).contains_key(other) == running.contains_key(other),
        running.contains_key(other) ==> {
            &&& begun(running, path)[other] == running[other]
            &&& settled(running, path)[other] == running[other]
            &&& left(running, path, pgid)[other] == running[other]
        },
{
}

/// After all trainers were stopped none has a group, and a launch that was under
/// way still is.
pub proof fn law_all_stopped(running: Map<Components, u32>, path: Components)
    ensures
        all_stopped(running).contains_key(path) <==> running.contains_key(path) && running[path]
            == PENDING,
        all_stopped(running).contains_key(path) ==> all_stopped(running)[path] == PENDING,
{
}

/// A path that is written with a separator more is the path of the same trainer:
/// a launch under way for one is under way for the other.
pub proof fn law_one_trainer_however_written(running: Map<Components, u32>, a: Seq<u8>, b: Seq<u8>)
    requires
        a.len() > 0,
    ensures
        ({
            let one = paths::byte_components(a.push(0x2f) + b);
            let two = paths::byte_components(a.push(0x2f).push(0x2f) + b);
            begun(running, one).contains_key(two)
        }),
{
    let chars = paths::byte_chars(a);
    let more = paths::byte_chars(b);
    assert(paths::byte_chars(a.push(0x2f) + b) == chars.push('/') + more);
    assert(paths::byte_chars(a.push(0x2f).push(0x2f) + b) == chars.push('/').push('/') + more);
    paths::law_doubled_separators_count_once(chars, more);
}

/// After groups were found to be gone, a trainer is still known exactly where it
/// was and none of those is the group that it was known with; and it is known
/// with that group.
pub proof fn law_gone_groups_are_forgotten(
    running: Map<Components, u32>,
    gone: Seq<(Components, u32)>,
    key: Components,
)
    ensures
        all_left(running, gone).contains_key(key) <==> running.contains_key(key) && !gone.contains(
            (key, running[key]),
        ),
        all_left(running, gone).contains_key(key) ==> all_left(running, gone)[key] == running[key],
    decreases gone.len(),
{
    if gone.len() > 0 {
        let most = gone.drop_last();
        let pair = (key, running[key]);
        law_gone_groups_are_forgotten(running, most, key);
        if most.contains(pair) {
            let i = most.index_of(pair);
            assert(gone[i] == pair);
        }
        if gone.contains(pair) {
            let i = gone.index_of(pair);
            if i < most.len() {
                assert(most[i] == pair);
            }
        }
        if gone.last() == pair {
            assert(gone[gone.len() - 1] == pair);
        }
    }
}

} // verus!
