//! Backups: when one is due, what it is called, which are kept.
use vstd::prelude::*;

use crate::numbers::{all_digits, decimal, decimal_of, lemma_decimal, number};
use crate::sorting::{in_order, order_of, places, sorted_order};
use crate::tables::{
    as_map, distinct, lemma_as_map, lemma_as_map_insert, lemma_as_map_remove, lemma_as_map_update,
};
use crate::text::{
    alphanumeric, begins_with, cat2, cat4, chars_of, ends_with, finishes_with, is_alphanumeric,
    is_digit, lemma_precedes_after, lemma_precedes_before, lemma_precedes_irreflexive, lemma_precedes_total,
    occurs_at, pieces, precedes, same, starts_with, string_of, texts,
};
use crate::worlds::{is_leaf, is_safe_leaf_name};

verus! {

// ---------------------------------------------------------------------------------------------
// The schedule
// ---------------------------------------------------------------------------------------------
/// A moment: seconds since the beginning of 1970, and nanoseconds after that.
#[derive(Clone, Copy, Debug, PartialEq, Eq, Structural)]
pub struct Moment {
    pub secs: i64,
    pub nanos: u32,
}

impl Moment {
    /// The moment in nanoseconds since the beginning of 1970.
    pub open spec fn total(self) -> int {
        self.secs * 1_000_000_000 + self.nanos
    }

    /// The moment in nanoseconds since the beginning of 1970.
    pub fn in_nanos(self) -> (r: i128)
        ensures
            r == self.total(),
    {
        self.secs as i128 * 1_000_000_000 + self.nanos as i128
    }
}

/// How often backups are taken, in minutes: every 30, 60 or 360 minutes, or never.
pub open spec fn interval(raw: u32) -> u32 {
    if raw == 30 || raw == 60 || raw == 360 {
        raw
    } else {
        0
    }
}

/// How often backups are taken, in minutes.
pub fn backup_every_min(raw: u32) -> (r: u32)
    ensures
        r == interval(raw),
{
    if raw == 30 || raw == 60 || raw == 360 {
        raw
    } else {
        0
    }
}

/// Whether a backup is due at `now`, where the last one was at `last`: the interval has passed in
/// whole seconds, or the clock went back.
pub open spec fn due(last: Option<Moment>, every_min: u32, now: Moment) -> bool {
    interval(every_min) != 0 && match last {
        Some(t) => now.total() < t.total() || (now.total() - t.total()) / 1_000_000_000 >= interval(
            every_min,
        ) * 60,
        None => false,
    }
}

/// Whether a backup is due at `now`, where the last one was at `last`.
pub fn backup_is_due(last: Option<Moment>, every_min: u32, now: Moment) -> (r: bool)
    ensures
        r == due(last, every_min, now),
{
    let every: u32 = backup_every_min(every_min);
    if every == 0 {
        return false;
    }
    match last {
        Some(t) => {
            let a: i128 = now.in_nanos();
            let b: i128 = t.in_nanos();
            if a < b {
                true
            } else {
                let passed: i128 = (a - b) / 1_000_000_000;
                passed >= every as i128 * 60
            }
        },
        None => false,
    }
}

/// A first backup waits one interval, and then it is due.
pub proof fn law_first_backup_waits_one_interval(t: Moment, every_min: u32, now: Moment)
    requires
        interval(every_min) != 0,
        t.total() <= now.total(),
    ensures
        due(Some(t), every_min, now) <==> now.total() - t.total() >= interval(every_min) * 60
            * 1_000_000_000,
{
}

/// Whether there is room for a backup that nobody asked for: two gigabytes, or nobody knows.
pub fn auto_backup_allowed(free: Option<u64>) -> (r: bool)
    ensures
        r == match free {
            Some(n) => n >= 2_147_483_648,
            None => true,
        },
{
    match free {
        Some(n) => n >= 2_147_483_648,
        None => true,
    }
}

/// When each server's last backup was taken.
pub struct BackupClock {
    pub ids: Vec<String>,
    pub times: Vec<Moment>,
}

impl View for BackupClock {
    type V = Map<Seq<char>, Moment>;

    open spec fn view(&self) -> Map<Seq<char>, Moment> {
        as_map(texts(self.ids@), self.times@)
    }
}

impl BackupClock {
    /// Each server has one time.
    pub open spec fn wf(&self) -> bool {
        &&& self.ids@.len() == self.times@.len()
        &&& distinct(texts(self.ids@))
    }

    /// A clock that knows of no backup.
    pub fn new() -> (r: BackupClock)
        ensures
            r.wf(),
            r@ == Map::<Seq<char>, Moment>::empty(),
    {
        let r = BackupClock { ids: Vec::new(), times: Vec::new() };
        assert(texts(r.ids@) == Seq::<Seq<char>>::empty());
        r
    }

    fn place(&self, id: &str) -> (r: Option<usize>)
        requires
            self.wf(),
        ensures
            match r {
                Some(i) => i < self.ids@.len() && texts(self.ids@)[i as int] == id@,
                None => !texts(self.ids@).contains(id@),
            },
    {
        let n: usize = self.ids.len();
        for i in 0..n
            invariant
                n == self.ids@.len(),
                forall|j: int| 0 <= j < i ==> #[trigger] texts(self.ids@)[j] != id@,
        {
            if same(self.ids[i].as_str(), id) {
                return Some(i);
            }
            assert(texts(self.ids@)[i as int] != id@);
        }
        None
    }

    /// When the last backup of `id` was taken.
    pub fn last(&self, id: &str) -> (r: Option<Moment>)
        requires
            self.wf(),
        ensures
            match r {
                Some(t) => self@.contains_key(id@) && self@[id@] == t,
                None => !self@.contains_key(id@),
            },
    {
        let place = self.place(id);
        proof {
            lemma_as_map(texts(self.ids@), self.times@);
        }
        match place {
            Some(i) => Some(self.times[i]),
            None => None,
        }
    }

    /// Notes that a backup of `id` was taken at `now`.
    pub fn mark(&mut self, id: &str, now: Moment)
        requires
            old(self).wf(),
        ensures
            final(self).wf(),
            final(self)@ == old(self)@.insert(id@, now),
    {
        let ghost ks = texts(self.ids@);
        let ghost vs = self.times@;
        match self.place(id) {
            Some(i) => {
                self.times.set(i, now);
                proof {
                    lemma_as_map_update(ks, vs, i as int, now);
                }
            },
            None => {
                self.ids.push(id.to_owned());
                self.times.push(now);
                proof {
                    lemma_as_map_insert(ks, vs, ks.len() as int, id@, now);
                    assert(texts(self.ids@) == ks.insert(ks.len() as int, id@));
                    assert(self.times@ == vs.insert(vs.len() as int, now));
                }
            },
        }
    }

    /// Forgets the backups of `id`.
    pub fn forget(&mut self, id: &str)
        requires
            old(self).wf(),
        ensures
            final(self).wf(),
            final(self)@ == old(self)@.remove(id@),
    {
        let ghost ks = texts(self.ids@);
        let ghost vs = self.times@;
        match self.place(id) {
            Some(i) => {
                let _ = self.ids.remove(i);
                let _ = self.times.remove(i);
                proof {
                    lemma_as_map_remove(ks, vs, i as int);
                    assert(texts(self.ids@) == ks.remove(i as int));
                }
            },
            None => {
                proof {
                    lemma_as_map(ks, vs);
                    assert(!as_map(ks, vs).contains_key(id@));
                    assert(as_map(ks, vs).remove(id@) == as_map(ks, vs));
                }
            },
        }
    }

    /// Takes the interval that was chosen for `id`, and returns the one that holds: where backups
    /// are off, the time of the last one is forgotten; else the clock starts now.
    pub fn choose_interval(&mut self, id: &str, minutes: i32, now: Moment) -> (r: u32)
        requires
            old(self).wf(),
        ensures
            final(self).wf(),
            r == (if minutes < 0 {
                0
            } else {
                interval(minutes as u32)
            }),
            final(self)@ == (if r == 0 {
                old(self)@.remove(id@)
            } else {
                old(self)@.insert(id@, now)
            }),
    {
        let every: u32 = if minutes < 0 {
            0
        } else {
            backup_every_min(minutes as u32)
        };
        if every == 0 {
            self.forget(id);
        } else {
            self.mark(id, now);
        }
        every
    }

    /// Looks at a server once: whether a backup of it is due. Where backups are off, its time is
    /// forgotten; where it has none yet, the clock starts now.
    pub fn tick(&mut self, id: &str, every_min: u32, now: Moment) -> (r: bool)
        requires
            old(self).wf(),
        ensures
            final(self).wf(),
            ({
                let off = interval(every_min) == 0;
                let known = old(self)@.contains_key(id@);
                &&& final(self)@ == (if off {
                    old(self)@.remove(id@)
                } else if known {
                    old(self)@
                } else {
                    old(self)@.insert(id@, now)
                })
                &&& r == (!off && known && due(Some(old(self)@[id@]), every_min, now))
            }),
    {
        if backup_every_min(every_min) == 0 {
            self.forget(id);
            return false;
        }
        match self.last(id) {
            Some(t) => backup_is_due(Some(t), every_min, now),
            None => {
                self.mark(id, now);
                false
            },
        }
    }
}

/// The servers of which a backup is being taken.
pub struct BusySet {
    pub ids: Vec<String>,
}

impl View for BusySet {
    type V = Set<Seq<char>>;

    open spec fn view(&self) -> Set<Seq<char>> {
        texts(self.ids@).to_set()
    }
}

impl BusySet {
    /// No server is busy.
    pub fn new() -> (r: BusySet)
        ensures
            r@ == Set::<Seq<char>>::empty(),
    {
        let r = BusySet { ids: Vec::new() };
        assert(texts(r.ids@) == Seq::<Seq<char>>::empty());
        assert(r@ == Set::<Seq<char>>::empty());
        r
    }

    /// Whether `id` is busy.
    pub fn contains(&self, id: &str) -> (r: bool)
        ensures
            r == self@.contains(id@),
    {
        let n: usize = self.ids.len();
        for i in 0..n
            invariant
                n == self.ids@.len(),
                forall|j: int| 0 <= j < i ==> #[trigger] texts(self.ids@)[j] != id@,
        {
            assert(texts(self.ids@)[i as int] == self.ids@[i as int]@);
            if same(self.ids[i].as_str(), id) {
                assert(texts(self.ids@).contains(id@));
                return true;
            }
        }
        false
    }

    /// Makes `id` busy, and says whether it was not.
    pub fn insert(&mut self, id: &str) -> (r: bool)
        ensures
            r == !old(self)@.contains(id@),
            final(self)@ == old(self)@.insert(id@),
    {
        if self.contains(id) {
            assert(self@.insert(id@) == self@);
            return false;
        }
        let ghost s0 = texts(self.ids@);
        self.ids.push(id.to_owned());
        proof {
            let s1 = texts(self.ids@);
            assert(s1 == s0.push(id@));
            assert forall|x: Seq<char>| #[trigger] s1.contains(x) <==> s0.contains(x) || x == id@ by {
                if s0.contains(x) {
                    let i = choose|i: int| 0 <= i < s0.len() && s0[i] == x;
                    assert(s1[i] == x);
                }
                assert(s1[s0.len() as int] == id@);
            }
            assert(self@ == s0.to_set().insert(id@));
        }
        true
    }

    /// Makes `id` not busy.
    pub fn remove(&mut self, id: &str)
        ensures
            final(self)@ == old(self)@.remove(id@),
    {
        let n: usize = self.ids.len();
        let ghost all = texts(self.ids@);
        let mut kept: Vec<String> = Vec::new();
        for i in 0..n
            invariant
                n == self.ids@.len(),
                all == texts(self.ids@),
                forall|x: Seq<char>| #[trigger]
                    texts(kept@).contains(x) <==> x != id@ && all.take(i as int).contains(x),
        {
            let ghost k0 = texts(kept@);
            let ghost here = all[i as int];
            if !same(self.ids[i].as_str(), id) {
                kept.push(self.ids[i].clone());
                assert(texts(kept@) == k0.push(here));
            }
            proof {
                let k1 = texts(kept@);
                let a1 = all.take(i + 1);
                assert forall|x: Seq<char>| #[trigger]
                    k1.contains(x) <==> x != id@ && a1.contains(x) by {
                    assert(k0.contains(x) <==> x != id@ && all.take(i as int).contains(x));
                    if all.take(i as int).contains(x) {
                        let j = choose|j: int| 0 <= j < i && all.take(i as int)[j] == x;
                        assert(a1[j] == x);
                    }
                    if a1.contains(x) && x != here {
                        let j = choose|j: int| 0 <= j < a1.len() && a1[j] == x;
                        assert(all.take(i as int)[j] == x);
                    }
                    assert(a1[i as int] == here);
                    if k0.contains(x) {
                        let j = choose|j: int| 0 <= j < k0.len() && k0[j] == x;
                        assert(k1[j] == x);
                    }
                    if here != id@ {
                        assert(k1[k0.len() as int] == here);
                    }
                }
            }
        }
        assert(all.take(n as int) == all);
        self.ids = kept;
        assert(self@ == all.to_set().remove(id@));
    }
}

/// What becomes of a backup that is due.
#[derive(Clone, Copy, Debug, PartialEq, Eq, Structural)]
pub enum DueBackup {
    /// It waits: one is being taken, or the server does not run.
    Wait,
    /// It is left out: the disk is nearly full.
    DiskLow,
    /// It is left out: the server cannot be told to save.
    NotOurs,
    /// It is taken.
    Take,
}

/// What becomes of a backup that is due. `sent` says whether the server could be told to save; it
/// counts only where the server runs and there is room.
pub fn due_backup(busy: bool, running: bool, free: Option<u64>, sent: bool) -> (r: DueBackup)
    ensures
        r == (if busy || !running {
            DueBackup::Wait
        } else if free is Some && free->0 < 2_147_483_648 {
            DueBackup::DiskLow
        } else if !sent {
            DueBackup::NotOurs
        } else {
            DueBackup::Take
        }),
{
    if busy || !running {
        DueBackup::Wait
    } else if !auto_backup_allowed(free) {
        DueBackup::DiskLow
    } else if !sent {
        DueBackup::NotOurs
    } else {
        DueBackup::Take
    }
}

// ---------------------------------------------------------------------------------------------
// Taking a backup
// ---------------------------------------------------------------------------------------------
/// A folder that may go into a backup, and whether it is there.
pub struct Candidate {
    pub name: String,
    pub is_dir: bool,
}

/// What a backup is to hold.
pub struct BackupPlan {
    pub name: String,
    pub folders: Vec<String>,
}

/// The name of the backup that was taken at `ts`.
pub open spec fn backup_name(prefix: Seq<char>, ts: u64) -> Seq<char> {
    prefix + "-"@ + decimal(ts as nat) + ".zip"@
}

/// Whether `prefix` is letters and digits.
pub open spec fn is_plain(prefix: Seq<char>) -> bool {
    forall|i: int| 0 <= i < prefix.len() ==> is_alphanumeric(#[trigger] prefix[i])
}

/// The names of those of `candidates` that go into a backup: they are there, and stay in their
/// folder.
pub open spec fn taken(candidates: Seq<Candidate>) -> Seq<Seq<char>>
    decreases candidates.len(),
{
    if candidates.len() == 0 {
        Seq::empty()
    } else {
        let before = taken(candidates.drop_last());
        let c = candidates.last();
        if is_leaf(c.name@) && c.is_dir {
            before.push(c.name@)
        } else {
            before
        }
    }
}

/// Plans a backup of `candidates`, taken at `ts`. One without worlds is refused, and so is a
/// prefix that is not letters and digits.
pub fn backup_folders(candidates: &Vec<Candidate>, prefix: &str, ts: u64) -> (r: Result<
    BackupPlan,
    String,
>)
    ensures
        match r {
            Ok(plan) => is_plain(prefix@) && taken(candidates@).len() > 0 && plan.name@
                == backup_name(prefix@, ts) && texts(plan.folders@) == taken(candidates@),
            Err(e) => if candidates@.len() == 0 || is_plain(prefix@) {
                taken(candidates@).len() == 0 && e@
                    == "Dünya klasörü yok. Sunucuyu bir kez çalıştırın."@
            } else {
                e@ == "Geçersiz yedek adı."@
            },
        },
{
    let n: usize = candidates.len();
    if n == 0 {
        return Err("Dünya klasörü yok. Sunucuyu bir kez çalıştırın.".to_owned());
    }
    if !plain(prefix) {
        return Err("Geçersiz yedek adı.".to_owned());
    }
    let mut folders: Vec<String> = Vec::new();
    assert(texts(folders@) == Seq::<Seq<char>>::empty());
    for i in 0..n
        invariant
            n == candidates@.len(),
            texts(folders@) == taken(candidates@.take(i as int)),
    {
        assert(candidates@.take(i + 1).drop_last() == candidates@.take(i as int));
        let c = &candidates[i];
        if is_safe_leaf_name(c.name.as_str()) && c.is_dir {
            let ghost f0 = texts(folders@);
            folders.push(c.name.clone());
            assert(texts(folders@) == f0.push(c.name@));
        }
    }
    assert(candidates@.take(n as int) == candidates@);
    if folders.len() == 0 {
        assert(texts(folders@).len() == 0);
        return Err("Dünya klasörü yok. Sunucuyu bir kez çalıştırın.".to_owned());
    }
    assert(texts(folders@).len() > 0);
    let name = cat4(prefix, "-", decimal_of(ts).as_str(), ".zip");
    Ok(BackupPlan { name, folders })
}

/// Whether `prefix` is letters and digits.
fn plain(prefix: &str) -> (r: bool)
    ensures
        r == is_plain(prefix@),
{
    let cs = chars_of(prefix);
    let n: usize = cs.len();
    for i in 0..n
        invariant
            n == cs@.len(),
            cs@ == prefix@,
            forall|j: int| 0 <= j < i ==> is_alphanumeric(#[trigger] cs@[j]),
    {
        if !alphanumeric(cs[i]) {
            assert(!is_alphanumeric(prefix@[i as int]));
            return false;
        }
    }
    true
}

// ---------------------------------------------------------------------------------------------
// Keeping backups
// ---------------------------------------------------------------------------------------------
/// Whether `name` is a backup with `prefix`.
pub open spec fn has_prefix(name: Seq<char>, prefix: Seq<char>) -> bool {
    starts_with(name, prefix + "-"@) && ends_with(name, ".zip"@)
}

/// Those of `names` that are backups with `prefix`.
pub open spec fn backups_with(names: Seq<Seq<char>>, prefix: Seq<char>) -> Seq<Seq<char>>
    decreases names.len(),
{
    if names.len() == 0 {
        Seq::empty()
    } else {
        let before = backups_with(names.drop_last(), prefix);
        if has_prefix(names.last(), prefix) {
            before.push(names.last())
        } else {
            before
        }
    }
}

/// `names` in the order of their characters.
pub open spec fn sorted_up(names: Seq<Seq<char>>) -> Seq<Seq<char>> {
    let o = order_of(names, names.len(), false);
    Seq::new(names.len(), |i: int| names[o[i]])
}

/// Which of `names` go so that no more than `keep` backups with `prefix` are left: the first in
/// the order of their names.
pub open spec fn pruned(names: Seq<Seq<char>>, prefix: Seq<char>, keep: nat) -> Seq<Seq<char>> {
    let sorted = sorted_up(backups_with(names, prefix));
    if sorted.len() > keep {
        sorted.take(sorted.len() - keep)
    } else {
        Seq::empty()
    }
}

/// Which of `names` go so that no more than `keep` backups with `prefix` are left.
pub fn prune_backups(names: &Vec<String>, prefix: &str, keep: usize) -> (r: Vec<String>)
    ensures
        texts(r@) == pruned(texts(names@), prefix@, keep as nat),
{
    let head = cat2(prefix, "-");
    let n: usize = names.len();
    let ghost all = texts(names@);
    let mut found: Vec<Vec<char>> = Vec::new();
    assert(pieces(found@) == Seq::<Seq<char>>::empty());
    for i in 0..n
        invariant
            n == names@.len(),
            all == texts(names@),
            head@ == prefix@ + "-"@,
            pieces(found@) == backups_with(all.take(i as int), prefix@),
    {
        assert(all.take(i + 1).drop_last() == all.take(i as int));
        assert(all.take(i + 1).last() == all[i as int]);
        if begins_with(names[i].as_str(), head.as_str()) && finishes_with(names[i].as_str(), ".zip") {
            let ghost f0 = pieces(found@);
            found.push(chars_of(names[i].as_str()));
            assert(pieces(found@) == f0.push(all[i as int]));
        }
    }
    assert(all.take(n as int) == all);
    let order = sorted_order(&found, false);
    let m: usize = found.len();
    let ghost sorted = sorted_up(pieces(found@));
    let mut out: Vec<String> = Vec::new();
    let gone: usize = if m > keep {
        m - keep
    } else {
        0
    };
    assert(texts(out@) == sorted.take(0));
    for i in 0..gone
        invariant
            gone <= m,
            m == found@.len(),
            order@.len() == m,
            in_order(places(order@), pieces(found@), m as nat, false),
            places(order@) == order_of(pieces(found@), m as nat, false),
            sorted == sorted_up(pieces(found@)),
            texts(out@) == sorted.take(i as int),
    {
        let ghost o0 = texts(out@);
        assert(places(order@)[i as int] == order@[i as int] as int);
        out.push(string_of(&found[order[i]]));
        assert(texts(out@) == o0.push(pieces(found@)[order@[i as int] as int]));
        assert(sorted.take(i + 1) == sorted.take(i as int).push(sorted[i as int]));
    }
    out
}

/// Pruning never touches a file that is no backup with the prefix, and leaves as many backups as
/// it is told to keep, or all of them.
pub proof fn law_pruning(names: Seq<Seq<char>>, prefix: Seq<char>, keep: nat)
    ensures
        forall|i: int|
            0 <= i < pruned(names, prefix, keep).len() ==> has_prefix(
                #[trigger] pruned(names, prefix, keep)[i],
                prefix,
            ) && names.contains(pruned(names, prefix, keep)[i]),
        backups_with(names, prefix).len() - pruned(names, prefix, keep).len() == (if backups_with(
            names,
            prefix,
        ).len() > keep {
            keep
        } else {
            backups_with(names, prefix).len()
        }),
{
    let found = backups_with(names, prefix);
    lemma_backups_with(names, prefix);
    crate::sorting::law_order(found, found.len(), false);
    let o = order_of(found, found.len(), false);
    assert forall|i: int| 0 <= i < pruned(names, prefix, keep).len() implies has_prefix(
        #[trigger] pruned(names, prefix, keep)[i],
        prefix,
    ) && names.contains(pruned(names, prefix, keep)[i]) by {
        assert(0 <= o[i] < found.len());
        assert(pruned(names, prefix, keep)[i] == found[o[i]]);
    }
}

proof fn lemma_backups_with(names: Seq<Seq<char>>, prefix: Seq<char>)
    ensures
        forall|i: int|
            0 <= i < backups_with(names, prefix).len() ==> has_prefix(
                #[trigger] backups_with(names, prefix)[i],
                prefix,
            ) && names.contains(backups_with(names, prefix)[i]),
    decreases names.len(),
{
    if names.len() > 0 {
        let init = names.drop_last();
        lemma_backups_with(init, prefix);
        let before = backups_with(init, prefix);
        let after = backups_with(names, prefix);
        assert forall|i: int| 0 <= i < after.len() implies has_prefix(
            #[trigger] after[i],
            prefix,
        ) && names.contains(after[i]) by {
            if i < before.len() {
                assert(after[i] == before[i]);
                let j = choose|j: int| 0 <= j < init.len() && init[j] == before[i];
                assert(names[j] == after[i]);
            } else {
                assert(names[names.len() - 1] == after[i]);
            }
        }
    }
}

/// The backups that are left come after those that go: where the names of two backups differ,
/// the one that goes stands first in the order of code points.
pub proof fn law_the_first_go(names: Seq<Seq<char>>, prefix: Seq<char>, keep: nat)
    ensures
        ({
            let sorted = sorted_up(backups_with(names, prefix));
            let gone = pruned(names, prefix, keep).len();
            forall|i: int, j: int|
                0 <= i < gone <= j < sorted.len() ==> !precedes(
                    #[trigger] sorted[j],
                    #[trigger] sorted[i],
                )
        }),
{
    let found = backups_with(names, prefix);
    crate::sorting::law_order(found, found.len(), false);
    let o = order_of(found, found.len(), false);
    let sorted = sorted_up(found);
    let gone = pruned(names, prefix, keep).len();
    assert forall|i: int, j: int| 0 <= i < gone <= j < sorted.len() implies !precedes(
        #[trigger] sorted[j],
        #[trigger] sorted[i],
    ) by {
        assert(!crate::sorting::goes_before(found[o[j]], found[o[i]], false));
    }
}

/// Whether a backup may be used: its name stays in its folder and ends in `.zip`.
pub open spec fn is_backup(name: Seq<char>) -> bool {
    is_leaf(name) && ends_with(name, ".zip"@)
}

/// Whether the backup `name` may be restored or deleted; `is_file` says whether it is there.
pub fn check_backup(name: &str, is_file: bool) -> (r: Result<(), String>)
    ensures
        match r {
            Ok(_) => is_backup(name@) && is_file,
            Err(e) => if is_backup(name@) {
                !is_file && e@ == "Yedek bulunamadı."@
            } else {
                e@ == "Geçersiz yedek."@
            },
        },
{
    if !is_safe_leaf_name(name) || !finishes_with(name, ".zip") {
        return Err("Geçersiz yedek.".to_owned());
    }
    if !is_file {
        return Err("Yedek bulunamadı.".to_owned());
    }
    Ok(())
}

/// The name of a backup holds one dot, and nothing that leaves its folder.
proof fn lemma_name_chars(prefix: Seq<char>, ts: u64, i: int)
    requires
        is_plain(prefix),
        0 <= i < backup_name(prefix, ts).len(),
    ensures
        ({
            let s = backup_name(prefix, ts);
            &&& s[i] == '.' <==> i == s.len() - 4
            &&& s[i] != '/' && s[i] != '\\' && s[i] != ':'
        }),
{
    reveal_strlit("-");
    reveal_strlit(".zip");
    lemma_decimal(ts as nat);
    let d = decimal(ts as nat);
    let s = backup_name(prefix, ts);
    assert(s.len() == prefix.len() + 1 + d.len() + 4);
    if i < prefix.len() {
        assert(s[i] == prefix[i]);
        assert(is_alphanumeric(prefix[i]));
    } else if i == prefix.len() {
        assert(s[i] == '-');
    } else if i < prefix.len() + 1 + d.len() {
        assert(s[i] == d[i - prefix.len() - 1]);
        assert(is_digit(d[i - prefix.len() - 1]));
    } else {
        assert(s[i] == ".zip"@[i - prefix.len() - 1 - d.len()]);
    }
}

/// A backup that was taken can be restored and deleted, and is seen when backups are pruned.
pub proof fn law_backup_name_is_usable(prefix: Seq<char>, ts: u64)
    requires
        is_plain(prefix),
    ensures
        is_backup(backup_name(prefix, ts)),
        has_prefix(backup_name(prefix, ts), prefix),
{
    reveal_strlit("..");
    reveal_strlit("-");
    reveal_strlit(".zip");
    let s = backup_name(prefix, ts);
    let dots = ".."@;
    let d = decimal(ts as nat);
    assert(dots.len() == 2 && dots[0] == '.' && dots[1] == '.');
    assert forall|i: int| !occurs_at(s, dots, i) by {
        if occurs_at(s, dots, i) {
            assert(s.subrange(i, i + 2)[0] == s[i]);
            assert(s.subrange(i, i + 2)[1] == s[i + 1]);
            lemma_name_chars(prefix, ts, i);
            lemma_name_chars(prefix, ts, i + 1);
        }
    }
    assert forall|c: char| c == '/' || c == '\\' || c == ':' implies !#[trigger] s.contains(c) by {
        if s.contains(c) {
            let i = choose|i: int| 0 <= i < s.len() && s[i] == c;
            lemma_name_chars(prefix, ts, i);
        }
    }
    assert(s.len() > 0);
    assert(s.skip(s.len() - 4) == ".zip"@);
    assert(s.take(prefix.len() as int + 1) == prefix + "-"@);
}

/// Numbers with as many digits are in the order of their digits.
proof fn lemma_digits_in_order(x: Seq<char>, y: Seq<char>)
    requires
        x.len() == y.len(),
        all_digits(x),
        all_digits(y),
    ensures
        precedes(x, y) <==> number(x) < number(y),
        x == y <==> number(x) == number(y),
    decreases x.len(),
{
    if x.len() == 0 {
        assert(x == y);
    } else {
        let a = x.drop_last();
        let b = y.drop_last();
        assert forall|i: int| 0 <= i < a.len() implies is_digit(#[trigger] a[i]) by {
            assert(is_digit(x[i]));
        }
        assert forall|i: int| 0 <= i < b.len() implies is_digit(#[trigger] b[i]) by {
            assert(is_digit(y[i]));
        }
        lemma_digits_in_order(a, b);
        lemma_precedes_total(a, b);
        let c = seq![x.last()];
        let d = seq![y.last()];
        assert(x == a + c);
        assert(y == b + d);
        lemma_precedes_before(a, b, c, d);
        assert(is_digit(x[x.len() - 1]) && is_digit(y[y.len() - 1]));
        assert(precedes(c, d) <==> x.last() < y.last()) by {
            assert(c.drop_first() == Seq::<char>::empty());
            assert(d.drop_first() == Seq::<char>::empty());
            assert(!precedes(c.drop_first(), d.drop_first()));
        }
        if x == y {
            assert(a == b);
        }
    }
}

/// Backups with the same prefix are in the order in which they were taken, as long as their
/// times have as many digits; so the ones that are pruned are the oldest.
pub proof fn law_names_are_in_the_order_of_time(prefix: Seq<char>, a: u64, b: u64)
    requires
        decimal(a as nat).len() == decimal(b as nat).len(),
    ensures
        precedes(backup_name(prefix, a), backup_name(prefix, b)) <==> a < b,
{
    let x = decimal(a as nat);
    let y = decimal(b as nat);
    lemma_decimal(a as nat);
    lemma_decimal(b as nat);
    lemma_digits_in_order(x, y);
    let head = prefix + "-"@;
    let tail = ".zip"@;
    assert(backup_name(prefix, a) == head + (x + tail));
    assert(backup_name(prefix, b) == head + (y + tail));
    lemma_precedes_after(head, x + tail, y + tail);
    lemma_precedes_before(x, y, tail, tail);
    lemma_precedes_irreflexive(tail);
}

// ---------------------------------------------------------------------------------------------
// Laws
// ---------------------------------------------------------------------------------------------
/// A backup holds every folder that is there and whose name is safe, in the order in which they
/// come, and nothing else.
pub proof fn law_backup_takes_every_world(candidates: Seq<Candidate>)
    ensures
        taken(candidates) == candidates.filter(
            |c: Candidate| c.is_dir && is_leaf(c.name@),
        ).map_values(|c: Candidate| c.name@),
        forall|i: int|
            0 <= i < candidates.len() && (#[trigger] candidates[i]).is_dir && is_leaf(
                candidates[i].name@,
            ) ==> taken(candidates).contains(candidates[i].name@),
        taken(candidates).len() <= candidates.len(),
    decreases candidates.len(),
{
    reveal(Seq::filter);
    let safe = |c: Candidate| c.is_dir && is_leaf(c.name@);
    let name = |c: Candidate| c.name@;
    if candidates.len() == 0 {
        assert(candidates.filter(safe).map_values(name) =~= Seq::<Seq<char>>::empty());
    } else {
        let init = candidates.drop_last();
        let c = candidates.last();
        law_backup_takes_every_world(init);
        let before = taken(init);
        let after = taken(candidates);
        if safe(c) {
            assert(init.filter(safe).push(c).map_values(name) =~= init.filter(safe).map_values(
                name,
            ).push(c.name@));
        }
        assert forall|i: int|
            0 <= i < candidates.len() && (#[trigger] candidates[i]).is_dir && is_leaf(
                candidates[i].name@,
            ) implies after.contains(candidates[i].name@) by {
            if i < init.len() {
                assert(init[i] == candidates[i]);
                let j = choose|j: int| 0 <= j < before.len() && before[j] == init[i].name@;
                assert(after[j] == candidates[i].name@);
            } else {
                assert(after[before.len() as int] == c.name@);
            }
        }
    }
}

/// Whatever a backup holds is a folder that is there and whose name is safe.
pub proof fn law_backup_takes_worlds_only(candidates: Seq<Candidate>, name: Seq<char>)
    requires
        taken(candidates).contains(name),
    ensures
        exists|i: int|
            0 <= i < candidates.len() && (#[trigger] candidates[i]).is_dir && candidates[i].name@
                == name,
        is_leaf(name),
    decreases candidates.len(),
{
    let init = candidates.drop_last();
    let j = choose|j: int| 0 <= j < taken(candidates).len() && taken(candidates)[j] == name;
    if j < taken(init).len() {
        assert(taken(init)[j] == name);
        law_backup_takes_worlds_only(init, name);
        let i = choose|i: int|
            0 <= i < init.len() && (#[trigger] init[i]).is_dir && init[i].name@ == name;
        assert(candidates[i] == init[i]);
    } else {
        assert(candidates[candidates.len() - 1].name@ == name);
    }
}

/// A backup is called by its prefix, a hyphen, the time in decimal and `.zip`.
pub proof fn law_backup_name(prefix: Seq<char>, ts: u64)
    ensures
        backup_name(prefix, ts) == prefix + seq!['-'] + decimal(ts as nat) + seq!['.', 'z', 'i', 'p'],
        is_plain(prefix) <==> forall|i: int|
            0 <= i < prefix.len() ==> {
                let c = #[trigger] prefix[i];
                'a' <= c <= 'z' || 'A' <= c <= 'Z' || '0' <= c <= '9'
            },
{
    reveal_strlit("-");
    reveal_strlit(".zip");
    assert("-"@ =~= seq!['-']);
    assert(".zip"@ =~= seq!['.', 'z', 'i', 'p']);
    if is_plain(prefix) {
        assert forall|i: int| 0 <= i < prefix.len() implies {
            let c = #[trigger] prefix[i];
            'a' <= c <= 'z' || 'A' <= c <= 'Z' || '0' <= c <= '9'
        } by {
            assert(is_alphanumeric(prefix[i]));
        }
    }
}

/// What counts as a backup with a prefix: a name that begins with the prefix and a hyphen, and ends
/// in `.zip`; and it may be restored where it is a safe name that ends so.
pub proof fn law_names_of_backups(name: Seq<char>, prefix: Seq<char>)
    ensures
        has_prefix(name, prefix) <==> name.len() > prefix.len() && name.take(prefix.len() as int)
            == prefix && name[prefix.len() as int] == '-' && name.len() >= 4 && name.skip(
            name.len() - 4,
        ) == seq!['.', 'z', 'i', 'p'],
        is_backup(name) <==> is_leaf(name) && name.len() >= 4 && name.skip(name.len() - 4) == seq![
            '.',
            'z',
            'i',
            'p',
        ],
{
    reveal_strlit("-");
    reveal_strlit(".zip");
    assert("-"@ =~= seq!['-']);
    assert(".zip"@ =~= seq!['.', 'z', 'i', 'p']);
    let head = prefix + "-"@;
    if name.len() > prefix.len() {
        assert(name.take(head.len() as int) == head <==> name.take(prefix.len() as int) == prefix
            && name[prefix.len() as int] == '-') by {
            if name.take(head.len() as int) == head {
                assert(name.take(head.len() as int)[prefix.len() as int] == '-');
                assert(name.take(prefix.len() as int) =~= head.take(prefix.len() as int));
                assert(head.take(prefix.len() as int) =~= prefix);
            }
            if name.take(prefix.len() as int) == prefix && name[prefix.len() as int] == '-' {
                assert forall|i: int| 0 <= i < head.len() implies name.take(head.len() as int)[i]
                    == head[i] by {
                    if i < prefix.len() {
                        assert(name.take(prefix.len() as int)[i] == prefix[i]);
                    }
                }
                assert(name.take(head.len() as int) =~= head);
            }
        }
    }
}

/// Of the backups with a prefix, as many are left as are to be kept, or all where there are no
/// more. Each of the others goes, once; and none that goes has a name after one that is left.
pub proof fn law_what_is_pruned(names: Seq<Seq<char>>, prefix: Seq<char>, keep: nat)
    ensures
        ({
            let found = names.filter(|name: Seq<char>| has_prefix(name, prefix));
            let gone = pruned(names, prefix, keep);
            let o = order_of(found, found.len(), false);
            &&& gone.len() == (if found.len() > keep {
                found.len() - keep
            } else {
                0
            })
            &&& o.len() == found.len()
            &&& forall|i: int| 0 <= i < o.len() ==> 0 <= #[trigger] o[i] < found.len()
            &&& forall|i: int, j: int| 0 <= i < j < o.len() ==> #[trigger] o[i] != #[trigger] o[j]
            &&& forall|i: int| 0 <= i < gone.len() ==> #[trigger] gone[i] == found[o[i]]
            &&& forall|i: int, j: int|
                0 <= i < gone.len() <= j < o.len() ==> !precedes(
                    found[#[trigger] o[j]],
                    found[#[trigger] o[i]],
                )
        }),
{
    let fit = |name: Seq<char>| has_prefix(name, prefix);
    lemma_backups_filter(names, prefix, fit);
    let found = names.filter(fit);
    crate::sorting::law_each_once_in_order(found, false);
    let o = order_of(found, found.len(), false);
    let gone = pruned(names, prefix, keep);
    assert forall|i: int| 0 <= i < gone.len() implies #[trigger] gone[i] == found[o[i]] by {
        assert(sorted_up(found)[i] == found[o[i]]);
    }
}

proof fn lemma_backups_filter(
    names: Seq<Seq<char>>,
    prefix: Seq<char>,
    fit: spec_fn(Seq<char>) -> bool,
)
    requires
        forall|name: Seq<char>| #[trigger] fit(name) <==> has_prefix(name, prefix),
    ensures
        backups_with(names, prefix) == names.filter(fit),
    decreases names.len(),
{
    reveal(Seq::filter);
    if names.len() > 0 {
        lemma_backups_filter(names.drop_last(), prefix, fit);
        assert(fit(names.last()) <==> has_prefix(names.last(), prefix));
    }
}

/// Backups are taken every 30, 60 or 360 minutes, or never. With one of these intervals a backup is
/// due once as many minutes have passed since the last one, or where the clock went back; without
/// one, and before the clock was started, none is.
pub proof fn law_when_a_backup_is_due(last: Option<Moment>, every: u32, now: Moment)
    ensures
        every == 30 || every == 60 || every == 360 ==> interval(every) == every,
        !(every == 30 || every == 60 || every == 360) ==> interval(every) == 0,
        !(every == 30 || every == 60 || every == 360) ==> !due(last, every, now),
        last is None ==> !due(last, every, now),
        last is Some && (every == 30 || every == 60 || every == 360) ==> {
            let passed = (now.secs * 1_000_000_000 + now.nanos) - (last->0.secs * 1_000_000_000
                + last->0.nanos);
            due(last, every, now) <==> passed < 0 || passed >= every * 60_000_000_000
        },
{
}

/// The clock knows of each server the time that stands beside it, and of no other.
pub proof fn law_times_of_the_clock(clock: BackupClock, id: Seq<char>)
    requires
        clock.wf(),
    ensures
        clock@.contains_key(id) <==> exists|i: int|
            0 <= i < clock.ids@.len() && (#[trigger] clock.ids@[i])@ == id,
        forall|i: int|
            0 <= i < clock.ids@.len() ==> clock@[(#[trigger] clock.ids@[i])@] == clock.times@[i],
{
    let keys = texts(clock.ids@);
    lemma_as_map(keys, clock.times@);
    assert(clock@.contains_key(id) <==> keys.contains(id));
    if keys.contains(id) {
        let i = choose|i: int| 0 <= i < keys.len() && keys[i] == id;
        assert(clock.ids@[i]@ == id);
    }
    if exists|i: int| 0 <= i < clock.ids@.len() && (#[trigger] clock.ids@[i])@ == id {
        let i = choose|i: int| 0 <= i < clock.ids@.len() && (#[trigger] clock.ids@[i])@ == id;
        assert(keys[i] == id);
    }
    assert forall|i: int| 0 <= i < clock.ids@.len() implies clock@[(#[trigger] clock.ids@[i])@]
        == clock.times@[i] by {
        assert(keys[i] == clock.ids@[i]@);
    }
}

} // verus!
