//! The sync engine's decisions: which of the files that the remote
//! directory lists belong to a zoom level, which of them the local archive
//! lacks, and under which names they are stored.

use crate::archive::{
    base_of, holds, is_held, is_new_name, mark_new, marked, single_state, Archive, ZoomLevel,
};
use crate::text::{contains, names, occurs_in};
use vstd::prelude::*;

verus! {

/// The kind of file that is never fetched, by the part of the name that
/// gives it away.
pub const EXCLUDED_KIND: &'static str = ".gif";

/// A remote file belongs to a level where its name contains the level's
/// product code and is not of the excluded kind.
pub open spec fn is_candidate(name: Seq<char>, level: ZoomLevel) -> bool {
    occurs_in(name, level.code_view()) && !occurs_in(name, ".gif"@)
}

/// The file `name` is fetched for `level` into the directory `disk`: it is a
/// candidate, and the directory holds no file of that base name.
pub open spec fn is_fetched(disk: Seq<Seq<char>>, name: Seq<char>, level: ZoomLevel) -> bool {
    is_candidate(name, level) && !holds(disk, name)
}

/// The directory after the sync engine has looked at one remote name: a
/// fetched file is stored under its name with the marker in front.
pub open spec fn sync_step(disk: Seq<Seq<char>>, name: Seq<char>, level: ZoomLevel) -> Seq<
    Seq<char>,
> {
    if is_fetched(disk, name, level) {
        disk.push(marked(name))
    } else {
        disk
    }
}

/// The directory of `level` after a pass over the remote listing `remote`
/// that met no failure: the names are looked at in the order of the
/// listing, each against the directory as the names before it left it.
pub open spec fn sync_level(disk: Seq<Seq<char>>, remote: Seq<Seq<char>>, level: ZoomLevel) -> Seq<
    Seq<char>,
>
    decreases remote.len(),
{
    if remote.len() == 0 {
        disk
    } else {
        sync_step(sync_level(disk, remote.drop_last(), level), remote.last(), level)
    }
}

/// The remote names that a pass fetches for `level`, in the order of the
/// remote listing.
pub open spec fn level_plan(disk: Seq<Seq<char>>, remote: Seq<Seq<char>>, level: ZoomLevel) -> Seq<
    Seq<char>,
>
    decreases remote.len(),
{
    if remote.len() == 0 {
        Seq::empty()
    } else {
        let earlier = level_plan(disk, remote.drop_last(), level);
        if is_fetched(sync_level(disk, remote.drop_last(), level), remote.last(), level) {
            earlier.push(remote.last())
        } else {
            earlier
        }
    }
}

/// Whether a remote file belongs to `level`.
pub fn wanted(name: &str, level: ZoomLevel) -> (r: bool)
    ensures
        r == is_candidate(name@, level),
{
    contains(name, level.code()) && !contains(name, ".gif")
}

/// A pass stores what it fetches behind what the directory held: the
/// directory afterwards is the directory before, then the fetched names
/// with the marker in front, in the order of the plan.
pub proof fn lemma_sync_level_appends(
    disk: Seq<Seq<char>>,
    remote: Seq<Seq<char>>,
    level: ZoomLevel,
)
    ensures
        sync_level(disk, remote, level) == disk + level_plan(disk, remote, level).map_values(
            |n: Seq<char>| marked(n),
        ),
    decreases remote.len(),
{
    let mark = |n: Seq<char>| marked(n);
    if remote.len() == 0 {
        assert(disk + level_plan(disk, remote, level).map_values(mark) =~= disk);
    } else {
        lemma_sync_level_appends(disk, remote.drop_last(), level);
        let earlier = level_plan(disk, remote.drop_last(), level);
        assert(earlier.push(remote.last()).map_values(mark) =~= earlier.map_values(mark).push(
            marked(remote.last()),
        ));
        assert(disk + earlier.map_values(mark).push(marked(remote.last())) =~= (disk
            + earlier.map_values(mark)).push(marked(remote.last())));
    }
}

/// Decides which files to fetch for one level: of the names that the remote
/// directory lists, in its order, those that belong to the level and of
/// which the level's directory, with the files `listing`, holds neither the
/// new nor the confirmed form. A name that the remote directory lists twice
/// is fetched once.
pub fn plan_level(remote: &Vec<String>, listing: &Vec<String>, level: ZoomLevel) -> (plan: Vec<
    String,
>)
    ensures
        names(plan@) == level_plan(names(listing@), names(remote@), level),
{
    let ghost disk = names(listing@);
    let ghost all = names(remote@);
    let ghost mark = |n: Seq<char>| marked(n);
    let mut plan: Vec<String> = Vec::new();
    let mut added: Vec<String> = Vec::new();
    let mut i: usize = 0;
    proof {
        assert(all.take(0) =~= Seq::<Seq<char>>::empty());
        assert(names(plan@) =~= Seq::<Seq<char>>::empty());
        assert(names(added@) =~= names(plan@).map_values(mark));
    }
    while i < remote.len()
        invariant
            i <= remote.len(),
            disk == names(listing@),
            all == names(remote@),
            mark == |n: Seq<char>| marked(n),
            names(plan@) == level_plan(disk, all.take(i as int), level),
            names(added@) == names(plan@).map_values(mark),
        decreases remote.len() - i,
    {
        let name = remote[i].as_str();
        proof {
            assert(all.take(i + 1).drop_last() =~= all.take(i as int));
            assert(all.take(i + 1).last() == name@);
            lemma_sync_level_appends(disk, all.take(i as int), level);
            lemma_holds_in_parts(disk, names(added@), name@);
        }
        if wanted(name, level) && !is_held(listing, name) && !is_held(&added, name) {
            let ghost old_plan = names(plan@);
            let ghost old_added = names(added@);
            plan.push(remote[i].clone());
            added.push(mark_new(name));
            proof {
                assert(names(plan@) =~= old_plan.push(name@));
                assert(names(added@) =~= old_added.push(marked(name@)));
                assert(names(added@) =~= names(plan@).map_values(mark));
            }
        }
        i += 1;
    }
    assert(all.take(i as int) =~= all);
    plan
}

/// A directory made of two parts holds a file where one of the parts does.
pub proof fn lemma_holds_in_parts(a: Seq<Seq<char>>, b: Seq<Seq<char>>, base: Seq<char>)
    ensures
        holds(a + b, base) == (holds(a, base) || holds(b, base)),
{
    assert forall|n: Seq<char>| (a + b).contains(n) == (a.contains(n) || b.contains(n)) by {
        if a.contains(n) {
            let k = choose|k: int| 0 <= k < a.len() && a[k] == n;
            assert((a + b)[k] == n);
        }
        if b.contains(n) {
            let k = choose|k: int| 0 <= k < b.len() && b[k] == n;
            assert((a + b)[a.len() + k] == n);
        }
        if (a + b).contains(n) {
            let k = choose|k: int| 0 <= k < (a + b).len() && (a + b)[k] == n;
            if k < a.len() {
                assert(a[k] == n);
            } else {
                assert(b[k - a.len()] == n);
            }
        }
    }
}

/// One file to fetch: the level it belongs to, its name in the remote
/// directory, and the name under which it is stored in the level's
/// directory.
#[derive(Debug)]
pub struct Download {
    pub level: ZoomLevel,
    pub name: String,
    pub target: String,
}

impl Download {
    /// The download as plain values: level, remote name, local name.
    pub open spec fn model(self) -> (ZoomLevel, Seq<char>, Seq<char>) {
        (self.level, self.name@, self.target@)
    }
}

/// The model of a list of downloads.
pub open spec fn download_models(v: Seq<Download>) -> Seq<(ZoomLevel, Seq<char>, Seq<char>)> {
    Seq::new(v.len(), |i: int| v[i].model())
}

/// The downloads of one level: each fetched name is stored with the marker
/// in front.
pub open spec fn level_downloads(level: ZoomLevel, plan: Seq<Seq<char>>) -> Seq<
    (ZoomLevel, Seq<char>, Seq<char>),
> {
    plan.map_values(|n: Seq<char>| (level, n, marked(n)))
}

/// The downloads of a whole pass: those of the low level, then of the
/// middle one, then of the high one, each against the same remote listing.
pub open spec fn pass_plan(
    remote: Seq<Seq<char>>,
    low: Seq<Seq<char>>,
    mid: Seq<Seq<char>>,
    high: Seq<Seq<char>>,
) -> Seq<(ZoomLevel, Seq<char>, Seq<char>)> {
    level_downloads(ZoomLevel::Low, level_plan(low, remote, ZoomLevel::Low)) + level_downloads(
        ZoomLevel::Mid,
        level_plan(mid, remote, ZoomLevel::Mid),
    ) + level_downloads(ZoomLevel::High, level_plan(high, remote, ZoomLevel::High))
}

/// Adds the downloads of one level to those of the levels before it.
fn append_level(out: &mut Vec<Download>, remote: &Vec<String>, archive: &Archive, level: ZoomLevel)
    ensures
        download_models(final(out)@) == download_models(old(out)@) + level_downloads(
            level,
            level_plan(archive.level_view(level), names(remote@), level),
        ),
{
    let plan = plan_level(remote, archive.listing(level), level);
    let ghost start = download_models(out@);
    let ghost wanted = level_downloads(level, names(plan@));
    let mut i: usize = 0;
    assert(start + wanted.take(0) =~= start);
    while i < plan.len()
        invariant
            i <= plan.len(),
            wanted == level_downloads(level, names(plan@)),
            download_models(out@) == start + wanted.take(i as int),
        decreases plan.len() - i,
    {
        let ghost before = download_models(out@);
        let target = mark_new(plan[i].as_str());
        out.push(Download { level, name: plan[i].clone(), target });
        proof {
            assert(wanted[i as int] == (level, plan@[i as int]@, marked(plan@[i as int]@)));
            assert(download_models(out@) =~= before.push(wanted[i as int]));
            assert(start + wanted.take(i + 1) =~= (start + wanted.take(i as int)).push(
                wanted[i as int],
            ));
        }
        i += 1;
    }
    assert(wanted.take(i as int) =~= wanted);
}

/// Decides what one pass fetches: given the names that the remote directory
/// lists and the names in the three local directories, the downloads of the
/// low, the middle and the high level, in that order; within a level in the
/// order of the remote listing. A file is wanted where its name contains
/// the level's product code and is not of the excluded kind, and where the
/// level's directory holds it neither new nor confirmed; each is stored
/// under its name with the marker in front.
pub fn save_files(remote: &Vec<String>, archive: &Archive) -> (plan: Vec<Download>)
    ensures
        download_models(plan@) == pass_plan(
            names(remote@),
            archive.level_view(ZoomLevel::Low),
            archive.level_view(ZoomLevel::Mid),
            archive.level_view(ZoomLevel::High),
        ),
{
    let mut plan: Vec<Download> = Vec::new();
    assert(download_models(plan@) =~= Seq::empty());
    append_level(&mut plan, remote, archive, ZoomLevel::Low);
    append_level(&mut plan, remote, archive, ZoomLevel::Mid);
    append_level(&mut plan, remote, archive, ZoomLevel::High);
    assert(download_models(plan@) =~= pass_plan(
        names(remote@),
        archive.level_view(ZoomLevel::Low),
        archive.level_view(ZoomLevel::Mid),
        archive.level_view(ZoomLevel::High),
    ));
    plan
}

/// One pass in progress: the downloads it decided on, how many of them are
/// stored, and whether a failure ended it. The caller fetches and stores
/// what `next` hands out and reports each outcome with `stored` or `fail`.
pub struct SyncPass {
    plan: Vec<Download>,
    done: usize,
    failed: bool,
}

impl SyncPass {
    /// No more files are stored than the pass decided on.
    #[verifier::type_invariant]
    spec fn within_plan(self) -> bool {
        self.done <= self.plan.len()
    }

    /// The downloads that the pass decided on.
    pub closed spec fn plan_view(self) -> Seq<(ZoomLevel, Seq<char>, Seq<char>)> {
        download_models(self.plan@)
    }

    /// How many files the pass has stored.
    pub closed spec fn written(self) -> nat {
        self.done as nat
    }

    /// A failure has ended the pass.
    pub closed spec fn has_failed(self) -> bool {
        self.failed
    }

    /// A download is still to be made.
    pub open spec fn pending(self) -> bool {
        !self.has_failed() && self.written() < self.plan_view().len()
    }

    /// Starts a pass on the names that the remote directory lists and the
    /// names in the three local directories.
    pub fn begin(remote: &Vec<String>, archive: &Archive) -> (pass: SyncPass)
        ensures
            pass.plan_view() == pass_plan(
                names(remote@),
                archive.level_view(ZoomLevel::Low),
                archive.level_view(ZoomLevel::Mid),
                archive.level_view(ZoomLevel::High),
            ),
            pass.written() == 0,
            !pass.has_failed(),
    {
        SyncPass { plan: save_files(remote, archive), done: 0, failed: false }
    }

    /// The download to make now: the first of the plan that is not stored
    /// yet, or nothing once all are stored or a failure has ended the pass.
    pub fn next(&self) -> (r: Option<&Download>)
        ensures
            match r {
                Some(d) => self.pending() && d.model() == self.plan_view()[self.written() as int],
                None => !self.pending(),
            },
    {
        if !self.failed && self.done < self.plan.len() {
            Some(&self.plan[self.done])
        } else {
            None
        }
    }

    /// Records that the download handed out by `next` is stored. Without a
    /// pending download nothing changes.
    pub fn stored(&mut self)
        ensures
            final(self).plan_view() == old(self).plan_view(),
            final(self).has_failed() == old(self).has_failed(),
            final(self).written() == if old(self).pending() {
                old(self).written() + 1
            } else {
                old(self).written()
            },
    {
        proof {
            use_type_invariant(&*self);
        }
        if !self.failed && self.done < self.plan.len() {
            self.done = self.done + 1;
        }
    }

    /// Records a failure of the remote side: the pass ends here, nothing
    /// more is fetched, and what is stored stays.
    pub fn fail(&mut self)
        ensures
            final(self).plan_view() == old(self).plan_view(),
            final(self).written() == old(self).written(),
            final(self).has_failed(),
            !final(self).pending(),
    {
        proof {
            use_type_invariant(&*self);
        }
        self.failed = true;
    }

    /// Whether a failure has ended the pass.
    pub fn failed(&self) -> (r: bool)
        ensures
            r == self.has_failed(),
    {
        self.failed
    }

    /// How many files the pass has stored so far: never more than it
    /// decided on.
    pub fn count(&self) -> (r: usize)
        ensures
            r == self.written(),
            r <= self.plan_view().len(),
    {
        proof {
            use_type_invariant(self);
        }
        self.done
    }

    /// The result of the pass: whether it stored at least one file, over
    /// all three levels. A pass that decided on no download stored none.
    pub fn wrote_any(&self) -> (r: bool)
        ensures
            r == (self.written() > 0),
            self.plan_view().len() == 0 ==> !r,
    {
        proof {
            use_type_invariant(self);
        }
        self.done > 0
    }
}

/// A directory that gains a file holds what it held, and the new file.
pub proof fn lemma_holds_after_push(disk: Seq<Seq<char>>, file: Seq<char>, base: Seq<char>)
    ensures
        holds(disk.push(file), base) == (holds(disk, base) || file == base || file == marked(base)),
{
    assert(disk.push(file) =~= disk + seq![file]);
    lemma_holds_in_parts(disk, seq![file], base);
    assert(seq![file].contains(base) == (file == base)) by {
        if file == base {
            assert(seq![file][0] == base);
        }
    }
    assert(seq![file].contains(marked(base)) == (file == marked(base))) by {
        if file == marked(base) {
            assert(seq![file][0] == marked(base));
        }
    }
}

/// A pass removes nothing: what the directory held, it holds afterwards.
pub proof fn lemma_sync_keeps_files(
    disk: Seq<Seq<char>>,
    remote: Seq<Seq<char>>,
    level: ZoomLevel,
    base: Seq<char>,
)
    requires
        holds(disk, base),
    ensures
        holds(sync_level(disk, remote, level), base),
{
    lemma_sync_level_appends(disk, remote, level);
    lemma_holds_in_parts(
        disk,
        level_plan(disk, remote, level).map_values(|n: Seq<char>| marked(n)),
        base,
    );
}

/// After a pass that met no failure the directory holds every remote file
/// that belongs to the level.
pub proof fn lemma_sync_complete(
    disk: Seq<Seq<char>>,
    remote: Seq<Seq<char>>,
    level: ZoomLevel,
    i: int,
)
    requires
        0 <= i < remote.len(),
        is_candidate(remote[i], level),
    ensures
        holds(sync_level(disk, remote, level), remote[i]),
    decreases remote.len(),
{
    let before = sync_level(disk, remote.drop_last(), level);
    lemma_holds_after_push(before, marked(remote.last()), remote[i]);
    if i < remote.len() - 1 {
        lemma_sync_complete(disk, remote.drop_last(), level, i);
    }
}

/// Against a directory that holds every remote file of the level a pass
/// fetches nothing and leaves the directory as it is.
pub proof fn lemma_nothing_to_fetch(disk: Seq<Seq<char>>, remote: Seq<Seq<char>>, level: ZoomLevel)
    requires
        forall|i: int|
            0 <= i < remote.len() && is_candidate(#[trigger] remote[i], level) ==> holds(
                disk,
                remote[i],
            ),
    ensures
        level_plan(disk, remote, level) == Seq::<Seq<char>>::empty(),
        sync_level(disk, remote, level) == disk,
    decreases remote.len(),
{
    if remote.len() > 0 {
        let shorter = remote.drop_last();
        assert forall|i: int|
            0 <= i < shorter.len() && is_candidate(#[trigger] shorter[i], level) implies holds(
            disk,
            shorter[i],
        ) by {
            assert(shorter[i] == remote[i]);
        }
        lemma_nothing_to_fetch(disk, shorter, level);
        assert(remote.last() == remote[remote.len() - 1]);
    }
}

/// A second pass over the same remote listing finds nothing to fetch for a
/// level, and leaves its directory as the first pass left it.
pub proof fn lemma_sync_idempotent(disk: Seq<Seq<char>>, remote: Seq<Seq<char>>, level: ZoomLevel)
    ensures
        level_plan(sync_level(disk, remote, level), remote, level) == Seq::<Seq<char>>::empty(),
        sync_level(sync_level(disk, remote, level), remote, level) == sync_level(
            disk,
            remote,
            level,
        ),
{
    let after = sync_level(disk, remote, level);
    assert forall|i: int|
        0 <= i < remote.len() && is_candidate(#[trigger] remote[i], level) implies holds(
        after,
        remote[i],
    ) by {
        lemma_sync_complete(disk, remote, level, i);
    }
    lemma_nothing_to_fetch(after, remote, level);
}

/// A second pass over the same remote listing, against the three
/// directories as the first pass left them, has no download at all.
pub proof fn lemma_pass_idempotent(
    remote: Seq<Seq<char>>,
    low: Seq<Seq<char>>,
    mid: Seq<Seq<char>>,
    high: Seq<Seq<char>>,
)
    ensures
        pass_plan(
            remote,
            sync_level(low, remote, ZoomLevel::Low),
            sync_level(mid, remote, ZoomLevel::Mid),
            sync_level(high, remote, ZoomLevel::High),
        ) == Seq::<(ZoomLevel, Seq<char>, Seq<char>)>::empty(),
{
    lemma_sync_idempotent(low, remote, ZoomLevel::Low);
    lemma_sync_idempotent(mid, remote, ZoomLevel::Mid);
    lemma_sync_idempotent(high, remote, ZoomLevel::High);
    assert(pass_plan(
        remote,
        sync_level(low, remote, ZoomLevel::Low),
        sync_level(mid, remote, ZoomLevel::Mid),
        sync_level(high, remote, ZoomLevel::High),
    ) =~= Seq::<(ZoomLevel, Seq<char>, Seq<char>)>::empty());
}

/// Every file that a pass fetches is listed by the remote directory,
/// belongs to the level, and was not held by the directory before the
/// pass.
pub proof fn lemma_plan_is_sound(
    disk: Seq<Seq<char>>,
    remote: Seq<Seq<char>>,
    level: ZoomLevel,
    k: int,
)
    requires
        0 <= k < level_plan(disk, remote, level).len(),
    ensures
        remote.contains(level_plan(disk, remote, level)[k]),
        is_candidate(level_plan(disk, remote, level)[k], level),
        !holds(disk, level_plan(disk, remote, level)[k]),
    decreases remote.len(),
{
    if remote.len() > 0 {
        let shorter = remote.drop_last();
        let earlier = level_plan(disk, shorter, level);
        if k < earlier.len() {
            lemma_plan_is_sound(disk, shorter, level, k);
            let n = earlier[k];
            let w = choose|w: int| 0 <= w < shorter.len() && shorter[w] == n;
            assert(remote[w] == n);
        } else {
            assert(remote[remote.len() - 1] == remote.last());
            if holds(disk, remote.last()) {
                lemma_sync_keeps_files(disk, shorter, level, remote.last());
            }
        }
    }
}

/// No file is fetched twice in a pass, however often the remote directory
/// lists its name: the names of the plan are all different, and so are the
/// names under which they are stored.
pub proof fn lemma_plan_has_no_duplicates(
    disk: Seq<Seq<char>>,
    remote: Seq<Seq<char>>,
    level: ZoomLevel,
)
    ensures
        level_plan(disk, remote, level).no_duplicates(),
        level_plan(disk, remote, level).map_values(|n: Seq<char>| marked(n)).no_duplicates(),
    decreases remote.len(),
{
    let mark = |n: Seq<char>| marked(n);
    let plan = level_plan(disk, remote, level);
    if remote.len() > 0 {
        let shorter = remote.drop_last();
        let earlier = level_plan(disk, shorter, level);
        lemma_plan_has_no_duplicates(disk, shorter, level);
        let before = sync_level(disk, shorter, level);
        if is_fetched(before, remote.last(), level) {
            lemma_sync_level_appends(disk, shorter, level);
            lemma_holds_in_parts(disk, earlier.map_values(mark), remote.last());
            assert forall|i: int| 0 <= i < earlier.len() implies earlier[i] != remote.last() by {
                if earlier[i] == remote.last() {
                    assert(earlier.map_values(mark)[i] == marked(remote.last()));
                }
            }
        }
    }
    assert forall|i: int, j: int| 0 <= i < plan.len() && 0 <= j < plan.len() && i != j implies plan.map_values(
        mark,
    )[i] != plan.map_values(mark)[j] by {
        lemma_marked_injective(plan[i], plan[j]);
    }
}

/// Two base names with the same marked name are the same.
pub proof fn lemma_marked_injective(a: Seq<char>, b: Seq<char>)
    ensures
        marked(a) == marked(b) ==> a == b,
        base_of(marked(a)) == a,
        is_new_name(marked(a)),
{
    assert(marked(a).drop_first() =~= a);
    assert(marked(b).drop_first() =~= b);
}

/// A pass keeps every file in one state: where no two files of the
/// directory shared a base name before it, none do after it.
pub proof fn lemma_sync_keeps_single_state(
    disk: Seq<Seq<char>>,
    remote: Seq<Seq<char>>,
    level: ZoomLevel,
)
    requires
        single_state(disk),
    ensures
        single_state(sync_level(disk, remote, level)),
    decreases remote.len(),
{
    if remote.len() > 0 {
        let before = sync_level(disk, remote.drop_last(), level);
        lemma_sync_keeps_single_state(disk, remote.drop_last(), level);
        let n = remote.last();
        if is_fetched(before, n, level) {
            let after = before.push(marked(n));
            lemma_marked_injective(n, n);
            assert forall|i: int, j: int|
                0 <= i < after.len() && 0 <= j < after.len() && i != j implies base_of(after[i])
                != base_of(after[j]) by {
                let old_one = if i == before.len() { j } else { i };
                if i == before.len() || j == before.len() {
                    let e = before[old_one];
                    if base_of(e) == n {
                        if is_new_name(e) {
                            assert(e =~= marked(n));
                        }
                        assert(before.contains(e));
                    }
                }
            }
        }
    }
}

} // verus!
