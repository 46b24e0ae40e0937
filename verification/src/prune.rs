//! Retention: of the frames in one level's directory only the newest run of
//! consecutive frames is kept.

use crate::archive::{base_of, single_state};
use crate::text::{lemma_sorted_listing, names, sort_names, sorted_listing};
use crate::timecode::{consecutive_files, consecutive_names, TimecodeError};
use vstd::prelude::*;

verus! {

/// The backward scan from the pair `(i, i + 1)` down to the pair `(0, 1)`:
/// the first pair that is not consecutive gives the number of files in front
/// of the break, `i + 1`; a name in that pair that yields no timecode ends
/// the scan with its error; without either, nothing is cut.
pub open spec fn scan_back(s: Seq<Seq<char>>, i: int) -> Result<nat, TimecodeError>
    decreases i + 1,
{
    if i < 0 || i + 1 >= s.len() {
        Ok(0)
    } else {
        match consecutive_names(s[i], s[i + 1]) {
            Err(e) => Err(e),
            Ok(false) => Ok((i + 1) as nat),
            Ok(true) => scan_back(s, i - 1),
        }
    }
}

/// How many of the oldest files of the sorted listing `s` are to go: all
/// those up to the newest break in the six-minute cadence.
pub open spec fn retention_cut(s: Seq<Seq<char>>) -> Result<nat, TimecodeError> {
    scan_back(s, s.len() - 2)
}

/// The pairs `(i, i + 1)` of `s` with `from <= i` are all consecutive.
pub open spec fn contiguous_from(s: Seq<Seq<char>>, from: int) -> bool {
    forall|i: int|
        from <= i < s.len() - 1 ==> #[trigger] consecutive_names(s[i], s[i + 1]) == Ok::<
            bool,
            TimecodeError,
        >(true)
}

/// The names to delete from a directory with the names `listing`, newest
/// first, or the error that stopped the scan.
pub open spec fn clean_plan(listing: Seq<Seq<char>>) -> Result<Seq<Seq<char>>, TimecodeError> {
    let s = sorted_listing(listing);
    match retention_cut(s) {
        Ok(cut) => Ok(s.take(cut as int).reverse()),
        Err(e) => Err(e),
    }
}

/// The names that stay in a directory with the names `listing`, oldest
/// first; all of them where the scan fails.
pub open spec fn kept_after_clean(listing: Seq<Seq<char>>) -> Seq<Seq<char>> {
    let s = sorted_listing(listing);
    match retention_cut(s) {
        Ok(cut) => s.skip(cut as int),
        Err(e) => s,
    }
}

/// What the backward scan finds. A cut is the index just behind the newest
/// break: every later pair is consecutive, and the pair across the cut
/// holds two timecodes that are not. An error is that of the newest pair
/// that is not a pair of consecutive timecodes.
pub proof fn lemma_scan_back(s: Seq<Seq<char>>, i: int)
    requires
        -1 <= i <= s.len() - 2,
    ensures
        match scan_back(s, i) {
            Ok(cut) => {
                &&& cut <= i + 1
                &&& forall|k: int|
                    cut <= k <= i ==> #[trigger] consecutive_names(s[k], s[k + 1]) == Ok::<
                        bool,
                        TimecodeError,
                    >(true)
                &&& cut > 0 ==> consecutive_names(s[cut - 1], s[cut as int]) == Ok::<
                    bool,
                    TimecodeError,
                >(false)
            },
            Err(e) => exists|j: int|
                {
                    &&& 0 <= j <= i
                    &&& #[trigger] consecutive_names(s[j], s[j + 1]) == Err::<bool, TimecodeError>(e)
                    &&& forall|k: int|
                        j < k <= i ==> #[trigger] consecutive_names(s[k], s[k + 1]) == Ok::<
                            bool,
                            TimecodeError,
                        >(true)
                },
        },
    decreases i + 1,
{
    if i >= 0 {
        match consecutive_names(s[i], s[i + 1]) {
            Err(e) => {
                assert(consecutive_names(s[i], s[i + 1]) == Err::<bool, TimecodeError>(e));
            },
            Ok(false) => {},
            Ok(true) => {
                lemma_scan_back(s, i - 1);
                match scan_back(s, i - 1) {
                    Ok(cut) => {},
                    Err(e) => {
                        let j = choose|j: int|
                            {
                                &&& 0 <= j <= i - 1
                                &&& #[trigger] consecutive_names(s[j], s[j + 1]) == Err::<
                                    bool,
                                    TimecodeError,
                                >(e)
                                &&& forall|k: int|
                                    j < k <= i - 1 ==> #[trigger] consecutive_names(s[k], s[k + 1])
                                        == Ok::<bool, TimecodeError>(true)
                            };
                        assert(consecutive_names(s[j], s[j + 1]) == Err::<bool, TimecodeError>(e));
                    },
                }
            },
        }
    }
}

/// After pruning, every pair of neighbours among the files that stay is
/// consecutive; where files went, the oldest that stays did not follow the
/// newest that went. A directory of fewer than two files loses nothing.
pub proof fn lemma_retention_cut(s: Seq<Seq<char>>)
    ensures
        s.len() < 2 ==> retention_cut(s) == Ok::<nat, TimecodeError>(0),
        retention_cut(s) matches Ok(cut) ==> {
            &&& cut < s.len() || cut == 0
            &&& contiguous_from(s, cut as int)
            &&& contiguous_from(s.skip(cut as int), 0)
            &&& cut > 0 ==> consecutive_names(s[cut - 1], s[cut as int]) == Ok::<
                bool,
                TimecodeError,
            >(false)
        },
{
    if s.len() >= 2 {
        lemma_scan_back(s, s.len() - 2);
        if let Ok(cut) = retention_cut(s) {
            let kept = s.skip(cut as int);
            assert forall|i: int| 0 <= i < kept.len() - 1 implies #[trigger] consecutive_names(
                kept[i],
                kept[i + 1],
            ) == Ok::<bool, TimecodeError>(true) by {
                assert(consecutive_names(s[cut + i], s[cut + i + 1]) == Ok::<bool, TimecodeError>(
                    true,
                ));
            }
        }
    }
}

/// How many of the oldest files of a sorted listing are to go.
pub fn find_cut(sorted: &Vec<String>) -> (r: Result<usize, TimecodeError>)
    ensures
        match r {
            Ok(cut) => retention_cut(names(sorted@)) == Ok::<nat, TimecodeError>(cut as nat),
            Err(e) => retention_cut(names(sorted@)) == Err::<nat, TimecodeError>(e),
        },
{
    let n = sorted.len();
    if n < 2 {
        return Ok(0);
    }
    let mut i: usize = n - 1;
    while i > 0
        invariant
            n == sorted.len(),
            i <= n - 1,
            retention_cut(names(sorted@)) == scan_back(names(sorted@), i - 1),
        decreases i,
    {
        match consecutive_files(sorted[i - 1].as_str(), sorted[i].as_str()) {
            Err(e) => {
                return Err(e);
            },
            Ok(false) => {
                return Ok(i);
            },
            Ok(true) => {
                i -= 1;
            },
        }
    }
    Ok(0)
}

/// Decides what to delete from one level's directory, given the names of
/// its files in any order. The names are sorted, then scanned from the
/// newest towards the oldest: the first pair of neighbours that is not
/// consecutive marks the break, and the older file of that pair goes with
/// every file before it, listed newest first. Fails, with nothing to
/// delete, where the scan meets a name that yields no timecode before it
/// meets a break.
pub fn clean(listing: &Vec<String>) -> (r: Result<Vec<String>, TimecodeError>)
    ensures
        match clean_plan(names(listing@)) {
            Ok(doomed) => r matches Ok(v) && names(v@) == doomed,
            Err(e) => r == Err::<Vec<String>, TimecodeError>(e),
        },
{
    let sorted = sort_names(listing);
    let cut = match find_cut(&sorted) {
        Ok(cut) => cut,
        Err(e) => {
            return Err(e);
        },
    };
    proof {
        lemma_retention_cut(names(sorted@));
    }
    let ghost doomed = names(sorted@).take(cut as int).reverse();
    let mut out: Vec<String> = Vec::new();
    let mut j: usize = cut;
    while j > 0
        invariant
            j <= cut <= sorted.len(),
            out@.len() == cut - j,
            doomed == names(sorted@).take(cut as int).reverse(),
            forall|k: int| 0 <= k < out@.len() ==> #[trigger] out@[k]@ == doomed[k],
        decreases j,
    {
        j -= 1;
        out.push(sorted[j].clone());
    }
    assert(names(out@) =~= doomed);
    Ok(out)
}

/// The files that go and the files that stay are together the files of
/// the directory, and the files that stay form one run of consecutive
/// frames.
pub proof fn lemma_clean_partitions(listing: Seq<Seq<char>>)
    ensures
        clean_plan(listing) matches Ok(doomed) ==> {
            &&& doomed.reverse() + kept_after_clean(listing) == sorted_listing(listing)
            &&& contiguous_from(kept_after_clean(listing), 0)
            &&& forall|n: Seq<char>|
                listing.contains(n) <==> doomed.contains(n) || kept_after_clean(listing).contains(n)
        },
        listing.len() < 2 ==> clean_plan(listing) == Ok::<Seq<Seq<char>>, TimecodeError>(Seq::empty()),
{
    let s = sorted_listing(listing);
    lemma_sorted_listing(listing);
    lemma_retention_cut(s);
    if let Ok(cut) = retention_cut(s) {
        let doomed = s.take(cut as int).reverse();
        let kept = s.skip(cut as int);
        assert(doomed.reverse() =~= s.take(cut as int));
        assert(s.take(cut as int) + kept =~= s);
        assert forall|n: Seq<char>|
            listing.contains(n) <==> doomed.contains(n) || kept.contains(n) by {
            if doomed.contains(n) {
                let k = choose|k: int| 0 <= k < doomed.len() && doomed[k] == n;
                assert(s[cut - 1 - k] == n);
            }
            if kept.contains(n) {
                let k = choose|k: int| 0 <= k < kept.len() && kept[k] == n;
                assert(s[cut + k] == n);
            }
            if s.contains(n) {
                let k = choose|k: int| 0 <= k < s.len() && s[k] == n;
                if k < cut {
                    assert(doomed[cut - 1 - k] == n);
                } else {
                    assert(kept[k - cut] == n);
                }
            }
        }
        if listing.len() < 2 {
            assert(doomed =~= Seq::empty());
        }
    }
}

/// Pruning only removes files: where every file of the directory was in
/// one state only, so is every file that stays.
pub proof fn lemma_clean_keeps_single_state(listing: Seq<Seq<char>>)
    requires
        single_state(listing),
    ensures
        single_state(kept_after_clean(listing)),
{
    let s = sorted_listing(listing);
    let kept = kept_after_clean(listing);
    lemma_sorted_listing(listing);
    assert(listing.no_duplicates()) by {
        assert forall|i: int, j: int|
            0 <= i < listing.len() && 0 <= j < listing.len() && i != j implies listing[i]
            != listing[j] by {
            assert(base_of(listing[i]) != base_of(listing[j]));
        }
    }
    listing.lemma_multiset_has_no_duplicates();
    s.lemma_multiset_has_no_duplicates_conv();
    let cut: int = match retention_cut(s) {
        Ok(c) => c as int,
        Err(e) => 0,
    };
    lemma_retention_cut(s);
    assert(kept =~= s.skip(cut));
    assert forall|i: int, j: int|
        0 <= i < kept.len() && 0 <= j < kept.len() && i != j implies base_of(kept[i]) != base_of(
        kept[j],
    ) by {
        let a = s[cut + i];
        let b = s[cut + j];
        assert(a != b);
        assert(s.contains(a) && s.contains(b));
        assert(listing.contains(a) && listing.contains(b));
        assert(kept[i] == a && kept[j] == b);
        let x = choose|x: int| 0 <= x < listing.len() && listing[x] == a;
        let y = choose|y: int| 0 <= y < listing.len() && listing[y] == b;
        assert(x != y);
    }
}

} // verus!
