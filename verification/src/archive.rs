//! The local archive: one directory per zoom level, and in each file's name
//! the state of the file. A name that begins with the marker is a file that
//! arrived and was not yet taken up; without the marker it is confirmed.

use crate::text::{begins_with, lemma_sorted_listing, names, sort_names, sorted_listing};
use vstd::prelude::*;
use vstd::string::StringExecFns;

verus! {

/// The character in front of the name of a file that is new.
pub const NEW_MARKER: char = 'x';

/// Where the archive lives.
pub const ARCHIVE_ROOT: &'static str = "img/";

/// The three zoom levels, each a product of the radar with its own
/// directory under the archive's root.
#[derive(Clone, Copy, Debug, PartialEq, Eq, Structural)]
pub enum ZoomLevel {
    Low,
    Mid,
    High,
}

/// The state that a file's name gives it.
#[derive(Clone, Copy, Debug, PartialEq, Eq, Structural)]
pub enum FileState {
    /// Arrived, and not yet taken up by the viewer.
    New,
    /// Taken up by the viewer.
    Confirmed,
}

/// The names of the files in each level's directory, in any order.
#[derive(Debug)]
pub struct Archive {
    pub low: Vec<String>,
    pub mid: Vec<String>,
    pub high: Vec<String>,
}

/// A file to rename within one level's directory.
#[derive(Debug)]
pub struct Rename {
    pub from: String,
    pub to: String,
}

impl ZoomLevel {
    /// The product code of the level as characters.
    pub open spec fn code_view(self) -> Seq<char> {
        match self {
            ZoomLevel::Low => "IDR042"@,
            ZoomLevel::Mid => "IDR043"@,
            ZoomLevel::High => "IDR044"@,
        }
    }

    /// The product code of the level: the name of its directory, and what a
    /// remote file's name must contain to belong to it.
    pub fn code(self) -> (r: &'static str)
        ensures
            r@ == self.code_view(),
    {
        match self {
            ZoomLevel::Low => "IDR042",
            ZoomLevel::Mid => "IDR043",
            ZoomLevel::High => "IDR044",
        }
    }

    /// The level's place among the three, from the widest view on.
    pub fn index(self) -> (r: usize)
        ensures
            r == match self {
                ZoomLevel::Low => 0usize,
                ZoomLevel::Mid => 1usize,
                ZoomLevel::High => 2usize,
            },
    {
        match self {
            ZoomLevel::Low => 0,
            ZoomLevel::Mid => 1,
            ZoomLevel::High => 2,
        }
    }
}

impl Archive {
    /// The names in the directory of `level`.
    pub open spec fn level_view(self, level: ZoomLevel) -> Seq<Seq<char>> {
        match level {
            ZoomLevel::Low => names(self.low@),
            ZoomLevel::Mid => names(self.mid@),
            ZoomLevel::High => names(self.high@),
        }
    }

    /// An archive whose directories are all empty.
    pub fn new() -> (r: Archive)
        ensures
            forall|level: ZoomLevel| r.level_view(level) == Seq::<Seq<char>>::empty(),
    {
        let r = Archive { low: Vec::new(), mid: Vec::new(), high: Vec::new() };
        assert forall|level: ZoomLevel| r.level_view(level) == Seq::<Seq<char>>::empty() by {
            assert(r.level_view(level) =~= Seq::<Seq<char>>::empty());
        }
        r
    }

    /// The names in the directory of `level`.
    pub fn listing(&self, level: ZoomLevel) -> (r: &Vec<String>)
        ensures
            names(r@) == self.level_view(level),
    {
        match level {
            ZoomLevel::Low => &self.low,
            ZoomLevel::Mid => &self.mid,
            ZoomLevel::High => &self.high,
        }
    }
}

/// The name says that its file is new.
pub open spec fn is_new_name(name: Seq<char>) -> bool {
    begins_with(name, NEW_MARKER)
}

/// The name under which a file with the base name `base` is new.
pub open spec fn marked(base: Seq<char>) -> Seq<char> {
    seq![NEW_MARKER] + base
}

/// The base name of a file: its name without the marker.
pub open spec fn base_of(name: Seq<char>) -> Seq<char> {
    if is_new_name(name) {
        name.drop_first()
    } else {
        name
    }
}

/// The directory with the names `listing` holds a file of the base name
/// `base`, new or confirmed.
pub open spec fn holds(listing: Seq<Seq<char>>, base: Seq<char>) -> bool {
    listing.contains(base) || listing.contains(marked(base))
}

/// No two files of the directory share a base name: every file that the
/// directory holds is there in one state only.
pub open spec fn single_state(listing: Seq<Seq<char>>) -> bool {
    forall|i: int, j: int|
        0 <= i < listing.len() && 0 <= j < listing.len() && i != j ==> base_of(listing[i])
            != base_of(listing[j])
}

/// No base name of the directory begins with the marker itself.
pub open spec fn plain_bases(listing: Seq<Seq<char>>) -> bool {
    forall|i: int| 0 <= i < listing.len() ==> !is_new_name(base_of(#[trigger] listing[i]))
}

/// Whether the name is that of a new file.
pub fn is_new(name: &str) -> (r: bool)
    ensures
        r == is_new_name(name@),
{
    name.unicode_len() > 0 && name.get_char(0) == NEW_MARKER
}

/// The state that the name gives its file.
pub fn state_of(name: &str) -> (r: FileState)
    ensures
        r == if is_new_name(name@) {
            FileState::New
        } else {
            FileState::Confirmed
        },
{
    if is_new(name) {
        FileState::New
    } else {
        FileState::Confirmed
    }
}

/// The name under which the file `base` is new: the marker, then `base`.
pub fn mark_new(base: &str) -> (r: String)
    ensures
        r@ == marked(base@),
{
    proof {
        reveal_strlit("x");
    }
    let r = String::from_str("x").concat(base);
    assert(r@ =~= marked(base@));
    r
}

/// The base name of the file `name`: `name` without its marker, if it has
/// one.
pub fn base_name(name: &str) -> (r: String)
    ensures
        r@ == base_of(name@),
{
    if is_new(name) {
        let n = name.unicode_len();
        let rest = name.substring_char(1, n);
        assert(rest@ =~= name@.drop_first());
        String::from_str(rest)
    } else {
        String::from_str(name)
    }
}

/// Whether the directory with the files `listing` holds a file of the base
/// name `base`, new or confirmed.
pub fn is_held(listing: &Vec<String>, base: &str) -> (r: bool)
    ensures
        r == holds(names(listing@), base@),
{
    let new_name = mark_new(base);
    let mut i: usize = 0;
    while i < listing.len()
        invariant
            i <= listing.len(),
            new_name@ == marked(base@),
            forall|k: int|
                0 <= k < i ==> #[trigger] names(listing@)[k] != base@ && names(listing@)[k]
                    != marked(base@),
        decreases listing.len() - i,
    {
        if str_eq(listing[i].as_str(), base) || str_eq(listing[i].as_str(), new_name.as_str()) {
            assert(names(listing@)[i as int] == listing@[i as int]@);
            return true;
        }
        i += 1;
    }
    false
}

/// The path of the directory of `level`: the archive's root, the level's
/// product code, and a slash.
pub fn level_dir(level: ZoomLevel) -> (r: String)
    ensures
        r@ == ARCHIVE_ROOT@ + level.code_view() + "/"@,
{
    String::from_str(ARCHIVE_ROOT).concat(level.code()).concat("/")
}

/// The path of the file `file_name` in the directory of `level`.
pub fn local_path(level: ZoomLevel, file_name: &str) -> (r: String)
    ensures
        r@ == ARCHIVE_ROOT@ + level.code_view() + "/"@ + file_name@,
{
    level_dir(level).concat(file_name)
}

/// The path of the file `file_name` directly under the archive's root,
/// where the reference images lie.
pub fn root_path(file_name: &str) -> (r: String)
    ensures
        r@ == ARCHIVE_ROOT@ + file_name@,
{
    String::from_str(ARCHIVE_ROOT).concat(file_name)
}

/// The names of the two reference images of `level`, on the server and
/// under the archive's root alike: the background first, then the overlay
/// with the locations.
pub fn init_background(level: ZoomLevel) -> (r: (String, String))
    ensures
        r.0@ == level.code_view() + ".background.png"@,
        r.1@ == level.code_view() + ".locations.png"@,
{
    (
        String::from_str(level.code()).concat(".background.png"),
        String::from_str(level.code()).concat(".locations.png"),
    )
}

/// Whether two names are the same.
pub fn str_eq(a: &str, b: &str) -> (r: bool)
    ensures
        r == (a@ == b@),
{
    let x = String::from_str(a);
    let y = String::from_str(b);
    x == y
}

/// The names of `listing` of which `keep_new` says whether they are kept:
/// with `true` the new files, with `false` the confirmed ones.
pub open spec fn in_state(listing: Seq<Seq<char>>, keep_new: bool) -> Seq<Seq<char>> {
    listing.filter(|n: Seq<char>| is_new_name(n) == keep_new)
}

/// The renames that make every confirmed file of a directory new: the
/// confirmed names in ascending order, each with the marker put in front.
pub open spec fn marking_plan(listing: Seq<Seq<char>>) -> Seq<(Seq<char>, Seq<char>)> {
    sorted_listing(in_state(listing, false)).map_values(|n: Seq<char>| (n, marked(n)))
}

/// The renames that confirm every new file of a directory: the new names in
/// ascending order, each without its marker.
pub open spec fn confirming_plan(listing: Seq<Seq<char>>) -> Seq<(Seq<char>, Seq<char>)> {
    sorted_listing(in_state(listing, true)).map_values(|n: Seq<char>| (n, base_of(n)))
}

/// The model of a list of renames: each as the pair of its two names.
pub open spec fn rename_pairs(v: Seq<Rename>) -> Seq<(Seq<char>, Seq<char>)> {
    Seq::new(v.len(), |i: int| (v[i].from@, v[i].to@))
}

/// The names of `listing` that are new (`keep_new`) or confirmed (not
/// `keep_new`), in the order of `listing`.
pub fn select_state(listing: &Vec<String>, keep_new: bool) -> (out: Vec<String>)
    ensures
        names(out@) == in_state(names(listing@), keep_new),
{
    let ghost pred = |n: Seq<char>| is_new_name(n) == keep_new;
    let mut out: Vec<String> = Vec::new();
    let mut i: usize = 0;
    assert(names(listing@).take(0) =~= Seq::<Seq<char>>::empty());
    assert(names(out@) =~= Seq::<Seq<char>>::empty());
    while i < listing.len()
        invariant
            i <= listing.len(),
            pred == |n: Seq<char>| is_new_name(n) == keep_new,
            names(out@) == names(listing@).take(i as int).filter(pred),
        decreases listing.len() - i,
    {
        let ghost before = names(listing@).take(i as int);
        let ghost chosen = names(out@);
        proof {
            assert(names(listing@).take(i + 1) =~= before.push(listing@[i as int]@));
            before.lemma_filter_push(listing@[i as int]@, pred);
        }
        if is_new(listing[i].as_str()) == keep_new {
            out.push(listing[i].clone());
            assert(names(out@) =~= chosen.push(listing@[i as int]@));
        }
        i += 1;
    }
    assert(names(listing@).take(i as int) =~= names(listing@));
    out
}

/// Decides the renames that make every file of a directory new, given the
/// names of its files in any order: each name without the marker, in
/// ascending order, gets the marker in front. Files that are new already
/// are left alone.
pub fn mark_files_as_new(listing: &Vec<String>) -> (plan: Vec<Rename>)
    ensures
        rename_pairs(plan@) == marking_plan(names(listing@)),
{
    let confirmed = sort_names(&select_state(listing, false));
    let mut plan: Vec<Rename> = Vec::new();
    let mut i: usize = 0;
    while i < confirmed.len()
        invariant
            i <= confirmed.len(),
            plan@.len() == i,
            forall|k: int|
                0 <= k < i ==> (#[trigger] plan@[k]).from@ == confirmed@[k]@ && plan@[k].to@
                    == marked(confirmed@[k]@),
        decreases confirmed.len() - i,
    {
        let from = confirmed[i].clone();
        let to = mark_new(confirmed[i].as_str());
        plan.push(Rename { from, to });
        i += 1;
    }
    assert(rename_pairs(plan@) =~= marking_plan(names(listing@)));
    plan
}

/// Decides the renames that confirm every new file of a directory, given
/// the names of its files in any order: each name with the marker, in
/// ascending order, loses it. Confirmed files are left alone.
pub fn confirm_new_files(listing: &Vec<String>) -> (plan: Vec<Rename>)
    ensures
        rename_pairs(plan@) == confirming_plan(names(listing@)),
{
    let fresh = sort_names(&select_state(listing, true));
    let mut plan: Vec<Rename> = Vec::new();
    let mut i: usize = 0;
    while i < fresh.len()
        invariant
            i <= fresh.len(),
            plan@.len() == i,
            forall|k: int|
                0 <= k < i ==> (#[trigger] plan@[k]).from@ == fresh@[k]@ && plan@[k].to@
                    == base_of(fresh@[k]@),
        decreases fresh.len() - i,
    {
        let from = fresh[i].clone();
        let to = base_name(fresh[i].as_str());
        plan.push(Rename { from, to });
        i += 1;
    }
    assert(rename_pairs(plan@) =~= confirming_plan(names(listing@)));
    plan
}

/// The directory after every confirmed file was made new.
pub open spec fn after_marking(listing: Seq<Seq<char>>) -> Seq<Seq<char>> {
    listing.map_values(
        |n: Seq<char>|
            if is_new_name(n) {
                n
            } else {
                marked(n)
            },
    )
}

/// The directory after every new file was confirmed.
pub open spec fn after_confirming(listing: Seq<Seq<char>>) -> Seq<Seq<char>> {
    listing.map_values(|n: Seq<char>| base_of(n))
}

/// The names of a directory that are in one state, sorted: a name is among
/// them exactly where the directory has it and it is in that state.
pub proof fn lemma_in_state(listing: Seq<Seq<char>>, keep_new: bool, n: Seq<char>)
    ensures
        sorted_listing(in_state(listing, keep_new)).contains(n) <==> listing.contains(n)
            && is_new_name(n) == keep_new,
{
    let pred = |n: Seq<char>| is_new_name(n) == keep_new;
    let chosen = in_state(listing, keep_new);
    lemma_sorted_listing(chosen);
    if chosen.contains(n) {
        listing.lemma_filter_contains_rev(pred, n);
        let k = choose|k: int| 0 <= k < chosen.len() && chosen[k] == n;
        listing.lemma_filter_pred(pred, k);
    }
    if listing.contains(n) && is_new_name(n) == keep_new {
        let k = choose|k: int| 0 <= k < listing.len() && listing[k] == n;
        listing.lemma_filter_contains(pred, k);
    }
}

/// The renames that make a directory new take every confirmed file of the
/// directory, and only those, to its name with the marker in front.
pub proof fn lemma_marking_plan(listing: Seq<Seq<char>>, from: Seq<char>, to: Seq<char>)
    ensures
        marking_plan(listing).contains((from, to)) <==> listing.contains(from) && !is_new_name(from)
            && to == marked(from),
{
    let chosen = sorted_listing(in_state(listing, false));
    let plan = marking_plan(listing);
    lemma_in_state(listing, false, from);
    if plan.contains((from, to)) {
        let k = choose|k: int| 0 <= k < plan.len() && plan[k] == (from, to);
        assert(chosen[k] == from);
    }
    if chosen.contains(from) && to == marked(from) {
        let k = choose|k: int| 0 <= k < chosen.len() && chosen[k] == from;
        assert(plan[k] == (from, to));
    }
}

/// The renames that confirm a directory take every new file of the
/// directory, and only those, to its name without the marker.
pub proof fn lemma_confirming_plan(listing: Seq<Seq<char>>, from: Seq<char>, to: Seq<char>)
    ensures
        confirming_plan(listing).contains((from, to)) <==> listing.contains(from) && is_new_name(
            from,
        ) && to == base_of(from),
{
    let chosen = sorted_listing(in_state(listing, true));
    let plan = confirming_plan(listing);
    lemma_in_state(listing, true, from);
    if plan.contains((from, to)) {
        let k = choose|k: int| 0 <= k < plan.len() && plan[k] == (from, to);
        assert(chosen[k] == from);
    }
    if chosen.contains(from) && to == base_of(from) {
        let k = choose|k: int| 0 <= k < chosen.len() && chosen[k] == from;
        assert(plan[k] == (from, to));
    }
}

/// Making the files of a directory new changes no base name: afterwards
/// every file is new, and where every file was in one state only, it still
/// is.
pub proof fn lemma_marking_keeps_single_state(listing: Seq<Seq<char>>)
    ensures
        forall|i: int|
            0 <= i < listing.len() ==> is_new_name(#[trigger] after_marking(listing)[i]) && base_of(
                after_marking(listing)[i],
            ) == base_of(listing[i]),
        single_state(listing) ==> single_state(after_marking(listing)),
{
    let after = after_marking(listing);
    assert forall|i: int| 0 <= i < listing.len() implies is_new_name(#[trigger] after[i])
        && base_of(after[i]) == base_of(listing[i]) by {
        if !is_new_name(listing[i]) {
            assert(marked(listing[i]).drop_first() =~= listing[i]);
        }
    }
    if single_state(listing) {
        assert forall|i: int, j: int|
            0 <= i < after.len() && 0 <= j < after.len() && i != j implies base_of(after[i])
            != base_of(after[j]) by {
            assert(base_of(after[i]) == base_of(listing[i]));
            assert(base_of(after[j]) == base_of(listing[j]));
        }
    }
}

/// Confirming the files of a directory changes no base name, where no base
/// name begins with the marker itself: afterwards no file is new, and where
/// every file was in one state only, it still is.
pub proof fn lemma_confirming_keeps_single_state(listing: Seq<Seq<char>>)
    requires
        plain_bases(listing),
    ensures
        forall|i: int|
            0 <= i < listing.len() ==> !is_new_name(#[trigger] after_confirming(listing)[i])
                && base_of(after_confirming(listing)[i]) == base_of(listing[i]),
        single_state(listing) ==> single_state(after_confirming(listing)),
{
    let after = after_confirming(listing);
    assert forall|i: int| 0 <= i < listing.len() implies !is_new_name(#[trigger] after[i])
        && base_of(after[i]) == base_of(listing[i]) by {
        assert(!is_new_name(base_of(listing[i])));
    }
    if single_state(listing) {
        assert forall|i: int, j: int|
            0 <= i < after.len() && 0 <= j < after.len() && i != j implies base_of(after[i])
            != base_of(after[j]) by {
            assert(base_of(after[i]) == base_of(listing[i]));
            assert(base_of(after[j]) == base_of(listing[j]));
        }
    }
}

/// Where every file of a directory is in one state only, the directory
/// never has both the confirmed and the new form of a base name that does
/// not itself begin with the marker.
pub proof fn lemma_never_both_states(listing: Seq<Seq<char>>, base: Seq<char>)
    requires
        single_state(listing),
        !is_new_name(base),
    ensures
        !(listing.contains(base) && listing.contains(marked(base))),
{
    if listing.contains(base) && listing.contains(marked(base)) {
        let i = choose|i: int| 0 <= i < listing.len() && listing[i] == base;
        let j = choose|j: int| 0 <= j < listing.len() && listing[j] == marked(base);
        assert(marked(base).drop_first() =~= base);
        assert(marked(base)[0] == NEW_MARKER);
        assert(i != j);
    }
}

} // verus!
