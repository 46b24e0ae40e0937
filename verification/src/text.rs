//! Names as sequences of characters: the model that the contracts of this
//! crate speak of, and the searches and comparisons that the other modules
//! are built from.

use vstd::prelude::*;

verus! {

/// The model of a list of names: each name as its characters.
pub open spec fn names(v: Seq<String>) -> Seq<Seq<char>> {
    Seq::new(v.len(), |i: int| v[i]@)
}

/// `needle` occurs in `hay` starting at index `at`.
pub open spec fn occurs_at(hay: Seq<char>, needle: Seq<char>, at: int) -> bool {
    &&& 0 <= at
    &&& at + needle.len() <= hay.len()
    &&& hay.subrange(at, at + needle.len()) == needle
}

/// `needle` occurs somewhere in `hay`. The empty sequence occurs in every
/// sequence.
pub open spec fn occurs_in(hay: Seq<char>, needle: Seq<char>) -> bool {
    exists|at: int| occurs_at(hay, needle, at)
}

/// `name` begins with the character `c`.
pub open spec fn begins_with(name: Seq<char>, c: char) -> bool {
    name.len() > 0 && name[0] == c
}

/// Strict lexicographic order by code point, the order in which strings
/// sort: `a` comes before `b` when, at the first index where they differ, `a`
/// has ended or holds the smaller character.
pub open spec fn lex_lt(a: Seq<char>, b: Seq<char>) -> bool {
    exists|k: int| differ_first_at(a, b, k)
}

/// `a` and `b` agree before index `k`, and at `k` either `a` has ended and
/// `b` has not, or `a` holds the smaller character.
pub open spec fn differ_first_at(a: Seq<char>, b: Seq<char>, k: int) -> bool {
    &&& 0 <= k <= a.len()
    &&& k <= b.len()
    &&& a.take(k) == b.take(k)
    &&& k < b.len()
    &&& (k < a.len() ==> (a[k] as u32) < (b[k] as u32))
}

/// `a` comes before `b` or equals it.
pub open spec fn lex_le(a: Seq<char>, b: Seq<char>) -> bool {
    a == b || lex_lt(a, b)
}

/// Every pair of `s` is in order.
pub open spec fn sorted(s: Seq<Seq<char>>) -> bool {
    forall|i: int, j: int| 0 <= i < j < s.len() ==> lex_le(s[i], s[j])
}

/// The order of names as a relation.
pub open spec fn name_order() -> spec_fn(Seq<char>, Seq<char>) -> bool {
    |a: Seq<char>, b: Seq<char>| lex_le(a, b)
}

/// The names of `listing` in ascending order, each as often as `listing`
/// holds it.
pub open spec fn sorted_listing(listing: Seq<Seq<char>>) -> Seq<Seq<char>> {
    listing.sort_by(name_order())
}

/// The characters of `s`, in order.
pub fn chars_of(s: &str) -> (v: Vec<char>)
    ensures
        v@ == s@,
{
    let mut v: Vec<char> = Vec::new();
    let chars = s.chars();
    for c in it: chars
        invariant
            it.seq() == s@,
            v@ == it.seq().take(it.index()),
    {
        v.push(c);
    }
    v
}

/// Whether `needle` stands in `hay` at index `at`.
pub fn matches_at(hay: &Vec<char>, needle: &Vec<char>, at: usize) -> (r: bool)
    ensures
        r == occurs_at(hay@, needle@, at as int),
{
    if needle.len() > hay.len() || at > hay.len() - needle.len() {
        return false;
    }
    let mut i: usize = 0;
    while i < needle.len()
        invariant
            at + needle.len() <= hay.len(),
            i <= needle.len(),
            forall|j: int| 0 <= j < i ==> hay@[at + j] == needle@[j],
        decreases needle.len() - i,
    {
        if hay[at + i] != needle[i] {
            proof {
                let sub = hay@.subrange(at as int, at + needle.len());
                assert(sub[i as int] == hay@[at + i]);
            }
            return false;
        }
        i += 1;
    }
    assert(hay@.subrange(at as int, at + needle.len()) =~= needle@);
    true
}

/// Whether `needle` occurs anywhere in `hay`.
pub fn find_in(hay: &Vec<char>, needle: &Vec<char>) -> (r: bool)
    ensures
        r == occurs_in(hay@, needle@),
{
    if needle.len() > hay.len() {
        return false;
    }
    let last: usize = hay.len() - needle.len();
    let mut at: usize = 0;
    while at < last
        invariant
            last == hay.len() - needle.len(),
            at <= last,
            forall|j: int| 0 <= j < at ==> !occurs_at(hay@, needle@, j),
        decreases last - at,
    {
        if matches_at(hay, needle, at) {
            return true;
        }
        at += 1;
    }
    matches_at(hay, needle, last)
}

/// Whether `needle` occurs anywhere in `hay`.
pub fn contains(hay: &str, needle: &str) -> (r: bool)
    ensures
        r == occurs_in(hay@, needle@),
{
    let h = chars_of(hay);
    let n = chars_of(needle);
    find_in(&h, &n)
}

/// Whether `a` sorts strictly before `b`.
pub fn chars_lt(a: &Vec<char>, b: &Vec<char>) -> (r: bool)
    ensures
        r == lex_lt(a@, b@),
{
    let mut k: usize = 0;
    while k < a.len() && k < b.len()
        invariant
            k <= a.len(),
            k <= b.len(),
            a@.take(k as int) == b@.take(k as int),
        decreases a.len() - k,
    {
        let ca: char = a[k];
        let cb: char = b[k];
        if ca != cb {
            proof {
                lemma_first_difference(a@, b@, k as int);
            }
            return (ca as u32) < (cb as u32);
        }
        assert(a@.take(k + 1) =~= a@.take(k as int).push(a@[k as int]));
        assert(b@.take(k + 1) =~= b@.take(k as int).push(b@[k as int]));
        k += 1;
    }
    proof {
        lemma_first_difference(a@, b@, k as int);
    }
    k < b.len()
}

/// Whether `a` sorts strictly before `b`.
pub fn name_lt(a: &str, b: &str) -> (r: bool)
    ensures
        r == lex_lt(a@, b@),
{
    let x = chars_of(a);
    let y = chars_of(b);
    chars_lt(&x, &y)
}

/// Where two sequences agree up to `k` and differ at `k` (or one ends
/// there), `k` is the only index at which one can come first, so the order
/// is decided there.
pub proof fn lemma_first_difference(a: Seq<char>, b: Seq<char>, k: int)
    requires
        0 <= k <= a.len(),
        k <= b.len(),
        a.take(k) == b.take(k),
        k == a.len() || k == b.len() || a[k] != b[k],
    ensures
        lex_lt(a, b) == differ_first_at(a, b, k),
{
    if lex_lt(a, b) {
        let j = choose|j: int| differ_first_at(a, b, j);
        if j < k {
            assert(a.take(k)[j] == a[j]);
            assert(b.take(k)[j] == b[j]);
        } else if j > k {
            assert(a.take(j)[k] == a[k]);
            assert(b.take(j)[k] == b[k]);
        }
    }
}

/// The first index at or after `k` where `a` and `b` differ or one of them
/// ends.
pub open spec fn mismatch_from(a: Seq<char>, b: Seq<char>, k: int) -> int
    decreases a.len() - k,
{
    if k < 0 || k >= a.len() || k >= b.len() || a[k] != b[k] {
        k
    } else {
        mismatch_from(a, b, k + 1)
    }
}

/// `mismatch_from` finds the end of the common prefix.
pub proof fn lemma_mismatch(a: Seq<char>, b: Seq<char>, k: int)
    requires
        0 <= k <= a.len(),
        k <= b.len(),
        a.take(k) == b.take(k),
    ensures
        k <= mismatch_from(a, b, k) <= a.len(),
        mismatch_from(a, b, k) <= b.len(),
        a.take(mismatch_from(a, b, k)) == b.take(mismatch_from(a, b, k)),
        mismatch_from(a, b, k) == a.len() || mismatch_from(a, b, k) == b.len() || a[mismatch_from(
            a,
            b,
            k,
        )] != b[mismatch_from(a, b, k)],
    decreases a.len() - k,
{
    if k < a.len() && k < b.len() && a[k] == b[k] {
        assert(a.take(k + 1) =~= a.take(k).push(a[k]));
        assert(b.take(k + 1) =~= b.take(k).push(b[k]));
        lemma_mismatch(a, b, k + 1);
    }
}

/// Of two names, one comes first or they are equal.
pub proof fn lemma_lex_total(a: Seq<char>, b: Seq<char>)
    ensures
        lex_lt(a, b) || a == b || lex_lt(b, a),
{
    assert(a.take(0) =~= b.take(0));
    lemma_mismatch(a, b, 0);
    let m = mismatch_from(a, b, 0);
    if m == a.len() && m == b.len() {
        assert(a.take(m) =~= a);
        assert(b.take(m) =~= b);
    } else if m == a.len() {
        assert(differ_first_at(a, b, m));
    } else if m == b.len() {
        assert(differ_first_at(b, a, m));
    } else {
        vstd::utf8::char_u32_cast(a[m], a[m] as u32);
        vstd::utf8::char_u32_cast(b[m], b[m] as u32);
        if (a[m] as u32) < (b[m] as u32) {
            assert(differ_first_at(a, b, m));
        } else {
            assert(differ_first_at(b, a, m));
        }
    }
}

/// No name comes before itself, and of two names at most one comes first.
pub proof fn lemma_lex_asymmetric(a: Seq<char>, b: Seq<char>)
    ensures
        !(lex_lt(a, b) && lex_lt(b, a)),
        !lex_lt(a, a),
{
    if lex_lt(a, b) && lex_lt(b, a) {
        let k = choose|k: int| differ_first_at(a, b, k);
        lemma_first_difference(b, a, k);
    }
    if lex_lt(a, a) {
        let k = choose|k: int| differ_first_at(a, a, k);
        assert(k < a.len());
    }
}

/// The order is transitive.
pub proof fn lemma_lex_transitive(a: Seq<char>, b: Seq<char>, c: Seq<char>)
    requires
        lex_le(a, b),
        lex_le(b, c),
    ensures
        lex_le(a, c),
        lex_lt(a, b) || lex_lt(b, c) ==> lex_lt(a, c),
{
    if a != b && b != c {
        let i = choose|i: int| differ_first_at(a, b, i);
        let j = choose|j: int| differ_first_at(b, c, j);
        let k = if i <= j { i } else { j };
        assert(a.take(k) =~= c.take(k)) by {
            assert forall|n: int| 0 <= n < k implies a[n] == c[n] by {
                assert(a.take(i)[n] == b.take(i)[n]);
                assert(b.take(j)[n] == c.take(j)[n]);
            }
        }
        if i < j {
            assert(b.take(j)[i] == c.take(j)[i]);
        } else if j < i {
            assert(a.take(i)[j] == b.take(i)[j]);
        }
        assert(differ_first_at(a, c, k));
    }
}

/// The order of names is total: reflexive, antisymmetric, transitive, and
/// it relates every two names one way or the other.
pub proof fn lemma_name_order_total()
    ensures
        vstd::relations::total_ordering(name_order()),
{
    let r = name_order();
    assert forall|x: Seq<char>, y: Seq<char>| #[trigger] r(x, y) && #[trigger] r(y, x) implies x
        == y by {
        lemma_lex_asymmetric(x, y);
    }
    assert forall|x: Seq<char>, y: Seq<char>, z: Seq<char>| #[trigger] r(x, y) && #[trigger] r(
        y,
        z,
    ) implies r(x, z) by {
        lemma_lex_transitive(x, y, z);
    }
    assert forall|x: Seq<char>, y: Seq<char>| #[trigger] r(x, y) || #[trigger] r(y, x) by {
        lemma_lex_total(x, y);
    }
}

/// A sorted sequence with the names of `listing` is the sorted listing:
/// there is only one.
pub proof fn lemma_sorted_is_sorted_listing(s: Seq<Seq<char>>, listing: Seq<Seq<char>>)
    requires
        sorted(s),
        s.to_multiset() == listing.to_multiset(),
    ensures
        s == sorted_listing(listing),
{
    lemma_name_order_total();
    listing.lemma_sort_by_ensures(name_order());
    assert(vstd::relations::sorted_by(s, name_order()));
    vstd::seq_lib::lemma_sorted_unique(s, sorted_listing(listing), name_order());
}

/// The sorted listing is in order and holds the names of the listing.
pub proof fn lemma_sorted_listing(listing: Seq<Seq<char>>)
    ensures
        sorted(sorted_listing(listing)),
        sorted_listing(listing).to_multiset() == listing.to_multiset(),
        sorted_listing(listing).len() == listing.len(),
        forall|n: Seq<char>| sorted_listing(listing).contains(n) <==> listing.contains(n),
{
    lemma_name_order_total();
    listing.lemma_sort_by_ensures(name_order());
    let s = sorted_listing(listing);
    assert(sorted(s)) by {
        assert forall|i: int, j: int| 0 <= i < j < s.len() implies lex_le(s[i], s[j]) by {
            assert(name_order()(s[i], s[j]));
        }
    }
    s.to_multiset_ensures();
    listing.to_multiset_ensures();
    assert forall|n: Seq<char>| s.contains(n) <==> listing.contains(n) by {
        assert(s.contains(n) <==> s.to_multiset().count(n) > 0);
        assert(listing.contains(n) <==> listing.to_multiset().count(n) > 0);
    }
}

/// Inserting an element adds it to the multiset of a sequence.
pub proof fn lemma_insert_to_multiset<A>(s: Seq<A>, i: int, x: A)
    requires
        0 <= i <= s.len(),
    ensures
        s.insert(i, x).to_multiset() == s.to_multiset().insert(x),
{
    let t = s.insert(i, x);
    assert(t.remove(i) =~= s);
    vstd::seq_lib::to_multiset_remove(t, i);
    t.to_multiset_ensures();
    assert(t[i] == x);
    assert(t.contains(x));
    assert(t.to_multiset() =~= s.to_multiset().insert(x));
}

/// The names of `listing` in ascending order: the same names, each as often
/// as `listing` holds it.
pub fn sort_names(listing: &Vec<String>) -> (out: Vec<String>)
    ensures
        names(out@) == sorted_listing(names(listing@)),
{
    let mut out: Vec<String> = Vec::new();
    let mut i: usize = 0;
    assert(names(listing@).take(0) =~= names(out@));
    while i < listing.len()
        invariant
            i <= listing.len(),
            out@.len() == i,
            sorted(names(out@)),
            names(out@).to_multiset() == names(listing@).take(i as int).to_multiset(),
        decreases listing.len() - i,
    {
        let name: String = listing[i].clone();
        let key = chars_of(name.as_str());
        let mut pos: usize = 0;
        while pos < out.len()
            invariant
                pos <= out.len(),
                key@ == name@,
                forall|j: int| 0 <= j < pos ==> lex_le(#[trigger] names(out@)[j], name@),
            ensures
                pos < out.len() ==> lex_lt(name@, names(out@)[pos as int]),
            decreases out.len() - pos,
        {
            let other = chars_of(out[pos].as_str());
            if chars_lt(&key, &other) {
                break;
            }
            proof {
                lemma_lex_total(name@, out@[pos as int]@);
            }
            pos += 1;
        }
        proof {
            let before = names(out@);
            let after = before.insert(pos as int, name@);
            assert(names(out@.insert(pos as int, name)) =~= after);
            lemma_insert_to_multiset(before, pos as int, name@);
            let all = names(listing@);
            assert(all.take(i + 1) =~= all.take(i as int).push(name@));
            vstd::seq_lib::to_multiset_build(all.take(i as int), name@);
            assert forall|x: int, y: int| 0 <= x < y < after.len() implies lex_le(
                after[x],
                after[y],
            ) by {
                if y == pos {
                } else if x == pos {
                    assert(lex_lt(name@, before[pos as int]));
                    if y - 1 > pos {
                        lemma_lex_transitive(name@, before[pos as int], before[y - 1]);
                    }
                } else if x < pos && y > pos {
                    assert(after[y] == before[y - 1]);
                } else if x < pos {
                } else {
                    assert(after[x] == before[x - 1]);
                    assert(after[y] == before[y - 1]);
                }
            }
        }
        out.insert(pos, name);
        i += 1;
    }
    proof {
        assert(names(listing@).take(i as int) =~= names(listing@));
        lemma_sorted_is_sorted_listing(names(out@), names(listing@));
    }
    out
}

} // verus!
