//! Timecodes: the date and time that a frame's file name carries, and the
//! six-minute adjacency rule between two of them.

use crate::text::chars_of;
use vstd::prelude::*;

verus! {

/// Characters of the date and time in a name: four of the year, then two
/// each of month, day, hour and minute.
pub const STAMP_LEN: usize = 12;

/// Index of the dot-delimited segment of a name that holds the date and
/// time, counting from zero.
pub const STAMP_SEGMENT: usize = 2;

/// Minutes between two frames of one radar.
pub const FRAME_INTERVAL: usize = 6;

/// The year, month, day, hour and minute read from a frame's file name.
#[derive(Clone, Copy, Debug, PartialEq, Eq, Structural)]
pub struct Timecode {
    pub year: usize,
    pub month: usize,
    pub day: usize,
    pub hour: usize,
    pub min: usize,
}

/// The adjacency rule: `next` follows `prev` when its minute is six later, or
/// when a unit rolled over: a minute of at most six in the next hour, hour
/// zero on the next day, day zero in the next month, month zero in the next
/// year. No calendar lengths are consulted.
pub open spec fn consecutive(prev: Timecode, next: Timecode) -> bool {
    ||| prev.min + FRAME_INTERVAL == next.min
    ||| (next.min <= FRAME_INTERVAL && prev.hour + 1 == next.hour)
    ||| (next.hour == 0 && prev.day + 1 == next.day)
    ||| (next.day == 0 && prev.month + 1 == next.month)
    ||| (next.month == 0 && prev.year + 1 == next.year)
}

/// Whether `next` directly follows `prev` under the adjacency rule.
pub fn are_consecutive(prev: &Timecode, next: &Timecode) -> (r: bool)
    ensures
        r == consecutive(*prev, *next),
{
    (next.min >= FRAME_INTERVAL && next.min - FRAME_INTERVAL == prev.min)
        || (next.min <= FRAME_INTERVAL && next.hour >= 1 && next.hour - 1 == prev.hour)
        || (next.hour == 0 && next.day >= 1 && next.day - 1 == prev.day)
        || (next.day == 0 && next.month >= 1 && next.month - 1 == prev.month)
        || (next.month == 0 && next.year >= 1 && next.year - 1 == prev.year)
}

/// Why a name yields no timecode.
#[derive(Clone, Copy, Debug, PartialEq, Eq, Structural)]
pub enum TimecodeError {
    /// The name has fewer than three dot-delimited segments.
    MissingSegment,
    /// The third segment has fewer than twelve characters.
    TooShort,
    /// One of the first twelve characters of the third segment is no
    /// decimal digit.
    NotNumeric,
}

/// `c` is one of the ten decimal digits.
pub open spec fn is_digit(c: char) -> bool {
    48 <= c as u32 <= 57
}

/// The number that the digit `c` stands for.
pub open spec fn digit_value(c: char) -> nat {
    (c as u32 - 48) as nat
}

/// Every character of `s` is a decimal digit.
pub open spec fn all_digits(s: Seq<char>) -> bool {
    forall|i: int| 0 <= i < s.len() ==> is_digit(#[trigger] s[i])
}

/// The number that the digits of `s` write in base ten; zero for the empty
/// sequence.
pub open spec fn decimal(s: Seq<char>) -> nat
    decreases s.len(),
{
    if s.len() == 0 {
        0
    } else {
        decimal(s.drop_last()) * 10 + digit_value(s.last())
    }
}

/// Where the segment that starts at `from` ends: the index of the first dot
/// at or after `from`, or the length of `s` when no dot follows.
pub open spec fn segment_end(s: Seq<char>, from: int) -> int
    decreases s.len() - from,
{
    if from < 0 || from >= s.len() || s[from] == '.' {
        from
    } else {
        segment_end(s, from + 1)
    }
}

/// Where segment `k` of `s` starts, counting segments from zero: segment
/// zero starts at index zero, each later one just behind the dot that ends
/// the one before. `None` when `s` has fewer than `k` dots.
pub open spec fn segment_start(s: Seq<char>, k: nat) -> Option<int>
    decreases k,
{
    if k == 0 {
        Some(0)
    } else {
        match segment_start(s, (k - 1) as nat) {
            Some(a) => {
                let e = segment_end(s, a);
                if e < s.len() {
                    Some(e + 1)
                } else {
                    None
                }
            },
            None => None,
        }
    }
}

/// Segment `k` of `s` split at its dots, or `None` when `s` has fewer than
/// `k` dots. A segment may be empty.
pub open spec fn segment(s: Seq<char>, k: nat) -> Option<Seq<char>> {
    match segment_start(s, k) {
        Some(a) => Some(s.subrange(a, segment_end(s, a))),
        None => None,
    }
}

/// The timecode that twelve digits write.
pub open spec fn timecode_of_stamp(stamp: Seq<char>) -> Timecode {
    Timecode {
        year: decimal(stamp.subrange(0, 4)) as usize,
        month: decimal(stamp.subrange(4, 6)) as usize,
        day: decimal(stamp.subrange(6, 8)) as usize,
        hour: decimal(stamp.subrange(8, 10)) as usize,
        min: decimal(stamp.subrange(10, 12)) as usize,
    }
}

/// The timecode of a file name: its third dot-delimited segment must hold at
/// least twelve characters, of which the first twelve must be digits; what
/// follows them in the segment is not read.
pub open spec fn parse_timecode(name: Seq<char>) -> Result<Timecode, TimecodeError> {
    match segment(name, STAMP_SEGMENT as nat) {
        None => Err(TimecodeError::MissingSegment),
        Some(seg) => {
            if seg.len() < STAMP_LEN {
                Err(TimecodeError::TooShort)
            } else if !all_digits(seg.take(STAMP_LEN as int)) {
                Err(TimecodeError::NotNumeric)
            } else {
                Ok(timecode_of_stamp(seg.take(STAMP_LEN as int)))
            }
        },
    }
}

/// A segment holds no dot, and ends at a dot or at the end of the name.
pub proof fn lemma_segment_end(s: Seq<char>, from: int)
    requires
        0 <= from <= s.len(),
    ensures
        from <= segment_end(s, from) <= s.len(),
        forall|i: int| from <= i < segment_end(s, from) ==> s[i] != '.',
        segment_end(s, from) < s.len() ==> s[segment_end(s, from)] == '.',
    decreases s.len() - from,
{
    if from < s.len() && s[from] != '.' {
        lemma_segment_end(s, from + 1);
    }
}

/// `seg` is the part of `s` between its second dot, at `d2`, and the next
/// dot or the end of `s`, at `e`; the first dot is at `d1`.
pub open spec fn is_third_segment(s: Seq<char>, seg: Seq<char>, d1: int, d2: int, e: int) -> bool {
    &&& 0 <= d1 < d2 < e <= s.len()
    &&& s[d1] == '.'
    &&& s[d2] == '.'
    &&& forall|i: int| 0 <= i < d2 && i != d1 ==> s[i] != '.'
    &&& forall|i: int| d2 < i < e ==> s[i] != '.'
    &&& e < s.len() ==> s[e] == '.'
    &&& seg == s.subrange(d2 + 1, e)
}

/// The segment that holds the date and time is what stands between the
/// second dot of a name and its third dot, or its end where it has only
/// two; a name with fewer than two dots has no such segment.
pub proof fn lemma_third_segment(s: Seq<char>)
    ensures
        ({
            let d1 = segment_end(s, 0);
            let d2 = segment_end(s, d1 + 1);
            let e = segment_end(s, d2 + 1);
            match segment(s, 2) {
                Some(seg) => is_third_segment(s, seg, d1, d2, e),
                None => forall|a: int, b: int|
                    0 <= a < b < s.len() ==> !(s[a] == '.' && s[b] == '.'),
            }
        }),
{
    reveal_with_fuel(segment_start, 3);
    lemma_segment_end(s, 0);
    let d1 = segment_end(s, 0);
    if d1 < s.len() {
        lemma_segment_end(s, d1 + 1);
        let d2 = segment_end(s, d1 + 1);
        if d2 < s.len() {
            lemma_segment_end(s, d2 + 1);
        } else {
            assert forall|a: int, b: int| 0 <= a < b < s.len() implies !(s[a] == '.' && s[b]
                == '.') by {
                if s[a] == '.' && s[b] == '.' {
                    assert(a == d1);
                }
            }
        }
    } else {
        assert forall|a: int, b: int| 0 <= a < b < s.len() implies !(s[a] == '.' && s[b]
            == '.') by {
            assert(s[a] != '.');
        }
    }
}

/// A number of `n` digits is below ten to the `n`, here for the widths that a
/// timecode uses.
pub proof fn lemma_decimal_bound(s: Seq<char>)
    requires
        all_digits(s),
        s.len() <= 4,
    ensures
        s.len() == 0 ==> decimal(s) == 0,
        s.len() == 1 ==> decimal(s) <= 9,
        s.len() == 2 ==> decimal(s) <= 99,
        s.len() == 3 ==> decimal(s) <= 999,
        s.len() == 4 ==> decimal(s) <= 9999,
    decreases s.len(),
{
    if s.len() > 0 {
        assert(is_digit(s[s.len() - 1]));
        lemma_decimal_bound(s.drop_last());
    }
}

/// The index at which the segment starting at `from` ends.
fn find_segment_end(chars: &Vec<char>, from: usize) -> (end: usize)
    requires
        from <= chars.len(),
    ensures
        end == segment_end(chars@, from as int),
        from <= end <= chars.len(),
{
    let mut i: usize = from;
    while i < chars.len() && chars[i] != '.'
        invariant
            from <= i <= chars.len(),
            segment_end(chars@, from as int) == segment_end(chars@, i as int),
        decreases chars.len() - i,
    {
        i += 1;
    }
    i
}

/// The number written by the `width` characters of `chars` from index
/// `from` on, or `None` when one of them is no digit.
fn read_field(chars: &Vec<char>, from: usize, width: usize) -> (r: Option<usize>)
    requires
        from + width <= chars.len(),
        width <= 4,
    ensures
        r is Some == all_digits(chars@.subrange(from as int, from + width)),
        r matches Some(n) ==> n == decimal(chars@.subrange(from as int, from + width)),
{
    let mut acc: usize = 0;
    let mut i: usize = 0;
    while i < width
        invariant
            from + width <= chars.len(),
            width <= 4,
            i <= width,
            all_digits(chars@.subrange(from as int, from + i)),
            acc == decimal(chars@.subrange(from as int, from + i)),
            acc <= 9999,
        decreases width - i,
    {
        let c: char = chars[from + i];
        let d: u32 = c as u32;
        if d < 48 || d > 57 {
            proof {
                let whole = chars@.subrange(from as int, from + width);
                assert(whole[i as int] == c);
            }
            return None;
        }
        proof {
            let longer = chars@.subrange(from as int, from + i + 1);
            assert(longer.drop_last() =~= chars@.subrange(from as int, from + i));
            assert(longer.last() == c);
            lemma_decimal_bound(chars@.subrange(from as int, from + i));
            lemma_decimal_bound(longer);
        }
        acc = acc * 10 + (d - 48) as usize;
        i += 1;
    }
    Some(acc)
}

/// Reads the timecode from a file's name: the name is split at its dots, and
/// the first twelve characters of the third segment are read as year, month,
/// day, hour and minute. `name` is the last component of the file's path,
/// with or without the marker of a new file in front.
pub fn timecode_from_path(name: &str) -> (r: Result<Timecode, TimecodeError>)
    ensures
        r == parse_timecode(name@),
{
    let chars = chars_of(name);
    proof {
        reveal_with_fuel(segment_start, 3);
    }
    let end0 = find_segment_end(&chars, 0);
    if end0 >= chars.len() {
        return Err(TimecodeError::MissingSegment);
    }
    let end1 = find_segment_end(&chars, end0 + 1);
    if end1 >= chars.len() {
        return Err(TimecodeError::MissingSegment);
    }
    let start: usize = end1 + 1;
    let end = find_segment_end(&chars, start);
    assert(segment_start(chars@, 2) == Some(start as int));
    if end - start < STAMP_LEN {
        return Err(TimecodeError::TooShort);
    }
    let ghost seg = chars@.subrange(start as int, end as int);
    let ghost stamp = seg.take(STAMP_LEN as int);
    proof {
        assert(stamp.subrange(0, 4) =~= chars@.subrange(start as int, start + 4));
        assert(stamp.subrange(4, 6) =~= chars@.subrange(start + 4, start + 6));
        assert(stamp.subrange(6, 8) =~= chars@.subrange(start + 6, start + 8));
        assert(stamp.subrange(8, 10) =~= chars@.subrange(start + 8, start + 10));
        assert(stamp.subrange(10, 12) =~= chars@.subrange(start + 10, start + 12));
        if all_digits(stamp) {
            assert forall|a: int, b: int| 0 <= a <= b <= 12 implies all_digits(
                #[trigger] stamp.subrange(a, b),
            ) by {
                assert forall|i: int| 0 <= i < b - a implies is_digit(
                    #[trigger] stamp.subrange(a, b)[i],
                ) by {
                    assert(stamp.subrange(a, b)[i] == stamp[a + i]);
                }
            }
        }
    }
    let year = read_field(&chars, start, 4);
    let month = read_field(&chars, start + 4, 2);
    let day = read_field(&chars, start + 6, 2);
    let hour = read_field(&chars, start + 8, 2);
    let min = read_field(&chars, start + 10, 2);
    match (year, month, day, hour, min) {
        (Some(year), Some(month), Some(day), Some(hour), Some(min)) => {
            proof {
                assert forall|i: int| 0 <= i < 12 implies is_digit(#[trigger] stamp[i]) by {
                    if i < 4 {
                        assert(stamp.subrange(0, 4)[i] == stamp[i]);
                    } else if i < 6 {
                        assert(stamp.subrange(4, 6)[i - 4] == stamp[i]);
                    } else if i < 8 {
                        assert(stamp.subrange(6, 8)[i - 6] == stamp[i]);
                    } else if i < 10 {
                        assert(stamp.subrange(8, 10)[i - 8] == stamp[i]);
                    } else {
                        assert(stamp.subrange(10, 12)[i - 10] == stamp[i]);
                    }
                }
            }
            Ok(Timecode { year, month, day, hour, min })
        },
        _ => Err(TimecodeError::NotNumeric),
    }
}

/// Whether the file named `next` holds the frame that directly follows the
/// one in the file named `prev`. Fails where one of the names yields no
/// timecode, with the error of `prev` first.
pub fn consecutive_files(prev: &str, next: &str) -> (r: Result<bool, TimecodeError>)
    ensures
        r == consecutive_names(prev@, next@),
{
    match timecode_from_path(prev) {
        Err(e) => Err(e),
        Ok(p) => match timecode_from_path(next) {
            Err(e) => Err(e),
            Ok(n) => Ok(are_consecutive(&p, &n)),
        },
    }
}

/// Adjacency of two names by their timecodes; the error of `prev` comes
/// first.
pub open spec fn consecutive_names(prev: Seq<char>, next: Seq<char>) -> Result<
    bool,
    TimecodeError,
> {
    match parse_timecode(prev) {
        Err(e) => Err(e),
        Ok(p) => match parse_timecode(next) {
            Err(e) => Err(e),
            Ok(n) => Ok(consecutive(p, n)),
        },
    }
}

} // verus!
