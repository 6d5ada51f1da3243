//! Wall-clock helpers: the planner's day boundary, splitting a time into
//! hours and minutes, the clock-face character for a time, picking the
//! slot that covers a moment, and parsing the numbers the planner asks
//! the user for.
use vstd::prelude::*;

use crate::slot::SlotResult;
use crate::slot::TimePoint;

verus! {

/// The planner's day rolls over this long after midnight, so late-night
/// hours still count as the previous day.
pub const DAY_OFFSET_SEC: u64 = 3 * 60 * 60;

/// Whether a clock time falls between midnight and the planner's day
/// boundary.
pub fn is_past_midnight(secs_since_midnight: u64) -> (b: bool)
    ensures
        b == (secs_since_midnight < DAY_OFFSET_SEC),
{
    secs_since_midnight < DAY_OFFSET_SEC
}

/// A clock time as the planner counts it: times before the day boundary
/// are pushed past it, so they sort after the evening of the same
/// planning day.
pub fn time_since_midnight(secs_since_midnight: u64) -> (r: u64)
    ensures
        r == (if secs_since_midnight < DAY_OFFSET_SEC {
            secs_since_midnight + DAY_OFFSET_SEC
        } else {
            secs_since_midnight as int
        }),
{
    if secs_since_midnight < DAY_OFFSET_SEC {
        secs_since_midnight + DAY_OFFSET_SEC
    } else {
        secs_since_midnight
    }
}

/// Splits a time in seconds into whole hours and the minutes within the
/// hour.
pub fn hour_and_minute(time: u64) -> (r: (u32, u32))
    requires
        time / 3600 <= u32::MAX,
    ensures
        r.0 == time / 3600,
        r.1 == (time % 3600) / 60,
        r.1 < 60,
{
    let hours = time / 3600;
    let rem = time % 3600;
    let minutes = rem / 60;
    (hours as u32, minutes as u32)
}

/// The hour the time rounds to on a clock face, minutes 45 and later
/// rounding up to the next hour.
pub open spec fn rounded_hour_of(t: int) -> int {
    let h = t / 3600;
    let m = (t % 3600) / 60;
    (if m <= 14 {
        h
    } else if m <= 44 {
        h
    } else {
        h + 1
    }) % 12
}

/// The code point of the clock-face character showing that hour.
pub open spec fn clock_code(t: int) -> int {
    0x1F550 + (if rounded_hour_of(t) == 0 {
        11int
    } else {
        rounded_hour_of(t) - 1
    })
}

/// Relies on char::from_u32: a code point below the surrogate range, or
/// between the surrogate range and 0x10FFFF, converts to the character
/// with exactly that code point; anything else gives nothing.
pub assume_specification[ char::from_u32 ](i: u32) -> (r: Option<char>)
    ensures
        r.is_some() <==> (i < 0xD800 || (0xE000 <= i && i <= 0x10FFFF)),
        r.is_some() ==> r.unwrap() as u32 == i,
;

/// The clock-face character for a time of day.
pub fn clock_emoji(time: u64) -> (r: char)
    requires
        time / 3600 < u32::MAX,
    ensures
        r as u32 == clock_code(time as int),
{
    let (hour, minute) = hour_and_minute(time);
    let rounded = (if minute <= 14 {
        hour
    } else if minute <= 44 {
        hour
    } else {
        hour + 1
    }) % 12;
    let codepoint: u32 = 0x1F550 + (if rounded == 0 {
        11
    } else {
        rounded - 1
    });
    char::from_u32(codepoint).unwrap()
}

/// A placement covers a moment when it has strictly started and has not
/// yet ended.
pub open spec fn slot_covers(x: SlotResult, now: TimePoint) -> bool {
    x.start < now && x.start + x.length > now
}

/// The first placement that covers the moment `now`, if any, copied out.
pub fn current_slot(slots: &Vec<SlotResult>, now: TimePoint) -> (r: Option<SlotResult>)
    ensures
        (match r {
            Some(x) => exists|i: int|
                0 <= i < slots@.len() && x == slots@[i] && slot_covers(slots@[i], now) && (forall|
                    j: int,
                | 0 <= j < i ==> !slot_covers(slots@[j], now)),
            None => forall|j: int| 0 <= j < slots@.len() ==> !slot_covers(slots@[j], now),
        }),
{
    let mut k: usize = 0;
    while k < slots.len()
        invariant
            k <= slots@.len(),
            forall|j: int| 0 <= j < k ==> !slot_covers(slots@[j], now),
        decreases slots@.len() - k,
    {
        let d = &slots[k];
        if d.start < now && now - d.start < d.length {
            return Some(d.clone());
        }
        k += 1;
    }
    None
}

/// A decimal digit byte.
pub open spec fn is_ascii_digit(b: u8) -> bool {
    48 <= b <= 57
}

/// The number the digit bytes spell out.
pub open spec fn digits_value(s: Seq<u8>) -> int
    decreases s.len(),
{
    if s.len() == 0 {
        0
    } else {
        digits_value(s.drop_last()) * 10 + (s.last() - 48)
    }
}

pub open spec fn all_digits(s: Seq<u8>) -> bool {
    forall|i: int| 0 <= i < s.len() ==> is_ascii_digit(s[i])
}

/// What parsing an unsigned number accepts: an optional leading plus
/// sign, then one or more digits spelling a value that fits.
pub open spec fn parse_u32_spec(s: Seq<u8>) -> Option<u32> {
    let ds = if s.len() > 0 && s[0] == 43 {
        s.drop_first()
    } else {
        s
    };
    if ds.len() > 0 && all_digits(ds) && digits_value(ds) <= u32::MAX {
        Some(digits_value(ds) as u32)
    } else {
        None
    }
}

proof fn lemma_digits_take_step(s: Seq<u8>, i: int)
    requires
        0 <= i < s.len(),
    ensures
        digits_value(s.take(i + 1)) == digits_value(s.take(i)) * 10 + (s[i] - 48),
{
    assert(s.take(i + 1).drop_last() =~= s.take(i));
    assert(s.take(i + 1).last() == s[i]);
}

proof fn lemma_digits_value_nonneg(s: Seq<u8>)
    requires
        all_digits(s),
    ensures
        digits_value(s) >= 0,
    decreases s.len(),
{
    if s.len() > 0 {
        assert(forall|i: int| 0 <= i < s.len() - 1 ==> s.drop_last()[i] == s[i]);
        lemma_digits_value_nonneg(s.drop_last());
        assert(digits_value(s.drop_last()) * 10 >= 0) by (nonlinear_arith)
            requires
                digits_value(s.drop_last()) >= 0,
        ;
    }
}

/// Parses the decimal bytes of an unsigned number, exactly as
/// `parse_u32_spec` describes: an optional plus sign, then digits.
pub fn parse_u32(s: &[u8]) -> (r: Option<u32>)
    ensures
        r == parse_u32_spec(s@),
{
    let ghost whole = s@;
    let start: usize = if s.len() > 0 && s[0] == 43 {
        1
    } else {
        0
    };
    let ghost ds = if start == 1 {
        whole.drop_first()
    } else {
        whole
    };
    proof {
        assert(ds =~= whole.skip(start as int));
    }
    if s.len() == start {
        return None;
    }
    let mut acc: u64 = 0;
    let mut too_big = false;
    let mut k: usize = start;
    proof {
        assert(ds.take(0) =~= Seq::<u8>::empty());
    }
    while k < s.len()
        invariant
            whole == s@,
            ds == whole.skip(start as int),
            start <= k <= whole.len(),
            start <= 1,
            all_digits(ds.take(k - start)),
            parse_u32_spec(whole) == (if ds.len() > 0 && all_digits(ds) && digits_value(ds)
                <= u32::MAX {
                Some(digits_value(ds) as u32)
            } else {
                None::<u32>
            }),
            !too_big ==> acc == digits_value(ds.take(k - start)) && acc <= u32::MAX,
            too_big ==> digits_value(ds.take(k - start)) > u32::MAX,
        decreases whole.len() - k,
    {
        let b = s[k];
        proof {
            assert(ds[k - start] == whole[k as int]);
            lemma_digits_take_step(ds, k - start);
        }
        if b < 48 || b > 57 {
            proof {
                assert(!is_ascii_digit(ds[k - start]));
                assert(!all_digits(ds));
            }
            return None;
        }
        if !too_big {
            let t: u64 = acc * 10 + ((b - 48) as u64);
            if t > 0xFFFF_FFFF {
                too_big = true;
                proof {
                    assert(digits_value(ds.take(k - start + 1)) > u32::MAX);
                }
            } else {
                acc = t;
            }
        } else {
            proof {
                let v = digits_value(ds.take(k - start));
                assert(v * 10 >= v) by (nonlinear_arith)
                    requires
                        v >= 0,
                ;
                assert(digits_value(ds.take(k - start + 1)) > u32::MAX);
            }
        }
        k += 1;
    }
    proof {
        assert(ds.take(whole.len() - start) =~= ds);
    }
    if too_big {
        None
    } else {
        Some(acc as u32)
    }
}

/// What parsing a wall-clock time accepts: a one- or two-digit hour
/// below 24, a colon, and a one- or two-digit minute below 60, and
/// nothing else. The value is the time point in seconds.
pub open spec fn parse_hhmm_spec(s: Seq<u8>) -> Option<u64> {
    if s.len() >= 2 && s[1] == 58 {
        hhmm_value(s.take(1), s.skip(2))
    } else if s.len() >= 3 && s[2] == 58 {
        hhmm_value(s.take(2), s.skip(3))
    } else {
        None
    }
}

/// The time point the hour and minute digit groups spell out, when both
/// are in range.
pub open spec fn hhmm_value(hd: Seq<u8>, md: Seq<u8>) -> Option<u64> {
    if 1 <= md.len() <= 2 && all_digits(hd) && all_digits(md) && digits_value(hd) < 24
        && digits_value(md) < 60 {
        Some((digits_value(hd) * 3600 + digits_value(md) * 60) as u64)
    } else {
        None
    }
}

/// Reads a one- or two-digit group as a number; gives nothing when a
/// byte is not a digit.
fn read_digit_group(s: &[u8], from: usize, to: usize) -> (r: Option<u64>)
    requires
        from < to <= s@.len(),
        to - from <= 2,
    ensures
        (match r {
            Some(v) => all_digits(s@.subrange(from as int, to as int)) && v == digits_value(
                s@.subrange(from as int, to as int),
            ),
            None => !all_digits(s@.subrange(from as int, to as int)),
        }),
{
    let ghost g = s@.subrange(from as int, to as int);
    let b0 = s[from];
    if b0 < 48 || b0 > 57 {
        proof {
            assert(!is_ascii_digit(g[0]));
        }
        return None;
    }
    if to - from == 1 {
        proof {
            assert(g.drop_last() =~= Seq::<u8>::empty());
            assert(g.last() == s@[from as int]);
            assert(g[0] == s@[from as int]);
            assert(all_digits(g));
            assert(digits_value(g.drop_last()) == 0);
            assert(digits_value(g) == g[0] - 48);
        }
        Some((b0 - 48) as u64)
    } else {
        let b1 = s[from + 1];
        if b1 < 48 || b1 > 57 {
            proof {
                assert(!is_ascii_digit(g[1]));
            }
            return None;
        }
        proof {
            assert(g.drop_last().drop_last() =~= Seq::<u8>::empty());
            assert(g.drop_last().last() == s@[from as int]);
            assert(g.drop_last()[0] == g[0]);
            assert(g[0] == s@[from as int]);
            assert(g[1] == s@[from as int + 1]);
            assert(g.last() == s@[from as int + 1]);
            assert(all_digits(g));
            assert(digits_value(g.drop_last().drop_last()) == 0);
            assert(digits_value(g.drop_last()) == g[0] - 48);
            assert(digits_value(g) == (g[0] - 48) * 10 + (g[1] - 48));
        }
        Some(((b0 - 48) as u64) * 10 + ((b1 - 48) as u64))
    }
}

/// Parses the bytes of a wall-clock time, exactly as `parse_hhmm_spec`
/// describes: `H:MM`, `HH:M`, and the like, giving seconds from
/// midnight.
pub fn parse_hhmm(s: &[u8]) -> (r: Option<u64>)
    ensures
        r == parse_hhmm_spec(s@),
{
    let n = s.len();
    let colon: usize = if n >= 2 && s[1] == 58 {
        1
    } else if n >= 3 && s[2] == 58 {
        2
    } else {
        return None;
    };
    let ghost hd = s@.take(colon as int);
    let ghost md = s@.skip(colon as int + 1);
    proof {
        assert(hd =~= s@.subrange(0, colon as int));
        assert(md =~= s@.subrange(colon as int + 1, s@.len() as int));
    }
    if n - colon - 1 < 1 || n - colon - 1 > 2 {
        return None;
    }
    let h = match read_digit_group(s, 0, colon) {
        Some(v) => v,
        None => {
            return None;
        },
    };
    let m = match read_digit_group(s, colon + 1, n) {
        Some(v) => v,
        None => {
            return None;
        },
    };
    if h >= 24 || m >= 60 {
        return None;
    }
    Some(h * 3600 + m * 60)
}

} // verus!
