use vstd::prelude::*;

use crate::buffer::{BufAdd, StrBuf, TagBuf, VecBuf};
use crate::calendar::{tick_of, week_adjusted, CalendarTimestamp, EPOCH_YEAR, MAX_TAG_YEAR};
use crate::calendar::{december_week_earlier, iso_week_of, month_len, weekday_of};
use crate::codec::{alphabet54, base_x, encode54, lemma_base54_wf, lemma_encode54, render54, BASE54};
use crate::errors::TagError;

verus! {

/// Upper bound (exclusive) of the random collision-reduction suffix:
/// three base-54 digits.
pub const RAND_RANGE: u32 = 54 * 54 * 54;

/// The three bounded integers a timestamp decomposes into: the year
/// offset from the epoch, the corrected ISO week, and the sub-week tick.
#[derive(Clone, Copy, PartialEq, Eq, Structural, Debug)]
pub struct TagComponents {
    pub year: u32,
    pub week: u32,
    pub tick: u32,
}

/// The byte string of a whole tag: the three components rendered in
/// base 54 and concatenated, year first.
pub open spec fn tag_bytes(yo: int, w: int, t: int) -> Seq<u8> {
    render54(yo, alphabet54()) + render54(w, alphabet54()) + render54(t, alphabet54())
}

/// The tag bytes of a timestamp.
pub open spec fn tag_bytes_of(ts: CalendarTimestamp) -> Seq<u8> {
    tag_bytes(ts.year - EPOCH_YEAR, week_adjusted(ts), tick_of(ts))
}

/// ASCII bytes read as characters, one each.
pub open spec fn ascii_chars(bs: Seq<u8>) -> Seq<char> {
    bs.map(|i: int, b: u8| b as char)
}

/// Computes the three tag components of a timestamp.  Fails with
/// `DateConversionError` exactly when the timestamp is not a valid
/// calendar instant between the epoch year and the largest supported
/// year.
pub fn decompose(date: CalendarTimestamp) -> (r: Result<TagComponents, TagError>)
    ensures
        r is Ok <==> date.taggable(),
        !date.taggable() ==> r == Err::<TagComponents, TagError>(TagError::DateConversionError),
        r is Ok ==> ({
            let c = r->Ok_0;
            &&& c.year as int == date.year - EPOCH_YEAR
            &&& c.week as int == week_adjusted(date)
            &&& c.tick as int == tick_of(date)
            &&& c.week <= 54
            &&& c.tick <= 51
        }),
{
    if date.year < EPOCH_YEAR || date.year > MAX_TAG_YEAR {
        return Err(TagError::DateConversionError);
    }
    if date.month < 1 || date.month > 12 {
        return Err(TagError::DateConversionError);
    }
    if date.day < 1 || date.day > month_len(date.year, date.month) {
        return Err(TagError::DateConversionError);
    }
    if date.hour > 23 || date.minute > 59 || date.second > 59 {
        return Err(TagError::DateConversionError);
    }
    let mut week: u32 = iso_week_of(date.year, date.month, date.day);
    if date.month == 1 && week > 51 {
        week = 0;
    }
    if date.month == 12 && week < 2 {
        let (pm, pd) = december_week_earlier(date.year, date.day);
        week = iso_week_of(date.year, pm, pd) + 1;
    }
    let wd: u32 = weekday_of(date.year, date.month, date.day);
    let secs: u32 = wd * 86400 + (date.hour as u32) * 3600 + (date.minute as u32) * 60 + (
    date.second as u32);
    let tick: u32 = secs / crate::calendar::WEEK_TICK;
    Ok(TagComponents { year: (date.year - EPOCH_YEAR) as u32, week, tick })
}

/// Generates the tag of a timestamp into a caller-provided sink: the
/// three components in base 54, year then week then tick, most
/// significant digit first.  A sink of fixed capacity receives the
/// digits that fit and `BufferOverflowError` is returned.
pub fn to_datetag_buf<B: BufAdd>(buf: &mut B, date: CalendarTimestamp) -> (r: Result<
    (),
    TagError,
>)
    ensures
        !date.taggable() ==> r == Err::<(), TagError>(TagError::DateConversionError) && *final(buf)
            == *old(buf),
        date.taggable() ==> ({
            let out = tag_bytes_of(date);
            &&& (r is Ok <==> (old(buf).capacity() is None || old(buf).contents().len()
                + out.len() <= old(buf).capacity()->Some_0))
            &&& (r is Ok ==> final(buf).contents() == old(buf).contents() + out)
            &&& (r is Err ==> r == Err::<(), TagError>(TagError::BufferOverflowError) && old(
                buf,
            ).capacity() is Some && final(buf).contents() == old(buf).contents() + out.take(
                if old(buf).capacity()->Some_0 >= old(buf).contents().len() {
                    old(buf).capacity()->Some_0 - old(buf).contents().len()
                } else {
                    0
                },
            ))
        }),
        final(buf).capacity() == old(buf).capacity(),
{
    let c = match decompose(date) {
        Ok(c) => c,
        Err(e) => {
            return Err(e);
        },
    };
    let ghost a = alphabet54();
    let ghost s1 = render54(c.year as int, a);
    let ghost s2 = render54(c.week as int, a);
    let ghost s3 = render54(c.tick as int, a);
    let ghost out = tag_bytes_of(date);
    let ghost base = old(buf).contents();
    let ghost cap = old(buf).capacity();
    proof {
        assert(out == s1 + s2 + s3);
        lemma_encode54(c.year as int);
        lemma_encode54(c.week as int);
        lemma_encode54(c.tick as int);
    }
    match base_x(buf, c.year as i32, &BASE54) {
        Ok(()) => {},
        Err(e) => {
            proof {
                let room = if cap->Some_0 >= base.len() {
                    cap->Some_0 as int - base.len()
                } else {
                    0
                };
                assert(room <= s1.len());
                assert(s1.take(room) =~= out.take(room));
            }
            return Err(e);
        },
    }
    match base_x(buf, c.week as i32, &BASE54) {
        Ok(()) => {},
        Err(e) => {
            proof {
                let room = if cap->Some_0 >= base.len() {
                    cap->Some_0 as int - base.len()
                } else {
                    0
                };
                let mid = base + s1;
                let room2 = if cap->Some_0 >= mid.len() {
                    cap->Some_0 as int - mid.len()
                } else {
                    0
                };
                assert(room == s1.len() + room2);
                assert(buf.contents() =~= base + s1 + s2.take(room2));
                assert(s1 + s2.take(room2) =~= out.take(room));
                assert(buf.contents() =~= base + out.take(room));
            }
            return Err(e);
        },
    }
    match base_x(buf, c.tick as i32, &BASE54) {
        Ok(()) => {},
        Err(e) => {
            proof {
                let room = if cap->Some_0 >= base.len() {
                    cap->Some_0 as int - base.len()
                } else {
                    0
                };
                let mid = base + s1 + s2;
                let room3 = if cap->Some_0 >= mid.len() {
                    cap->Some_0 as int - mid.len()
                } else {
                    0
                };
                assert(room == s1.len() + s2.len() + room3);
                assert(buf.contents() =~= base + s1 + s2 + s3.take(room3));
                assert(s1 + s2 + s3.take(room3) =~= out.take(room));
                assert(buf.contents() =~= base + out.take(room));
            }
            return Err(e);
        },
    }
    proof {
        assert(buf.contents() =~= base + out);
    }
    Ok(())
}

/// Generates the tag of a timestamp into a fixed `TagBuf`: exactly one
/// digit per component fits, so the tag must have three single-digit
/// components (year offset, week and tick all below 54).
pub fn to_datetag_array(buf: &mut TagBuf, date: CalendarTimestamp) -> (r: Result<(), TagError>)
    ensures
        !date.taggable() ==> r == Err::<(), TagError>(TagError::DateConversionError) && *final(buf)
            == *old(buf),
        date.taggable() ==> ({
            let out = tag_bytes_of(date);
            &&& (r is Ok <==> out.len() <= 3)
            &&& (r is Ok ==> final(buf)@ == out)
            &&& (r is Err ==> r == Err::<(), TagError>(TagError::BufferOverflowError)
                && final(buf)@ == out.take(3))
        }),
{
    let mut sb = StrBuf { offset: 0, buf: *buf };
    proof {
        assert(sb.contents() =~= Seq::<u8>::empty());
    }
    let r = to_datetag_buf(&mut sb, date);
    match r {
        Ok(()) => {
            proof {
                let out = tag_bytes_of(date);
                lemma_tag_bytes_len(date);
                assert(sb.contents() =~= Seq::<u8>::empty() + out);
                assert(sb.contents() == out);
                assert(out.len() == 3);
                assert(sb.offset >= 3);
                assert(sb.buf@ == out);
            }
            *buf = sb.buf;
            Ok(())
        },
        Err(e) => {
            if matches!(e, TagError::BufferOverflowError) {
                proof {
                    let out = tag_bytes_of(date);
                    assert(date.taggable());
                    assert(sb.contents() =~= Seq::<u8>::empty() + out.take(3));
                    assert(sb.contents().len() == 3);
                    assert(sb.offset >= 3);
                    assert(sb.buf@ == out.take(3));
                }
                *buf = sb.buf;
                Err(e)
            } else {
                proof {
                    assert(!date.taggable());
                    assert(sb == StrBuf { offset: 0, buf: *old(buf) });
                }
                Err(e)
            }
        },
    }
}

/// The tag of a taggable timestamp has at least one digit per component.
proof fn lemma_tag_bytes_len(ts: CalendarTimestamp)
    requires
        ts.taggable(),
    ensures
        tag_bytes_of(ts).len() >= 3,
        forall|i: int| 0 <= i < tag_bytes_of(ts).len() ==> #[trigger] tag_bytes_of(ts)[i] < 128,
{
    lemma_base54_wf();
    crate::calendar::lemma_week_adjusted_bounds(ts);
    crate::calendar::lemma_tick_bounds(ts);
    lemma_seg_wf(ts.year - EPOCH_YEAR);
    lemma_seg_wf(week_adjusted(ts));
    lemma_seg_wf(tick_of(ts));
}

/// Each rendered segment of a tag is non-empty and ASCII.
proof fn lemma_seg_wf(n: int)
    requires
        n >= 0,
    ensures
        render54(n, alphabet54()).len() >= 1,
        forall|i: int| 0 <= i < render54(n, alphabet54()).len() ==> #[trigger] render54(
            n,
            alphabet54(),
        )[i] < 128,
{
    lemma_base54_wf();
    lemma_encode54(n);
    let e = encode54(n);
    let s = render54(n, alphabet54());
    assert forall|i: int| 0 <= i < s.len() implies #[trigger] s[i] < 128 by {
        assert(s[i] == alphabet54()[e[i]]);
        assert(0 <= e[i] < 54);
    }
}

/// Relies on `rand::thread_rng` and `rand::Rng::gen_range`: a number
/// drawn below `bound`; nothing is assumed of the draw beyond its range.
#[verifier::external_body]
fn random_below(bound: u32) -> (r: u32)
    requires
        1 <= bound,
    ensures
        r < bound,
{
    let mut rng = rand::thread_rng();
    rand::Rng::gen_range(&mut rng, 0..bound)
}

/// Relies on `String::from_utf8`: bytes below 128 are ASCII, hence valid
/// UTF-8, and decode to one character per byte.
#[verifier::external_body]
fn ascii_to_string(v: &Vec<u8>) -> (s: String)
    requires
        forall|i: int| 0 <= i < v@.len() ==> v@[i] < 128,
    ensures
        s@ == ascii_chars(v@),
{
    String::from_utf8(v.clone()).unwrap()
}

/// Generates the tag of a timestamp as an owned string: the three
/// base-54 components concatenated, year then week then tick, with no
/// separator and no suffix.  Fails with `DateConversionError` exactly
/// when the timestamp is not taggable.
pub fn to_datetag_string(date: CalendarTimestamp) -> (r: Result<String, TagError>)
    ensures
        r is Ok <==> date.taggable(),
        !date.taggable() ==> r == Err::<String, TagError>(TagError::DateConversionError),
        r is Ok ==> (r->Ok_0)@ == ascii_chars(tag_bytes_of(date)),
{
    let mut vb = VecBuf::new();
    match to_datetag_buf(&mut vb, date) {
        Ok(()) => {},
        Err(e) => {
            proof {
                assert(!date.taggable());
            }
            return Err(e);
        },
    }
    proof {
        lemma_tag_bytes_len(date);
        assert(vb.contents() =~= tag_bytes_of(date));
    }
    let s = ascii_to_string(vb.bytes());
    Ok(s)
}

/// Generates the full tag string of a timestamp: the three base-54
/// components, a literal `-`, and a random three-digit collision
/// suffix drawn below `RAND_RANGE`.  Fails with `DateConversionError`
/// exactly when the timestamp is not taggable.
pub fn to_tag(date: CalendarTimestamp) -> (r: Result<String, TagError>)
    ensures
        r is Ok <==> date.taggable(),
        !date.taggable() ==> r == Err::<String, TagError>(TagError::DateConversionError),
        r is Ok ==> (exists|nsuf: int|
            0 <= nsuf < RAND_RANGE && (r->Ok_0)@ == ascii_chars(
                tag_bytes_of(date).push(45u8) + render54(nsuf, alphabet54()),
            )),
{
    let mut vb = VecBuf::new();
    match to_datetag_buf(&mut vb, date) {
        Ok(()) => {},
        Err(e) => {
            proof {
                assert(!date.taggable());
            }
            return Err(e);
        },
    }
    // the literal '-' between the date part and the random suffix
    match vb.add(45) {
        Ok(()) => {},
        Err(_) => {
            proof {
                assert(false);
            }
            return Err(TagError::BufferOverflowError);
        },
    }
    let suffix = random_below(RAND_RANGE);
    let ghost mid = vb.contents();
    match base_x(&mut vb, suffix as i32, &BASE54) {
        Ok(()) => {},
        Err(_) => {
            proof {
                assert(false);
            }
            return Err(TagError::BufferOverflowError);
        },
    }
    proof {
        let out = tag_bytes_of(date);
        let suf = render54(suffix as int, alphabet54());
        lemma_tag_bytes_len(date);
        lemma_seg_wf(suffix as int);
        assert(vb.contents() =~= out.push(45u8) + suf);
        assert forall|i: int| 0 <= i < vb.contents().len() implies #[trigger] vb.contents()[i]
            < 128 by {
            let full = out.push(45u8) + suf;
            assert(vb.contents()[i] == full[i]);
            if i < out.len() {
                assert(full[i] == out[i]);
            } else if i == out.len() {
                assert(full[i] == 45u8);
            } else {
                assert(full[i] == suf[i - out.len() - 1]);
            }
        }
    }
    let s = ascii_to_string(vb.bytes());
    proof {
        let witness = suffix as int;
        assert(0 <= witness < RAND_RANGE && s@ == ascii_chars(
            tag_bytes_of(date).push(45u8) + render54(witness, alphabet54()),
        ));
    }
    Ok(s)
}

} // verus!

