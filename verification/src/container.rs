//! The decode time of a media segment.
//!
//! A segment is a sequence of boxes: four bytes of length, four bytes of
//! kind, then the body, which may hold boxes in turn. The decode time stands
//! in the `tfdt` box of the first `traf` box of the first `moof` box.

use vstd::prelude::*;

verus! {

/// The number that the four bytes from `at` on spell, most significant
/// byte first.
pub open spec fn be32(bytes: Seq<u8>, at: int) -> int {
    ((bytes[at] * 256 + bytes[at + 1]) * 256 + bytes[at + 2]) * 256 + bytes[at + 3]
}

/// The number that the eight bytes from `at` on spell, most significant
/// byte first.
pub open spec fn be64(bytes: Seq<u8>, at: int) -> int {
    be32(bytes, at) * 0x1_0000_0000 + be32(bytes, at + 4)
}

/// The body of the box that starts at `at` and must end by `end`: where the
/// body starts and where the box ends. A length of 1 says that the real
/// length follows the kind, in eight bytes; a length of 0, that the box
/// runs to `end`. None where the header does not fit or the length is less
/// than the header or more than there is room.
pub open spec fn box_at(bytes: Seq<u8>, at: int, end: int) -> Option<(int, int)> {
    if at < 0 || end > bytes.len() || at + 8 > end {
        None
    } else if be32(bytes, at) == 1 {
        if at + 16 > end || be64(bytes, at + 8) < 16 || at + be64(bytes, at + 8) > end {
            None
        } else {
            Some((at + 16, at + be64(bytes, at + 8)))
        }
    } else if be32(bytes, at) == 0 {
        Some((at + 8, end))
    } else if be32(bytes, at) < 8 || at + be32(bytes, at) > end {
        None
    } else {
        Some((at + 8, at + be32(bytes, at)))
    }
}

/// The body of the first box of kind `kind` among the boxes that lie one
/// after the other from `at` to `end`.
pub open spec fn find_box(bytes: Seq<u8>, kind: Seq<u8>, at: int, end: int) -> Option<(int, int)>
    decreases end - at,
{
    match box_at(bytes, at, end) {
        None => None,
        Some((body, stop)) => if bytes.subrange(at + 4, at + 8) == kind {
            Some((body, stop))
        } else {
            find_box(bytes, kind, stop, end)
        },
    }
}

/// The kind of the movie fragment box.
pub open spec fn moof() -> Seq<u8> {
    seq![0x6du8, 0x6fu8, 0x6fu8, 0x66u8]
}

/// The kind of the track fragment box.
pub open spec fn traf() -> Seq<u8> {
    seq![0x74u8, 0x72u8, 0x61u8, 0x66u8]
}

/// The kind of the box with the decode time of a track fragment.
pub open spec fn tfdt() -> Seq<u8> {
    seq![0x74u8, 0x66u8, 0x64u8, 0x74u8]
}

/// The time that a `tfdt` body from `body` to `stop` holds: after one byte
/// of version and three of flags, four bytes in version 0 and eight in
/// version 1.
pub open spec fn time_in(bytes: Seq<u8>, body: int, stop: int) -> Option<int> {
    if body + 4 > stop {
        None
    } else if bytes[body] == 0 && body + 8 <= stop {
        Some(be32(bytes, body + 4))
    } else if bytes[body] == 1 && body + 12 <= stop {
        Some(be64(bytes, body + 4))
    } else {
        None
    }
}

/// The decode time of the segment `bytes`, if it holds one.
pub open spec fn decode_time_of(bytes: Seq<u8>) -> Option<int> {
    match find_box(bytes, moof(), 0, bytes.len() as int) {
        None => None,
        Some((fragment, fragment_end)) => match find_box(bytes, traf(), fragment, fragment_end) {
            None => None,
            Some((track, track_end)) => match find_box(bytes, tfdt(), track, track_end) {
                None => None,
                Some((body, stop)) => time_in(bytes, body, stop),
            },
        },
    }
}

/// Reads four bytes as a number.
fn read32(bytes: &[u8], at: usize) -> (value: u64)
    requires
        at + 4 <= bytes@.len() <= usize::MAX,
    ensures
        value == be32(bytes@, at as int),
        value < 0x1_0000_0000,
{
    let b0 = bytes[at] as u64;
    let b1 = bytes[at + 1] as u64;
    let b2 = bytes[at + 2] as u64;
    let b3 = bytes[at + 3] as u64;
    ((b0 * 256 + b1) * 256 + b2) * 256 + b3
}

/// Reads eight bytes as a number.
fn read64(bytes: &[u8], at: usize) -> (value: u64)
    requires
        at + 8 <= bytes@.len() <= usize::MAX,
    ensures
        value == be64(bytes@, at as int),
{
    let high = read32(bytes, at);
    let low = read32(bytes, at + 4);
    high * 0x1_0000_0000 + low
}

/// Reads the header of the box at `at`.
fn header(bytes: &[u8], at: usize, end: usize) -> (found: Option<(usize, usize)>)
    requires
        at <= end <= bytes@.len() <= usize::MAX,
    ensures
        match found {
            Some((body, stop)) => box_at(bytes@, at as int, end as int) == Some(
                (body as int, stop as int),
            ) && at < body <= stop <= end,
            None => box_at(bytes@, at as int, end as int) is None,
        },
{
    if end - at < 8 {
        return None;
    }
    let length = read32(bytes, at);
    let room = (end - at) as u64;
    if length == 1 {
        if room < 16 {
            return None;
        }
        let long = read64(bytes, at + 8);
        if long < 16 || long > room {
            None
        } else {
            Some((at + 16, at + long as usize))
        }
    } else if length == 0 {
        Some((at + 8, end))
    } else if length < 8 || length > room {
        None
    } else {
        Some((at + 8, at + length as usize))
    }
}

/// Whether the kind of the box at `at` is `kind`.
fn is_kind(bytes: &[u8], at: usize, kind: &[u8; 4]) -> (same: bool)
    requires
        at + 8 <= bytes@.len() <= usize::MAX,
    ensures
        same == (bytes@.subrange(at + 4, at + 8) == kind@),
{
    let same = bytes[at + 4] == kind[0] && bytes[at + 5] == kind[1] && bytes[at + 6] == kind[2]
        && bytes[at + 7] == kind[3];
    proof {
        let part = bytes@.subrange(at + 4, at + 8);
        if same {
            assert(part =~= kind@);
        } else {
            assert(part[0] == bytes@[at + 4] && part[1] == bytes@[at + 5] && part[2] == bytes@[at
                + 6] && part[3] == bytes@[at + 7]);
        }
    }
    same
}

/// Looks for the first box of kind `kind` from `at` to `end`.
fn find(bytes: &[u8], kind: &[u8; 4], at: usize, end: usize) -> (found: Option<(usize, usize)>)
    requires
        at <= end <= bytes@.len() <= usize::MAX,
    ensures
        match found {
            Some((body, stop)) => find_box(bytes@, kind@, at as int, end as int) == Some(
                (body as int, stop as int),
            ) && at < body <= stop <= end,
            None => find_box(bytes@, kind@, at as int, end as int) is None,
        },
{
    let mut next = at;
    loop
        invariant
            at <= next <= end <= bytes@.len() <= usize::MAX,
            find_box(bytes@, kind@, next as int, end as int) == find_box(
                bytes@,
                kind@,
                at as int,
                end as int,
            ),
        decreases end - next,
    {
        match header(bytes, next, end) {
            None => {
                return None;
            },
            Some((body, stop)) => {
                if is_kind(bytes, next, kind) {
                    return Some((body, stop));
                }
                next = stop;
            },
        }
    }
}

/// The decode time of the segment `bytes`, if it holds one.
pub fn decode_time(bytes: &[u8]) -> (time: Option<u64>)
    ensures
        match time {
            Some(t) => decode_time_of(bytes@) == Some(t as int),
            None => decode_time_of(bytes@) is None,
        },
{
    let moof_kind: [u8; 4] = [0x6d, 0x6f, 0x6f, 0x66];
    let traf_kind: [u8; 4] = [0x74, 0x72, 0x61, 0x66];
    let tfdt_kind: [u8; 4] = [0x74, 0x66, 0x64, 0x74];
    proof {
        assert(moof_kind@ =~= moof());
        assert(traf_kind@ =~= traf());
        assert(tfdt_kind@ =~= tfdt());
    }
    let (fragment, fragment_end) = match find(bytes, &moof_kind, 0, bytes.len()) {
        Some(found) => found,
        None => {
            return None;
        },
    };
    let (track, track_end) = match find(bytes, &traf_kind, fragment, fragment_end) {
        Some(found) => found,
        None => {
            return None;
        },
    };
    let (body, stop) = match find(bytes, &tfdt_kind, track, track_end) {
        Some(found) => found,
        None => {
            return None;
        },
    };
    if stop - body < 4 {
        None
    } else if bytes[body] == 0 && stop - body >= 8 {
        Some(read32(bytes, body + 4))
    } else if bytes[body] == 1 && stop - body >= 12 {
        Some(read64(bytes, body + 4))
    } else {
        None
    }
}

} // verus!
