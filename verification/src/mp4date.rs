//! The date of a video of the MP4/QuickTime family: the creation time in
//! the `mvhd` atom inside the `moov` atom, counted in seconds from
//! 1 January 1904, UTC.
//!
//! Reading the file is the caller's: it walks the atoms from offset 0 to
//! the size of the file, reading each 8-byte header (and the 8 bytes that
//! follow when the atom has a 64-bit size), and `scan_atom` says where the
//! walk goes next. Once `moov` is found, the same walk runs over its
//! contents, looking for `mvhd`, whose 12 first bytes `mvhd_seconds` reads.
use vstd::prelude::*;
use crate::stamp::{Stamp, plausible, is_plausible, within_a_day, lemma_within_a_day_year};
use crate::timing::{utc_of_instant, local_of_instant};

verus! {

/// The number written in big-endian bytes.
pub open spec fn be_value(b: Seq<u8>) -> nat
    decreases b.len(),
{
    if b.len() == 0 {
        0
    } else {
        be_value(b.drop_last()) * 256 + b.last() as nat
    }
}

pub open spec fn pow256(n: nat) -> nat
    decreases n,
{
    if n == 0 {
        1
    } else {
        256 * pow256((n - 1) as nat)
    }
}

pub proof fn lemma_be_value_bound(b: Seq<u8>)
    ensures
        be_value(b) < pow256(b.len()),
    decreases b.len(),
{
    if b.len() > 0 {
        lemma_be_value_bound(b.drop_last());
        let v = be_value(b.drop_last());
        let p = pow256(b.drop_last().len());
        assert(v * 256 + (b.last() as nat) < 256 * p) by (nonlinear_arith)
            requires
                v < p,
                b.last() < 256,
        ;
    }
}

/// The value of big-endian bytes `b[a..a + n]`, for up to 8 bytes.
fn be_read(b: &[u8], a: usize, n: usize) -> (r: u64)
    requires
        n <= 8,
        a + n <= b.len(),
    ensures
        r == be_value(b@.subrange(a as int, (a + n) as int)),
{
    let mut v: u64 = 0;
    let mut i: usize = 0;
    while i < n
        invariant
            n <= 8,
            a + n <= b.len(),
            i <= n,
            v == be_value(b@.subrange(a as int, (a + i) as int)),
        decreases n - i,
    {
        let ghost pre = b@.subrange(a as int, (a + i) as int);
        let ghost next = b@.subrange(a as int, (a + i + 1) as int);
        assert(next.drop_last() =~= pre);
        proof {
            lemma_be_value_bound(pre);
            assert(pow256(pre.len()) <= 0x100_0000_0000_0000) by {
                assert(pre.len() <= 7);
                lemma_pow256_8();
                lemma_pow256_monotone(pre.len(), 7);
            }
        }
        v = v * 256 + b[a + i] as u64;
        i = i + 1;
    }
    v
}

proof fn lemma_pow256_8()
    ensures
        pow256(7) == 0x100_0000_0000_0000,
        pow256(8) == 0x1_0000_0000_0000_0000,
{
    reveal_with_fuel(pow256, 9);
}

proof fn lemma_pow256_monotone(a: nat, b: nat)
    requires
        a <= b,
    ensures
        pow256(a) <= pow256(b),
    decreases b,
{
    if a < b {
        lemma_pow256_monotone(a, (b - 1) as nat);
    }
}

/// Where the walk over the atoms goes after reading a header.
#[derive(Clone, Copy, Debug, PartialEq, Eq, Structural)]
pub enum AtomStep {
    /// The atom sought: its offset, the size of its header, its size.
    Found { off: u64, header: u64, len: u64 },
    /// Another atom: the walk goes on at this offset.
    Next(u64),
    /// The atom has a 64-bit size: the 8 bytes after the header are needed.
    NeedLarge,
    /// The sizes do not make sense: the date cannot be read.
    Invalid,
}

/// Does the walk read a header at `off`, within `end`?
pub open spec fn walk_goes_on(off: u64, end: u64) -> bool {
    off + 8 <= end
}

pub fn walk_continues(off: u64, end: u64) -> (r: bool)
    ensures
        r == walk_goes_on(off, end),
{
    off <= end && end - off >= 8
}

/// What follows the header `head` (8 bytes) of the atom at `off`, before
/// `end`, when looking for the atom of type `atom`; `large` is the 64-bit
/// size, once read. A 32-bit size of 1 announces a 64-bit size, a size of
/// 0 means "up to the end".
pub open spec fn atom_step(off: u64, end: u64, head: Seq<u8>, large: Option<Seq<u8>>, atom: Seq<u8>) -> AtomStep {
    let small = be_value(head.subrange(0, 4));
    if small == 1 && large is None {
        AtomStep::NeedLarge
    } else {
        let (len, hs): (int, int) = if small == 1 {
            (be_value(large->0) as int, 16)
        } else if small == 0 {
            (end - off, 8)
        } else {
            (small as int, 8)
        };
        if len < hs {
            AtomStep::Invalid
        } else if head.subrange(4, 8) == atom {
            AtomStep::Found { off, header: hs as u64, len: len as u64 }
        } else if off + len <= u64::MAX {
            AtomStep::Next((off + len) as u64)
        } else {
            AtomStep::Invalid
        }
    }
}

/// Reads an atom header during the walk.
pub fn scan_atom(off: u64, end: u64, head: &[u8], large: Option<&[u8]>, atom: &[u8]) -> (r: AtomStep)
    requires
        off + 8 <= end,
        head.len() == 8,
        large matches Some(l) ==> l.len() == 8,
        atom.len() == 4,
    ensures
        r == atom_step(off, end, head@, match large {
            Some(l) => Some(l@),
            None => None,
        }, atom@),
{
    let small = be_read(head, 0, 4);
    if small == 1 && large.is_none() {
        return AtomStep::NeedLarge;
    }
    let (len, hs): (u64, u64) = if small == 1 {
        match large {
            Some(l) => {
                let v = be_read(l, 0, 8);
                assert(l@.subrange(0, 8) =~= l@);
                proof {
                    lemma_be_value_bound(l@);
                    lemma_pow256_8();
                }
                (v, 16)
            },
            None => (0, 16),
        }
    } else if small == 0 {
        (end - off, 8)
    } else {
        (small, 8)
    };
    if len < hs {
        return AtomStep::Invalid;
    }
    let same = head[4] == atom[0] && head[5] == atom[1] && head[6] == atom[2] && head[7] == atom[3];
    proof {
        if same {
            assert(head@.subrange(4, 8) =~= atom@);
        } else {
            if head@.subrange(4, 8) == atom@ {
                assert(head@[4] == head@.subrange(4, 8)[0]);
                assert(head@[5] == head@.subrange(4, 8)[1]);
                assert(head@[6] == head@.subrange(4, 8)[2]);
                assert(head@[7] == head@.subrange(4, 8)[3]);
            }
        }
    }
    if same {
        AtomStep::Found { off, header: hs, len }
    } else {
        match off.checked_add(len) {
            Some(next) => AtomStep::Next(next),
            None => AtomStep::Invalid,
        }
    }
}

/// The part of the file inside an atom found: from the end of its header
/// to its end, when those offsets can be written.
pub open spec fn atom_contents(off: u64, header: u64, len: u64) -> Option<(u64, u64)> {
    if off + len <= u64::MAX && off + header <= u64::MAX {
        Some(((off + header) as u64, (off + len) as u64))
    } else {
        None
    }
}

pub fn contents_of_atom(off: u64, header: u64, len: u64) -> (r: Option<(u64, u64)>)
    ensures
        r == atom_contents(off, header, len),
{
    match (off.checked_add(header), off.checked_add(len)) {
        (Some(a), Some(b)) => Some((a, b)),
        _ => None,
    }
}

/// The creation time written at the start of the `mvhd` atom's contents:
/// a version byte, 3 bytes of flags, then 8 bytes (version 1) or 4 bytes.
/// Zero means "not set".
pub open spec fn mvhd_creation(b: Seq<u8>) -> Option<u64> {
    let secs = if b[0] == 1 {
        be_value(b.subrange(4, 12))
    } else {
        be_value(b.subrange(4, 8))
    };
    if secs == 0 {
        None
    } else {
        Some(secs as u64)
    }
}

/// Reads the creation time from the first 12 bytes of the `mvhd` contents.
pub fn mvhd_seconds(b: &[u8]) -> (r: Option<u64>)
    requires
        b.len() == 12,
    ensures
        r == mvhd_creation(b@),
{
    let secs = if b[0] == 1 {
        proof {
            lemma_be_value_bound(b@.subrange(4, 12));
            lemma_pow256_8();
        }
        be_read(b, 4, 8)
    } else {
        be_read(b, 4, 4)
    };
    if secs == 0 {
        None
    } else {
        Some(secs)
    }
}

/// Seconds from 1904 beyond which a date would lie past year 200 000:
/// such a date is never plausible, and the date library gives up (or
/// panics) on some of them.
pub open spec fn far_future(secs: u64) -> bool {
    secs >= 6_000_000_000_000
}

/// Seconds from 1 January 1904 to 1 January 1970, both at 00:00 UTC
/// (24 107 days).
pub const QUICKTIME_EPOCH_OFFSET: i64 = 2_082_844_800;

/// The date and time in UTC `secs` seconds after 1 January 1904, 00:00 UTC
/// (the calendar counts no leap seconds).
pub open spec fn quicktime_utc(secs: u64) -> Stamp {
    utc_of_instant((secs - QUICKTIME_EPOCH_OFFSET) as i64, 0)
}

/// The local date and time `secs` seconds after 1 January 1904, 00:00 UTC:
/// the same instant counted from 1970.
fn quicktime_local(secs: u64) -> (r: Option<Stamp>)
    requires
        !far_future(secs),
    ensures
        r is Some,
        r matches Some(s) ==> s.wf() && s.nano == 0 && within_a_day(s, quicktime_utc(secs)),
{
    let unix: i64 = secs as i64 - QUICKTIME_EPOCH_OFFSET;
    local_of_instant(unix, 0)
}

/// The date of the video from the local date and time of its creation:
/// kept when plausible.
pub fn mp4_date_from_local(local: Option<Stamp>) -> (r: Option<Stamp>)
    ensures
        r == match local {
            Some(s) => if plausible(s) { Some(s) } else { None },
            None => None,
        },
{
    match local {
        Some(s) => if is_plausible(&s) { Some(s) } else { None },
        None => None,
    }
}

/// `mp4_creation_time`, once the seconds are read: the local date and time
/// of the creation, when plausible. Nothing comes back for a far-future
/// count; what comes back is plausible and within a day of the creation
/// time in UTC; and a date comes back whenever the creation time in UTC
/// falls between 1981 and 2198, whatever the time zone.
pub fn mp4_creation_time(secs: u64) -> (r: Option<Stamp>)
    ensures
        far_future(secs) ==> r is None,
        r matches Some(s) ==> plausible(s) && s.wf() && within_a_day(s, quicktime_utc(secs)),
        !far_future(secs) && 1981 <= quicktime_utc(secs).year <= 2198 ==> r is Some,
{
    if secs >= 6_000_000_000_000 {
        return None;
    }
    let local = quicktime_local(secs);
    proof {
        if 1981 <= quicktime_utc(secs).year <= 2198 {
            lemma_within_a_day_year(local->0, quicktime_utc(secs));
        }
    }
    mp4_date_from_local(local)
}

} // verus!
