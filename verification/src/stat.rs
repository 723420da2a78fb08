//! What the counters of a volume say of its space and its inodes.
use vstd::prelude::*;

verus! {

/// Summary statistics of a volume.
#[derive(Debug, Clone, Copy, PartialEq, Eq, Structural)]
pub struct FSStates {
    pub total_space: u64,
    pub avail_space: u64,
    pub used_inodes: u64,
    pub available_inodes: u64,
}

/// The counters that the metadata service keeps of a volume.
#[derive(Debug, Clone, Copy, PartialEq, Eq, Structural)]
pub enum Counter {
    UsedSpace,
    TotalInodes,
}

/// What the engine remembers of the counters: their last known values,
/// and what this client has added since.
#[derive(Debug, Clone, Copy, PartialEq, Eq, Structural)]
pub struct FSStatesInner {
    pub used_space: i64,
    pub used_inodes: i64,
    pub new_space: i64,
    pub new_inodes: i64,
}

/// The limits that a volume was formatted with; zero stands for no limit.
#[derive(Debug, Clone, Copy, PartialEq, Eq, Structural)]
pub struct Format {
    pub capacity: u64,
    pub inodes: u64,
}

/// What reading the two counters brought within the time allowed.
#[derive(Debug, Clone, Copy, PartialEq, Eq, Structural)]
pub enum CounterRead {
    /// The time ran out.
    TimedOut,
    /// Both reads ended, each with a value or with an error.
    Answered { used_space: Option<i64>, total_inodes: Option<i64> },
}

/// The size reported for a volume without capacity limit that holds
/// `used` bytes: `v`, doubled until the bytes used are at most four fifths
/// of it, or until it can be doubled no more.
pub open spec fn fit_space(v: int, used: int) -> int
    decreases 0x1_0000_0000_0000_0000 - v,
{
    if 0 < v <= 0x4000_0000_0000_0000 && v * 8 < used * 10 {
        fit_space(2 * v, used)
    } else {
        v
    }
}

/// The number of free inodes reported for a volume without inode limit
/// that holds `used` inodes: `free`, doubled until the inodes used are at
/// most four fifths of all, or until it can be doubled no more.
pub open spec fn fit_inodes(free: int, used: int) -> int
    decreases 0x1_0000_0000_0000_0000 - free,
{
    if 0 < free <= 0x4000_0000_0000_0000 && used * 10 > (used + free) * 8 {
        fit_inodes(2 * free, used)
    } else {
        free
    }
}

/// `a + b`, but at least zero.
pub open spec fn plus_not_negative(a: i64, b: i64) -> int {
    if a + b < 0 {
        0
    } else {
        a + b
    }
}

/// The statistics of a volume, from what reading its counters brought,
/// what the engine remembers and what the volume was formatted with. A
/// counter that was not read is taken as remembered.
pub open spec fn root_fs_states(read: CounterRead, cached: FSStatesInner, format: Format) -> FSStates {
    let used0 = match read {
        CounterRead::Answered { used_space: Some(v), .. } => v,
        _ => cached.used_space,
    };
    let inodes0 = match read {
        CounterRead::Answered { total_inodes: Some(v), .. } => v,
        _ => cached.used_inodes,
    };
    let used = plus_not_negative(used0, cached.new_space);
    let iused = plus_not_negative(inodes0, cached.new_inodes);
    let total = if format.capacity > 0 {
        if format.capacity <= used {
            format.capacity as int
        } else {
            used
        }
    } else {
        fit_space(0x4_0000_0000_0000, used)
    };
    FSStates {
        total_space: total as u64,
        avail_space: if total >= used {
            (total - used) as u64
        } else {
            0
        },
        used_inodes: iused as u64,
        available_inodes: if format.inodes > 0 {
            if iused > format.inodes {
                0
            } else {
                (format.inodes - iused) as u64
            }
        } else {
            fit_inodes(0xA0_0000, iused) as u64
        },
    }
}

/// Whether both counters were read.
pub open spec fn read_in_full(read: CounterRead) -> bool {
    read matches CounterRead::Answered { used_space: Some(_), total_inodes: Some(_) }
}

fn add_not_negative(a: i64, b: i64) -> (sum: u64)
    ensures
        sum == plus_not_negative(a, b),
{
    let s: i128 = a as i128 + b as i128;
    if s < 0 {
        0
    } else {
        s as u64
    }
}

/// Computes the statistics of a volume and says whether both counters were
/// read.
pub fn stat_root_fs(read: CounterRead, cached: &FSStatesInner, format: &Format) -> (out: (
    FSStates,
    bool,
))
    ensures
        out.0 == root_fs_states(read, *cached, *format),
        out.1 == read_in_full(read),
{
    let (used0, inodes0, no_error): (i64, i64, bool) = match read {
        CounterRead::TimedOut => (cached.used_space, cached.used_inodes, false),
        CounterRead::Answered { used_space, total_inodes } => {
            let both: bool = used_space.is_some() && total_inodes.is_some();
            let u: i64 = match used_space {
                Some(v) => v,
                None => cached.used_space,
            };
            let i: i64 = match total_inodes {
                Some(v) => v,
                None => cached.used_inodes,
            };
            (u, i, both)
        },
    };
    let used: u64 = add_not_negative(used0, cached.new_space);
    let iused: u64 = add_not_negative(inodes0, cached.new_inodes);
    let total_space: u64 = if format.capacity > 0 {
        if format.capacity <= used {
            format.capacity
        } else {
            used
        }
    } else {
        let mut v: u64 = 0x4_0000_0000_0000;
        while v <= 0x4000_0000_0000_0000 && (v as u128) * 8 < (used as u128) * 10
            invariant
                0 < v <= 0x8000_0000_0000_0000,
                fit_space(0x4_0000_0000_0000, used as int) == fit_space(v as int, used as int),
            decreases 0x1_0000_0000_0000_0000 - v,
        {
            v = v * 2;
        }
        v
    };
    let avail_space: u64 = if total_space >= used {
        total_space - used
    } else {
        0
    };
    let available_inodes: u64 = if format.inodes > 0 {
        if iused > format.inodes {
            0
        } else {
            format.inodes - iused
        }
    } else {
        let mut free: u64 = 0xA0_0000;
        while free <= 0x4000_0000_0000_0000 && (iused as u128) * 10 > (iused as u128 + free as u128)
            * 8
            invariant
                0 < free <= 0x8000_0000_0000_0000,
                fit_inodes(0xA0_0000, iused as int) == fit_inodes(free as int, iused as int),
            decreases 0x1_0000_0000_0000_0000 - free,
        {
            free = free * 2;
        }
        free
    };
    (FSStates { total_space, avail_space, used_inodes: iused, available_inodes }, no_error)
}

/// The value of the bytes `b` as a number written with the least
/// significant byte first.
pub open spec fn le_value(b: Seq<u8>) -> int
    decreases b.len(),
{
    if b.len() == 0 {
        0
    } else {
        b[0] + 256 * le_value(b.skip(1))
    }
}

/// The counter that the first eight bytes of `b` encode: a 64-bit number
/// in two's complement, least significant byte first.
pub open spec fn counter_of(b: Seq<u8>) -> int {
    let u = le_value(b.take(8));
    if u >= 0x8000_0000_0000_0000 {
        u - 0x1_0000_0000_0000_0000
    } else {
        u
    }
}

/// `bincode::deserialize` for an `i64`: the number that the first eight
/// bytes encode, least significant byte first; bytes behind them are
/// ignored, and fewer than eight bytes are an error.
#[verifier::external_body]
fn bincode_i64(buf: &[u8]) -> (v: Option<i64>)
    ensures
        v is Some <==> buf@.len() >= 8,
        v matches Some(n) ==> n == counter_of(buf@),
{
    bincode::deserialize::<i64>(buf).ok()
}

/// Reads a counter from the bytes that the metadata service stores for it.
pub fn decode_counter(buf: &[u8]) -> (res: Result<i64, crate::meta::MetaError>)
    ensures
        res is Ok <==> buf@.len() >= 8,
        res matches Ok(n) ==> n == counter_of(buf@),
        res is Err ==> res->Err_0 == crate::meta::MetaError::ErrBincodeDeserializeFailed,
{
    match bincode_i64(buf) {
        Some(n) => Ok(n),
        None => Err(crate::meta::MetaError::ErrBincodeDeserializeFailed),
    }
}

} // verus!
