//! Data blocks, and the directory entries they hold.
use vstd::prelude::*;

use crate::le::{
    le_bytes, le_value, lemma_le_round_trip, lemma_le_value_bound, lemma_pow256_values, read_le,
};
use crate::text::{
    calendar_text, decimal_chars, format_calendar, lossy_text, push_decimal, push_str, string_of,
    utf8_lossy,
};
use vstd::slice::slice_subrange;

verus! {

/// The size of a directory entry record in bytes.
pub const DENTRY_SIZE: usize = 64;

/// The last modification time, in milliseconds since the Unix epoch, that is shown
/// as a calendar date (9999-12-31 23:59:59 UTC); later values are shown as invalid.
pub const MTIME_LIMIT: u64 = 253402300799000;

/// How the raw view shows byte `b`: itself when it lies in `32..=176`, else `.`.
pub open spec fn raw_char(b: u8) -> char {
    if b < 32 || b > 176 {
        '.'
    } else {
        b as char
    }
}

/// The bytes of one data block.
pub struct Block {
    pub data: Vec<u8>,
}

/// A directory entry: a 64-byte record.
pub struct Dentry {
    /// The file name, padded.
    pub name: [u8; 32],
    /// The size of the file in bytes.
    pub size: u32,
    /// The first block of the file.
    pub first_block: u16,
    /// The type of the file (0 = file, 1 = directory, 2 = symlink by convention).
    pub type_: u8,
    /// The permission bits.
    pub perm: u8,
    /// The modification time in milliseconds since the Unix epoch.
    pub mtime: u64,
    /// Reserved bytes, carried as they are.
    pub _reserved: [u8; 16],
}

/// Whether the 64-byte record `r` holds the fields of `d`.
pub open spec fn decodes_to(r: Seq<u8>, d: Dentry) -> bool {
    &&& r.len() == 64
    &&& d.name@ == r.subrange(0, 32)
    &&& d.size as nat == le_value(r.subrange(32, 36))
    &&& d.first_block as nat == le_value(r.subrange(36, 38))
    &&& d.type_ == r[38]
    &&& d.perm == r[39]
    &&& d.mtime as nat == le_value(r.subrange(40, 48))
    &&& d._reserved@ == r.subrange(48, 64)
}

/// The 64-byte record that holds the fields of `d`.
pub open spec fn record_of(d: Dentry) -> Seq<u8> {
    d.name@ + le_bytes(d.size as nat, 4) + le_bytes(d.first_block as nat, 2) + seq![
        d.type_,
        d.perm,
    ] + le_bytes(d.mtime as nat, 8) + d._reserved@
}

/// Whether a modification time is shown as a calendar date.
pub open spec fn mtime_valid(mtime: u64) -> bool {
    mtime <= MTIME_LIMIT
}

/// How a modification time is shown.
pub open spec fn mtime_display(mtime: u64) -> Seq<char> {
    if mtime_valid(mtime) {
        calendar_text(mtime as int)
    } else {
        "invalid"@
    }
}

/// The line that describes a directory entry whose name reads `name` and whose
/// modification time reads `time`.
pub open spec fn dentry_line_with(d: Dentry, name: Seq<char>, time: Seq<char>) -> Seq<char> {
    "name: "@ + name + ", size: "@ + decimal_chars(d.size as nat) + ", first_block: "@
        + decimal_chars(d.first_block as nat) + ", type: "@ + decimal_chars(d.type_ as nat)
        + ", perm: "@ + decimal_chars(d.perm as nat) + ", mtime: "@ + time + ","@
}

/// The line that describes a directory entry.
pub open spec fn dentry_line(d: Dentry) -> Seq<char> {
    dentry_line_with(d, lossy_text(d.name@), mtime_display(d.mtime))
}

/// Encoding a directory entry as a record and decoding that record gives the entry
/// back, field by field.
pub proof fn lemma_record_round_trip(d: Dentry)
    ensures
        decodes_to(record_of(d), d),
{
    lemma_pow256_values();
    lemma_le_round_trip(d.size as nat, 4);
    lemma_le_round_trip(d.first_block as nat, 2);
    lemma_le_round_trip(d.mtime as nat, 8);
    let r = record_of(d);
    assert(r.subrange(0, 32) =~= d.name@);
    assert(r.subrange(32, 36) =~= le_bytes(d.size as nat, 4));
    assert(r.subrange(36, 38) =~= le_bytes(d.first_block as nat, 2));
    assert(r.subrange(40, 48) =~= le_bytes(d.mtime as nat, 8));
    assert(r.subrange(48, 64) =~= d._reserved@);
}

impl Dentry {
    /// Decodes the directory entry held in the first 64 bytes of `record`.
    pub fn parse(record: &[u8]) -> (r: Dentry)
        requires
            record@.len() >= 64,
        ensures
            decodes_to(record@.subrange(0, 64), r),
    {
        let mut name: [u8; 32] = [0u8; 32];
        let mut i: usize = 0;
        while i < 32
            invariant
                i <= 32,
                record@.len() >= 64,
                forall|j: int| 0 <= j < i ==> name@[j] == record@[j],
            decreases 32 - i,
        {
            name[i] = record[i];
            i = i + 1;
        }
        let mut reserved: [u8; 16] = [0u8; 16];
        let mut k: usize = 0;
        while k < 16
            invariant
                k <= 16,
                record@.len() >= 64,
                forall|j: int| 0 <= j < k ==> reserved@[j] == record@[48 + j],
            decreases 16 - k,
        {
            reserved[k] = record[48 + k];
            k = k + 1;
        }
        let size = read_le(record, 32, 4);
        let first_block = read_le(record, 36, 2);
        let mtime = read_le(record, 40, 8);
        proof {
            lemma_pow256_values();
            lemma_le_value_bound(record@.subrange(32, 36));
            lemma_le_value_bound(record@.subrange(36, 38));
            let r = record@.subrange(0, 64);
            assert(r.subrange(32, 36) =~= record@.subrange(32, 36));
            assert(r.subrange(36, 38) =~= record@.subrange(36, 38));
            assert(r.subrange(40, 48) =~= record@.subrange(40, 48));
            assert(name@ =~= r.subrange(0, 32));
            assert(reserved@ =~= r.subrange(48, 64));
        }
        Dentry {
            name,
            size: size as u32,
            first_block: first_block as u16,
            type_: record[38],
            perm: record[39],
            mtime,
            _reserved: reserved,
        }
    }

    /// The name decoded as UTF-8, with invalid sequences replaced.
    pub fn name_text(&self) -> (r: String)
        ensures
            r@ == lossy_text(self.name@),
    {
        utf8_lossy(&self.name)
    }

    /// The modification time as `YYYY-MM-DD HH:MM:SS` in UTC, or `invalid` past
    /// the year 9999.
    pub fn mtime_text(&self) -> (r: String)
        ensures
            r@ == mtime_display(self.mtime),
    {
        if self.mtime_is_valid() {
            format_calendar(self.mtime)
        } else {
            "invalid".to_string()
        }
    }

    /// Whether the modification time is shown as a calendar date rather than as
    /// `invalid`.
    pub fn mtime_is_valid(&self) -> (r: bool)
        ensures
            r == mtime_valid(self.mtime),
    {
        self.mtime <= MTIME_LIMIT
    }

    /// The entry as one line of text: its name, size, first block, type, permission
    /// bits and modification time.
    pub fn describe(&self) -> (r: String)
        ensures
            r@ == dentry_line(*self),
    {
        let name = self.name_text();
        let time = self.mtime_text();
        self.describe_with(name.as_str(), time.as_str())
    }

    /// The line of `describe`, with `name` shown for the name and `time` for the
    /// modification time.
    pub fn describe_with(&self, name: &str, time: &str) -> (r: String)
        ensures
            r@ == dentry_line_with(*self, name@, time@),
    {
        let mut out: Vec<char> = Vec::new();
        push_str(&mut out, "name: ");
        push_str(&mut out, name);
        push_str(&mut out, ", size: ");
        push_decimal(&mut out, self.size as u64);
        push_str(&mut out, ", first_block: ");
        push_decimal(&mut out, self.first_block as u64);
        push_str(&mut out, ", type: ");
        push_decimal(&mut out, self.type_ as u64);
        push_str(&mut out, ", perm: ");
        push_decimal(&mut out, self.perm as u64);
        push_str(&mut out, ", mtime: ");
        push_str(&mut out, time);
        push_str(&mut out, ",");
        proof {
            assert(out@ =~= dentry_line_with(*self, name@, time@));
        }
        string_of(out)
    }
}

impl Block {
    /// The block as text, one character per byte: bytes in `32..=176` as
    /// themselves, the others as `.`.
    pub fn as_raw(&self) -> (r: String)
        ensures
            r@ == self.data@.map_values(|b: u8| raw_char(b)),
    {
        let mut chars: Vec<char> = Vec::new();
        let mut i: usize = 0;
        while i < self.data.len()
            invariant
                i <= self.data@.len(),
                chars@ == self.data@.subrange(0, i as int).map_values(|b: u8| raw_char(b)),
            decreases self.data@.len() - i,
        {
            let byte = self.data[i];
            if byte < 32 || byte > 176 {
                chars.push('.');
            } else {
                chars.push(byte as char);
            }
            proof {
                assert(self.data@.subrange(0, i + 1) =~= self.data@.subrange(0, i as int).push(
                    byte,
                ));
            }
            i = i + 1;
            proof {
                assert(chars@ =~= self.data@.subrange(0, i as int).map_values(
                    |b: u8| raw_char(b),
                ));
            }
        }
        proof {
            assert(self.data@.subrange(0, self.data@.len() as int) =~= self.data@);
        }
        string_of(chars)
    }

    /// The directory entries held in the block: one per whole 64-byte record, in
    /// order; a shorter remainder is left out.
    pub fn as_dentries(&self) -> (r: Vec<Dentry>)
        ensures
            r@.len() == self.data@.len() / 64,
            forall|i: int|
                0 <= i < r@.len() ==> decodes_to(
                    #[trigger] self.data@.subrange(64 * i, 64 * i + 64),
                    r@[i],
                ),
    {
        let len = self.data.len();
        let count = len / DENTRY_SIZE;
        let mut entries: Vec<Dentry> = Vec::new();
        let mut i: usize = 0;
        while i < count
            invariant
                i <= count,
                len == self.data@.len(),
                count == len / 64,
                entries@.len() == i,
                forall|j: int|
                    0 <= j < i ==> decodes_to(
                        #[trigger] self.data@.subrange(64 * j, 64 * j + 64),
                        entries@[j],
                    ),
            decreases count - i,
        {
            assert(64 * i + 64 <= self.data@.len()) by (nonlinear_arith)
                requires
                    i < count,
                    count == len / 64,
                    len == self.data@.len(),
            ;
            let record = slice_subrange(
                self.data.as_slice(),
                DENTRY_SIZE * i,
                DENTRY_SIZE * i + DENTRY_SIZE,
            );
            let d = Dentry::parse(record);
            proof {
                assert(record@.subrange(0, 64) =~= record@);
            }
            entries.push(d);
            i = i + 1;
        }
        entries
    }
}

} // verus!
