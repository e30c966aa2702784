use crate::error::TableError;
use crate::keys::{key_seq, sorted};
use crate::validate::validate_bytes;
use mmap_rs::Mmap;
use vstd::arithmetic::div_mod::lemma_fundamental_div_mod;
use vstd::prelude::*;

verus! {

/// A single record of the table: a 32-bit key, the sole payload.
#[derive(Debug, Clone, Copy, PartialEq, Eq, PartialOrd, Ord, Structural)]
pub struct Entry(u32);

impl View for Entry {
    type V = u32;

    closed spec fn view(&self) -> u32 {
        self.0
    }
}

impl Entry {
    /// The key this record carries, as a plain integer.
    pub fn value(&self) -> (k: u32)
        ensures
            k == self@,
    {
        self.0
    }
}

impl From<u32> for Entry {
    fn from(v: u32) -> (e: Entry)
        ensures
            e@ == v,
    {
        Entry(v)
    }
}

impl vstd::std_specs::convert::FromSpecImpl<u32> for Entry {
    open spec fn obeys_from_spec() -> bool {
        true
    }

    closed spec fn from_spec(v: u32) -> Entry {
        Entry(v)
    }
}

impl From<Entry> for u32 {
    fn from(e: Entry) -> (v: u32)
        ensures
            v == e@,
    {
        e.0
    }
}

impl vstd::std_specs::convert::FromSpecImpl<Entry> for u32 {
    open spec fn obeys_from_spec() -> bool {
        true
    }

    closed spec fn from_spec(e: Entry) -> u32 {
        e.0
    }
}

impl<'a> From<&'a Entry> for u32 {
    fn from(e: &'a Entry) -> (v: u32)
        ensures
            v == e@,
    {
        e.0
    }
}

impl<'a> vstd::std_specs::convert::FromSpecImpl<&'a Entry> for u32 {
    open spec fn obeys_from_spec() -> bool {
        true
    }

    closed spec fn from_spec(e: &'a Entry) -> u32 {
        e.0
    }
}

/// Declares mmap_rs::Mmap to the verifier as an opaque type, so a table can
/// own its mapping; what the mapping holds is reached only through
/// `mmap_bytes` below.
#[verifier::external_type_specification]
#[verifier::external_body]
pub struct ExMmap(Mmap);

/// The bytes held by a read-only memory mapping, in order of address.
/// A mapping is never written through after it is established, so the
/// sequence is fixed for the lifetime of the value.
pub uninterp spec fn mmap_bytes(m: Mmap) -> Seq<u8>;

/// Relies on mmap_rs::Mmap::as_slice: a slice covering the entire mapping.
#[verifier::external_body]
fn mmap_as_bytes(m: &Mmap) -> (r: &[u8])
    ensures
        r@ == mmap_bytes(*m),
{
    m.as_slice()
}

/// The bytes behind an optional mapping; no mapping stands for the empty file,
/// which needs none.
pub open spec fn opt_map_bytes(map: Option<Mmap>) -> Seq<u8> {
    match map {
        Option::None => Seq::empty(),
        Option::Some(m) => mmap_bytes(m),
    }
}

/// A set of Entries accessed via a read-only memory mapping.
///
/// The table exclusively owns its mapping; the mapped region is never
/// mutated, so lookups are free of data races however many threads share one
/// table by reference.  Lookups may still block while a page is brought in
/// from backing storage: use a pool of threads for concurrent access.
pub struct SST {
    map: Option<Mmap>,
}

impl View for SST {
    type V = Seq<u32>;

    /// The keys of the table, in file order.
    closed spec fn view(&self) -> Seq<u32> {
        key_seq(opt_map_bytes(self.map))
    }
}

impl SST {
    /// Makes a table over an established read-only mapping, or over no
    /// mapping for an empty file.  Fails with `FormatError` exactly when the
    /// mapped length is not a multiple of the record width; the caller is
    /// responsible for mapping the whole file.
    pub fn new(map: Option<Mmap>) -> (r: Result<SST, TableError>)
        ensures
            match r {
                Ok(t) => opt_map_bytes(map).len() % 4 == 0 && t@ == key_seq(opt_map_bytes(map)),
                Err(e) => e == TableError::FormatError && opt_map_bytes(map).len() % 4 != 0,
            },
    {
        let byte_len: usize = match &map {
            None => 0,
            Some(m) => mmap_as_bytes(m).len(),
        };
        if byte_len % 4 == 0 {
            Ok(SST { map })
        } else {
            Err(TableError::FormatError)
        }
    }

    /// Binary search for `key` over the mapped records.
    ///
    /// A returned entry always carries `key` itself and witnesses that `key`
    /// occurs in the table.  On a sorted table — the only kind the loader
    /// produces — the search is also complete: it returns an entry if and
    /// only if `key` occurs.  Duplicates resolve to an arbitrary matching
    /// index.  On an unsorted table a miss promises nothing.
    pub fn find(&self, key: u32) -> (r: Option<Entry>)
        ensures
            match r {
                Some(e) => e@ == key && self@.contains(key),
                None => sorted(self@) ==> !self@.contains(key),
            },
    {
        let bytes: &[u8] = match &self.map {
            None => {
                proof {
                    assert(self@.len() == 0);
                }
                return None;
            },
            Some(m) => mmap_as_bytes(m),
        };
        let ghost s = self@;
        let n: usize = bytes.len() / 4;
        proof {
            lemma_fundamental_div_mod(bytes@.len() as int, 4);
            assert(s.len() == n);
        }
        let mut lo: usize = 0;
        let mut hi: usize = n;
        while lo < hi
            invariant
                lo <= hi <= n,
                n == s.len(),
                s == self@,
                s == key_seq(bytes@),
                4 * (n as int) <= bytes@.len(),
                sorted(s) ==> forall|i: int| 0 <= i < lo ==> s[i] < key,
                sorted(s) ==> forall|i: int| hi <= i < n ==> key < s[i],
            decreases hi - lo,
        {
            let mid = lo + (hi - lo) / 2;
            let v = key_at(bytes, mid);
            if v < key {
                proof {
                    if sorted(s) {
                        assert forall|i: int| 0 <= i < mid + 1 implies s[i] < key by {
                            assert(s[i] <= s[mid as int]);
                        }
                    }
                }
                lo = mid + 1;
            } else if key < v {
                proof {
                    if sorted(s) {
                        assert forall|i: int| mid <= i < n implies key < s[i] by {
                            assert(s[mid as int] <= s[i]);
                        }
                    }
                }
                hi = mid;
            } else {
                let e = Entry::from(v);
                proof {
                    assert(s[mid as int] == key);
                    assert(s.contains(key));
                }
                return Some(e);
            }
        }
        proof {
            if sorted(s) && s.contains(key) {
                let w = choose|w: int| 0 <= w < s.len() && s[w] == key;
                assert(w < lo || hi <= w);
                assert(false);
            }
        }
        None
    }

    /// Scans the records and confirms they are in non-decreasing order.
    /// Succeeds exactly on a sorted table; otherwise reports the first index
    /// in file order whose record is smaller than its predecessor.
    pub fn validate(&self) -> (r: Result<(), TableError>)
        ensures
            match r {
                Ok(()) => sorted(self@),
                Err(e) => match e {
                    TableError::OrderViolation(p) => crate::keys::order_breaks_at(self@, p as int)
                        && crate::keys::ordered_up_to(self@, p as int),
                    _ => false,
                },
            },
    {
        match &self.map {
            None => {
                proof {
                    assert(self@.len() == 0);
                }
                Ok(())
            },
            Some(m) => validate_bytes(mmap_as_bytes(m), 65536),
        }
    }
}

/// Reads the record at index `i` out of a table's raw bytes.
pub fn key_at(bytes: &[u8], i: usize) -> (k: u32)
    requires
        4 * (i as int) + 4 <= bytes@.len(),
    ensures
        k == key_seq(bytes@)[i as int],
{
    let len = bytes.len();
    proof {
        lemma_fundamental_div_mod(bytes@.len() as int, 4);
        assert(4 * (i as int) + 4 <= len);
    }
    let start = 4 * i;
    let chunk: &[u8] = &bytes[start..start + 4];
    proof {
        assert(chunk@ == bytes@.subrange(4 * (i as int), 4 * (i as int) + 4));
    }
    vstd::bytes::u32_from_le_bytes(chunk)
}

} // verus!
