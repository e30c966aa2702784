use crate::error::TableError;
use crate::keys::{key_seq, lemma_adjacent_implies_sorted, order_breaks_at, ordered_up_to, sorted};
use crate::table::key_at;
use vstd::arithmetic::div_mod::lemma_fundamental_div_mod;
use vstd::prelude::*;

verus! {

/// What one worker learns from scanning a contiguous run of records: the
/// bounds of the run, its first and last value, and the first place inside it
/// where order breaks, if any.  Carrying the edge values is what lets two
/// adjacent summaries be combined without re-reading the records.
#[derive(Debug, Clone, Copy, PartialEq, Eq)]
pub struct ChunkCheck {
    /// Index of the first record of the run.
    pub start: usize,
    /// One past the index of the last record of the run.
    pub end: usize,
    /// Value of the first record of the run.
    pub first: u32,
    /// Value of the last record of the run.
    pub last: u32,
    /// First index `p` inside the run with a record smaller than its
    /// predecessor at `p - 1`, if there is one.
    pub first_bad: Option<usize>,
}

/// The summary faithfully describes the run `[c.start, c.end)` of `s`.
pub open spec fn chunk_ok(s: Seq<u32>, c: ChunkCheck) -> bool {
    &&& 0 <= c.start < c.end <= s.len()
    &&& c.first == s[c.start as int]
    &&& c.last == s[c.end - 1]
    &&& match c.first_bad {
        Option::Some(p) => c.start < p < c.end && s[p - 1] > s[p as int]
            && (forall|q: int| c.start < q < p ==> s[q - 1] <= #[trigger] s[q]),
        Option::None => forall|q: int| c.start < q < c.end ==> s[q - 1] <= #[trigger] s[q],
    }
}

/// How two adjacent summaries merge: the combined run keeps the left edge of
/// the left run and the right edge of the right one, and the first break is
/// the left run's break, else a break at the seam, else the right run's.
pub open spec fn combine_spec(l: ChunkCheck, r: ChunkCheck) -> ChunkCheck {
    ChunkCheck {
        start: l.start,
        end: r.end,
        first: l.first,
        last: r.last,
        first_bad: match l.first_bad {
            Option::Some(p) => Option::Some(p),
            Option::None => if l.last > r.first {
                Option::Some(r.start)
            } else {
                r.first_bad
            },
        },
    }
}

/// Scans the records of `bytes` with indices in `[start, end)` and summarises
/// their order.
pub fn check_chunk(bytes: &[u8], start: usize, end: usize) -> (c: ChunkCheck)
    requires
        start < end,
        4 * (end as int) <= bytes@.len(),
    ensures
        c.start == start,
        c.end == end,
        chunk_ok(key_seq(bytes@), c),
{
    let ghost s = key_seq(bytes@);
    let first = key_at(bytes, start);
    let mut last = first;
    let mut first_bad: Option<usize> = None;
    let mut p = start + 1;
    while p < end
        invariant
            start < p <= end,
            4 * (end as int) <= bytes@.len(),
            s == key_seq(bytes@),
            first == s[start as int],
            last == s[p - 1],
            match first_bad {
                Option::Some(b) => start < b < p && s[b - 1] > s[b as int]
                    && (forall|q: int| start < q < b ==> s[q - 1] <= #[trigger] s[q]),
                Option::None => forall|q: int| start < q < p ==> s[q - 1] <= #[trigger] s[q],
            },
        decreases end - p,
    {
        let v = key_at(bytes, p);
        if first_bad.is_none() && last > v {
            first_bad = Some(p);
        }
        last = v;
        p = p + 1;
    }
    ChunkCheck { start, end, first, last, first_bad }
}

/// Combines the summaries of two runs that meet at a seam.
pub fn combine(l: ChunkCheck, r: ChunkCheck) -> (c: ChunkCheck)
    ensures
        c == combine_spec(l, r),
{
    let first_bad = match l.first_bad {
        Some(p) => Some(p),
        None => if l.last > r.first {
            Some(r.start)
        } else {
            r.first_bad
        },
    };
    ChunkCheck { start: l.start, end: r.end, first: l.first, last: r.last, first_bad }
}

/// Combining faithful summaries of adjacent runs gives a faithful summary of
/// their concatenation: checking each run apart, plus each seam, checks the
/// whole, which is what lets the validator scan runs in parallel.
pub proof fn lemma_combine_sound(s: Seq<u32>, l: ChunkCheck, r: ChunkCheck)
    requires
        chunk_ok(s, l),
        chunk_ok(s, r),
        l.end == r.start,
    ensures
        chunk_ok(s, combine_spec(l, r)),
{
    let c = combine_spec(l, r);
    match l.first_bad {
        Option::Some(p) => {},
        Option::None => {
            if l.last > r.first {
                assert(s[r.start - 1] == l.last);
            } else {
                match r.first_bad {
                    Option::Some(p) => {
                        assert forall|q: int| c.start < q < p implies s[q - 1] <= #[trigger] s[q] by {
                            if q == r.start {
                                assert(s[q - 1] == l.last && s[q] == r.first);
                            }
                        }
                    },
                    Option::None => {
                        assert forall|q: int| c.start < q < c.end implies s[q - 1] <= #[trigger] s[q] by {
                            if q == r.start {
                                assert(s[q - 1] == l.last && s[q] == r.first);
                            }
                        }
                    },
                }
            }
        },
    }
}

/// The combine step is associative, so summaries of adjacent runs may be
/// merged pairwise in any grouping — as a left fold or as a balanced tree —
/// and describe the same whole.
pub proof fn lemma_combine_assoc(a: ChunkCheck, b: ChunkCheck, c: ChunkCheck)
    ensures
        combine_spec(combine_spec(a, b), c) == combine_spec(a, combine_spec(b, c)),
{
}

/// Reads the run summary back as the validator's verdict for the whole file.
pub fn chunk_result(c: &ChunkCheck) -> (r: Result<(), TableError>)
    ensures
        match r {
            Ok(()) => c.first_bad is None,
            Err(e) => match e {
                TableError::OrderViolation(p) => c.first_bad == Some(p),
                _ => false,
            },
        },
{
    match c.first_bad {
        None => Ok(()),
        Some(p) => Err(TableError::OrderViolation(p)),
    }
}

/// Scans a table file's records in runs of `chunk_len` and confirms they are
/// globally non-decreasing.  Succeeds exactly when the keys are sorted;
/// otherwise reports the first index in file order whose record is smaller
/// than its predecessor.
pub fn validate_bytes(bytes: &[u8], chunk_len: usize) -> (r: Result<(), TableError>)
    requires
        1 <= chunk_len,
    ensures
        match r {
            Ok(()) => sorted(key_seq(bytes@)),
            Err(e) => match e {
                TableError::OrderViolation(p) => order_breaks_at(key_seq(bytes@), p as int)
                    && ordered_up_to(key_seq(bytes@), p as int),
                _ => false,
            },
        },
{
    let ghost s = key_seq(bytes@);
    let n: usize = bytes.len() / 4;
    proof {
        lemma_fundamental_div_mod(bytes@.len() as int, 4);
        assert(s.len() == n);
    }
    if n == 0 {
        return Ok(());
    }
    let first_end = if chunk_len < n {
        chunk_len
    } else {
        n
    };
    let mut acc = check_chunk(bytes, 0, first_end);
    while acc.end < n
        invariant
            s == key_seq(bytes@),
            n == s.len(),
            4 * (n as int) <= bytes@.len(),
            1 <= chunk_len,
            acc.start == 0,
            acc.end <= n,
            chunk_ok(s, acc),
        decreases n - acc.end,
    {
        let next_end = if n - acc.end < chunk_len {
            n
        } else {
            acc.end + chunk_len
        };
        let next = check_chunk(bytes, acc.end, next_end);
        proof {
            lemma_combine_sound(s, acc, next);
        }
        acc = combine(acc, next);
    }
    let r = chunk_result(&acc);
    proof {
        match acc.first_bad {
            Option::Some(p) => {},
            Option::None => {
                lemma_adjacent_implies_sorted(s);
            },
        }
    }
    r
}

} // verus!
