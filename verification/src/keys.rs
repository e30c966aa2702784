use vstd::arithmetic::div_mod::{lemma_fundamental_div_mod, lemma_fundamental_div_mod_converse};
use vstd::bytes::{lemma_auto_spec_u32_to_from_le_bytes, spec_u32_from_le_bytes, spec_u32_to_le_bytes};
use vstd::prelude::*;

verus! {

/// Width in bytes of one record in a table file.
pub const RECORD_WIDTH: usize = 4;

/// The keys held by a table file's bytes: each consecutive group of four
/// bytes, read as a little-endian 32-bit integer.  A trailing group of fewer
/// than four bytes carries no key.
pub open spec fn key_seq(bytes: Seq<u8>) -> Seq<u32> {
    Seq::new((bytes.len() / 4) as nat, |i: int| spec_u32_from_le_bytes(bytes.subrange(4 * i, 4 * i + 4)))
}

/// The bytes of a table file holding exactly the given keys, in order.
pub open spec fn table_bytes(keys: Seq<u32>) -> Seq<u8> {
    Seq::new((4 * keys.len()) as nat, |i: int| spec_u32_to_le_bytes(keys[i / 4])[i % 4])
}

/// Non-decreasing throughout.
pub open spec fn sorted(s: Seq<u32>) -> bool {
    forall|i: int, j: int| 0 <= i <= j < s.len() ==> s[i] <= s[j]
}

/// Order breaks at index `p`: the record there is smaller than its predecessor.
pub open spec fn order_breaks_at(s: Seq<u32>, p: int) -> bool {
    0 < p < s.len() && s[p - 1] > s[p]
}

/// Every adjacent pair before index `p` is in order.
pub open spec fn ordered_up_to(s: Seq<u32>, p: int) -> bool {
    forall|q: int| 0 < q < p ==> s[q - 1] <= #[trigger] s[q]
}

proof fn lemma_le_by_steps(s: Seq<u32>, i: int, j: int)
    requires
        ordered_up_to(s, s.len() as int),
        0 <= i <= j < s.len(),
    ensures
        s[i] <= s[j],
    decreases j - i,
{
    if i < j {
        lemma_le_by_steps(s, i, j - 1);
        assert(s[j - 1] <= s[j]);
    }
}

/// A sequence whose adjacent pairs are all in order is sorted outright.
pub proof fn lemma_adjacent_implies_sorted(s: Seq<u32>)
    requires
        ordered_up_to(s, s.len() as int),
    ensures
        sorted(s),
{
    assert forall|i: int, j: int| 0 <= i <= j < s.len() implies s[i] <= s[j] by {
        lemma_le_by_steps(s, i, j);
    }
}

/// Two sorted runs concatenate to a sorted sequence when some value separates
/// them: everything on the left is at most `mid`, everything on the right at
/// least `mid`.
pub proof fn lemma_sorted_concat(a: Seq<u32>, b: Seq<u32>, mid: int)
    requires
        sorted(a),
        sorted(b),
        forall|i: int| 0 <= i < a.len() ==> a[i] <= mid,
        forall|i: int| 0 <= i < b.len() ==> mid <= b[i],
    ensures
        sorted(a + b),
{
    let c = a + b;
    assert forall|i: int, j: int| 0 <= i <= j < c.len() implies c[i] <= c[j] by {
        if j < a.len() {
            assert(c[i] == a[i] && c[j] == a[j]);
        } else if i >= a.len() {
            assert(c[i] == b[i - a.len()] && c[j] == b[j - a.len()]);
        } else {
            assert(c[i] == a[i] && c[j] == b[j - a.len()]);
        }
    }
}

/// Decoding the encoding gives the keys back.
pub proof fn lemma_key_seq_of_table_bytes(keys: Seq<u32>)
    ensures
        key_seq(table_bytes(keys)) == keys,
{
    let b = table_bytes(keys);
    lemma_auto_spec_u32_to_from_le_bytes();
    assert forall|i: int| 0 <= i < keys.len() implies key_seq(b)[i] == keys[i] by {
        let chunk = b.subrange(4 * i, 4 * i + 4);
        assert forall|j: int| 0 <= j < 4 implies chunk[j] == spec_u32_to_le_bytes(keys[i])[j] by {
            lemma_fundamental_div_mod_converse(4 * i + j, 4, i, j);
            assert(b[4 * i + j] == spec_u32_to_le_bytes(keys[(4 * i + j) / 4])[(4 * i + j) % 4]);
        }
        assert(chunk =~= spec_u32_to_le_bytes(keys[i]));
        assert(key_seq(b)[i] == spec_u32_from_le_bytes(chunk));
    }
    assert(key_seq(b) =~= keys);
}

/// Appending one key to a table appends its four bytes to the encoding.
pub proof fn lemma_table_bytes_push(keys: Seq<u32>, x: u32)
    ensures
        table_bytes(keys.push(x)) == table_bytes(keys) + spec_u32_to_le_bytes(x),
{
    let l = table_bytes(keys.push(x));
    let r = table_bytes(keys) + spec_u32_to_le_bytes(x);
    lemma_auto_spec_u32_to_from_le_bytes();
    assert(l.len() == r.len());
    assert forall|i: int| 0 <= i < l.len() implies l[i] == r[i] by {
        lemma_fundamental_div_mod(i, 4);
        let q = i / 4;
        let m = i % 4;
        assert(l[i] == spec_u32_to_le_bytes(keys.push(x)[q])[m]);
        if q < keys.len() {
            assert(keys.push(x)[q] == keys[q]);
            assert(r[i] == spec_u32_to_le_bytes(keys[q])[m]);
        } else {
            assert(q == keys.len());
            assert(keys.push(x)[q] == x);
            assert(i - 4 * keys.len() == m);
            assert(r[i] == spec_u32_to_le_bytes(x)[m]);
        }
    }
    assert(l =~= r);
}

} // verus!
