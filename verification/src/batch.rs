//! A unit of index updates: the new chain tip plus the new header, funding,
//! spending and txid rows, each collection sorted ascending by raw byte order
//! before commit so that bulk inserts reach the engine in key order and the
//! commit is deterministic.

use crate::order::{bytes_le, lemma_lex_total, lemma_lex_transitive, lex_le};
use vstd::prelude::*;

verus! {

/// Width of the scan prefix shared by all hash tables.
pub const HASH_PREFIX_LEN: usize = 8;

/// Width of one funding/spending/txid row: the 8-byte hash prefix plus its
/// 4-byte location inside the chain.
pub const HASH_PREFIX_ROW_LEN: usize = 12;

/// Width of one header row: a sortable 4-byte height plus the 32-byte hash.
pub const HEADER_ROW_LEN: usize = 36;

/// Width of the tip hash.
pub const TIP_LEN: usize = 32;

/// The byte sequences held by a collection of rows.
pub open spec fn views(s: Seq<Vec<u8>>) -> Seq<Seq<u8>> {
    s.map_values(|v: Vec<u8>| v@)
}

/// Ascending raw-byte order, duplicates allowed.
pub open spec fn sorted_ascending(s: Seq<Seq<u8>>) -> bool {
    forall|i: int, j: int| 0 <= i < j < s.len() ==> lex_le(s[i], s[j])
}

/// Every row has the same fixed width.
pub open spec fn all_len(s: Seq<Seq<u8>>, n: nat) -> bool {
    forall|i: int| 0 <= i < s.len() ==> s[i].len() == n
}

/// A permutation keeps every row, so it keeps every row's width.
pub proof fn lemma_all_len_of_permutation(a: Seq<Seq<u8>>, b: Seq<Seq<u8>>, n: nat)
    requires
        a.to_multiset() == b.to_multiset(),
        all_len(a, n),
    ensures
        all_len(b, n),
{
    broadcast use vstd::seq_lib::group_to_multiset_ensures;

    assert forall|i: int| 0 <= i < b.len() implies b[i].len() == n by {
        assert(b.contains(b[i]));
        assert(b.to_multiset().count(b[i]) > 0);
        assert(a.contains(b[i]));
        let k = choose|k: int| 0 <= k < a.len() && a[k] == b[i];
        assert(a[k].len() == n);
    }
}

/// Removing a row and re-inserting it elsewhere is a permutation.
proof fn lemma_remove_insert_permutes(s: Seq<Seq<u8>>, i: int, j: int)
    requires
        0 <= i < s.len(),
        0 <= j <= s.len() - 1,
    ensures
        s.remove(i).insert(j, s[i]).to_multiset() == s.to_multiset(),
{
    broadcast use vstd::seq_lib::group_to_multiset_ensures;
    broadcast use vstd::seq_lib::to_multiset_insert;
    broadcast use vstd::multiset::group_multiset_axioms;

    let u = s.remove(i);
    assert(u.to_multiset() == s.to_multiset().remove(s[i]));
    assert(u.insert(j, s[i]).to_multiset() == u.to_multiset().insert(s[i]));
    assert(s.contains(s[i]));
    assert(s.to_multiset().count(s[i]) > 0);
    assert(s.to_multiset().remove(s[i]).insert(s[i]) =~= s.to_multiset());
}

/// Mapping to views commutes with removal.
proof fn lemma_views_remove(s: Seq<Vec<u8>>, i: int)
    requires
        0 <= i < s.len(),
    ensures
        views(s.remove(i)) =~= views(s).remove(i),
{
}

/// Mapping to views commutes with insertion.
proof fn lemma_views_insert(s: Seq<Vec<u8>>, j: int, x: Vec<u8>)
    requires
        0 <= j <= s.len(),
    ensures
        views(s.insert(j, x)) =~= views(s).insert(j, x@),
{
}

/// The position before the first of the leading `i` rows that is strictly
/// above `x`, in raw byte order.
fn insertion_point(v: &Vec<Vec<u8>>, x: &Vec<u8>, i: usize) -> (j: usize)
    requires
        i <= v@.len(),
    ensures
        j <= i,
        forall|k: int| 0 <= k < j ==> lex_le(views(v@)[k], x@),
        j < i ==> lex_le(x@, views(v@)[j as int]),
{
    let mut j: usize = 0;
    while j < i
        invariant
            j <= i <= v@.len(),
            forall|k: int| 0 <= k < j ==> lex_le(views(v@)[k], x@),
        decreases i - j,
    {
        proof {
            assert(views(v@)[j as int] == v@[j as int]@);
        }
        if !bytes_le(&v[j], x) {
            proof {
                lemma_lex_total(views(v@)[j as int], x@);
            }
            return j;
        }
        j = j + 1;
    }
    j
}

/// Sort rows ascending by raw byte order.  The result is a permutation of the
/// input: no row appears or disappears, duplicates keep their multiplicity.
pub fn sort_rows(v: &mut Vec<Vec<u8>>)
    ensures
        sorted_ascending(views(final(v)@)),
        views(final(v)@).to_multiset() == views(old(v)@).to_multiset(),
        final(v)@.len() == old(v)@.len(),
{
    if v.len() < 2 {
        return ;
    }
    let mut i: usize = 1;
    while i < v.len()
        invariant
            1 <= i <= v@.len(),
            v@.len() == old(v)@.len(),
            views(v@).to_multiset() == views(old(v)@).to_multiset(),
            sorted_ascending(views(v@).take(i as int)),
        decreases v@.len() - i,
    {
        let ghost sv = v@;
        let ghost s = views(v@);
        let x = v.remove(i);
        let ghost u = views(v@);
        proof {
            lemma_views_remove(sv, i as int);
            assert(u =~= s.remove(i as int));
            assert forall|k: int| 0 <= k < i implies u[k] == s[k] by {
                assert(s.remove(i as int)[k] == s.subrange(0, i as int)[k]);
            }
        }
        let j = insertion_point(v, &x, i);
        // rows before j are at or below x, and if j < i then x is at or below
        // the row at j
        let ghost pv = v@;
        v.insert(j, x);
        proof {
            lemma_views_insert(pv, j as int, x);
            let w = views(v@);
            assert(w =~= u.insert(j as int, x@));
            lemma_remove_insert_permutes(s, i as int, j as int);
            assert(s[i as int] == x@);
            assert(w.to_multiset() == s.to_multiset());
            // pairwise order on the sorted prefix, now one longer
            assert forall|a: int, b: int| 0 <= a < b <= i implies lex_le(w[a], w[b]) by {
                assert forall|k: int| 0 <= k < j implies w[k] == u[k] by {}
                assert(w[j as int] == x@);
                assert forall|k: int| j < k <= i implies w[k] == u[k - 1] by {}
                if b < j {
                    assert(lex_le(s[a], s[b]));
                } else if b == j {
                    assert(lex_le(u[a], x@));
                } else if a < j {
                    // b > j, so w[b] is the old row b - 1
                    if a == b - 1 {
                        assert(lex_le(u[a], x@));
                        assert(lex_le(x@, u[b - 1]));
                        lemma_lex_transitive(u[a], x@, u[b - 1]);
                    } else {
                        assert(lex_le(s[a], s[b - 1]));
                    }
                } else if a == j {
                    assert(j < i);
                    assert(lex_le(x@, u[j as int]));
                    if b - 1 > j {
                        assert(lex_le(s[j as int], s[b - 1]));
                        lemma_lex_transitive(x@, u[j as int], u[b - 1]);
                    }
                } else {
                    assert(lex_le(s[a - 1], s[b - 1]));
                }
            }
            assert(sorted_ascending(w.take(i + 1))) by {
                assert forall|a: int, b: int|
                    0 <= a < b < i + 1 implies #[trigger] lex_le(
                    w.take(i + 1)[a],
                    w.take(i + 1)[b],
                ) by {
                    assert(w.take(i + 1)[a] == w[a]);
                    assert(w.take(i + 1)[b] == w[b]);
                }
            }
        }
        i = i + 1;
    }
    proof {
        assert(views(v@).take(v@.len() as int) =~= views(v@));
    }
}

/// A write batch: the new 32-byte tip hash and the four row collections that
/// one commit makes visible atomically.
pub struct WriteBatch {
    pub tip_row: Vec<u8>,
    pub header_rows: Vec<Vec<u8>>,
    pub funding_rows: Vec<Vec<u8>>,
    pub spending_rows: Vec<Vec<u8>>,
    pub txid_rows: Vec<Vec<u8>>,
}

impl WriteBatch {
    /// Every row carries its table's fixed width and the tip is a 32-byte hash.
    pub open spec fn wf(self) -> bool {
        &&& self.tip_row@.len() == TIP_LEN
        &&& all_len(views(self.header_rows@), HEADER_ROW_LEN as nat)
        &&& all_len(views(self.funding_rows@), HASH_PREFIX_ROW_LEN as nat)
        &&& all_len(views(self.spending_rows@), HASH_PREFIX_ROW_LEN as nat)
        &&& all_len(views(self.txid_rows@), HASH_PREFIX_ROW_LEN as nat)
    }

    /// Sort every row collection ascending by raw byte order; each becomes a
    /// sorted permutation of what it held, and the tip is untouched.
    pub fn sort(&mut self)
        ensures
            sorted_ascending(views(final(self).header_rows@)),
            sorted_ascending(views(final(self).funding_rows@)),
            sorted_ascending(views(final(self).spending_rows@)),
            sorted_ascending(views(final(self).txid_rows@)),
            views(final(self).header_rows@).to_multiset() == views(
                old(self).header_rows@,
            ).to_multiset(),
            views(final(self).funding_rows@).to_multiset() == views(
                old(self).funding_rows@,
            ).to_multiset(),
            views(final(self).spending_rows@).to_multiset() == views(
                old(self).spending_rows@,
            ).to_multiset(),
            views(final(self).txid_rows@).to_multiset() == views(old(self).txid_rows@).to_multiset(),
            final(self).tip_row == old(self).tip_row,
            old(self).wf() ==> final(self).wf(),
    {
        sort_rows(&mut self.header_rows);
        sort_rows(&mut self.funding_rows);
        sort_rows(&mut self.spending_rows);
        sort_rows(&mut self.txid_rows);
        proof {
            if old(self).wf() {
                lemma_all_len_of_permutation(
                    views(old(self).header_rows@),
                    views(self.header_rows@),
                    HEADER_ROW_LEN as nat,
                );
                lemma_all_len_of_permutation(
                    views(old(self).funding_rows@),
                    views(self.funding_rows@),
                    HASH_PREFIX_ROW_LEN as nat,
                );
                lemma_all_len_of_permutation(
                    views(old(self).spending_rows@),
                    views(self.spending_rows@),
                    HASH_PREFIX_ROW_LEN as nat,
                );
                lemma_all_len_of_permutation(
                    views(old(self).txid_rows@),
                    views(self.txid_rows@),
                    HASH_PREFIX_ROW_LEN as nat,
                );
            }
        }
    }
}

impl Default for WriteBatch {
    /// An empty batch pointing at the all-zero tip.
    fn default() -> (b: WriteBatch)
        ensures
            b.tip_row@.len() == TIP_LEN,
            forall|i: int| 0 <= i < b.tip_row@.len() ==> b.tip_row@[i] == 0u8,
            b.header_rows@.len() == 0,
            b.funding_rows@.len() == 0,
            b.spending_rows@.len() == 0,
            b.txid_rows@.len() == 0,
            b.wf(),
    {
        WriteBatch {
            tip_row: vec![0u8;TIP_LEN],
            header_rows: Vec::new(),
            funding_rows: Vec::new(),
            spending_rows: Vec::new(),
            txid_rows: Vec::new(),
        }
    }
}

} // verus!
