//! The sequence numbering of the write-ahead log. Reading and writing the log file,
//! and the JSON form of its entries, are the application's.

use vstd::prelude::*;

verus! {

/// The largest of `seqs`, `0` when there is none.
pub open spec fn seq_max(seqs: Seq<u64>) -> u64
    decreases seqs.len(),
{
    if seqs.len() == 0 {
        0
    } else {
        let m = seq_max(seqs.drop_last());
        if seqs.last() > m {
            seqs.last()
        } else {
            m
        }
    }
}

/// Returns the largest sequence number among those read back from a log (`0` for an
/// empty log): where a reopened log resumes numbering.
pub fn max_sequence(seqs: &Vec<u64>) -> (m: u64)
    ensures
        m == seq_max(seqs@),
        forall|i: int| 0 <= i < seqs@.len() ==> seqs@[i] <= m,
        seqs@.len() > 0 ==> exists|i: int| 0 <= i < seqs@.len() && seqs@[i] == m,
{
    let mut m: u64 = 0;
    let mut i: usize = 0;
    proof {
        assert(seqs@.take(0) =~= Seq::<u64>::empty());
    }
    while i < seqs.len()
        invariant
            i <= seqs.len(),
            m == seq_max(seqs@.take(i as int)),
            forall|j: int| 0 <= j < i ==> seqs@[j] <= m,
            i > 0 ==> exists|j: int| 0 <= j < i && seqs@[j] == m,
        decreases seqs.len() - i,
    {
        proof {
            assert(seqs@.take(i + 1).drop_last() =~= seqs@.take(i as int));
        }
        if seqs[i] > m {
            m = seqs[i];
        }
        i = i + 1;
    }
    proof {
        assert(seqs@.take(i as int) =~= seqs@);
    }
    m
}

} // verus!
