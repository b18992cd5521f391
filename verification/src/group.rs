//! Grouping: partition the accepted records by dimension, keeping the
//! source-file row order within each group.

use vstd::prelude::*;
use crate::records::Dimension;
use crate::records::UnitRecord;
use crate::records::UnitView;
use crate::records::views_of;

verus! {

/// The members of one dimension's group: the records of that dimension, in
/// source order.
pub open spec fn group_of(us: Seq<UnitView>, d: Dimension) -> Seq<UnitView> {
    us.filter(|u: UnitView| u.dimension == d)
}

impl UnitRecord {
    /// A field-for-field copy of the record.
    pub fn duplicate(&self) -> (r: UnitRecord)
        ensures
            r == *self,
    {
        UnitRecord {
            name: self.name.clone(),
            constant_suffix: self.constant_suffix.clone(),
            symbol: self.symbol.clone(),
            dimension: self.dimension,
        }
    }
}

/// The records of dimension `d`, in source order: grouping preserves the
/// source-file row order within the group.
pub fn units_for_dimension(records: &Vec<UnitRecord>, d: Dimension) -> (r: Vec<UnitRecord>)
    ensures
        views_of(r@) == group_of(views_of(records@), d),
{
    let ghost uv = views_of(records@);
    let n = records.len();
    let mut out: Vec<UnitRecord> = Vec::new();
    proof {
        reveal(Seq::filter);
        assert(uv.take(0) =~= Seq::<UnitView>::empty());
        assert(views_of(out@) =~= group_of(uv.take(0), d));
    }
    let mut i: usize = 0;
    while i < n
        invariant
            i <= n,
            n == records@.len(),
            uv == views_of(records@),
            views_of(out@) == group_of(uv.take(i as int), d),
        decreases n - i,
    {
        let ghost prev_out = out@;
        proof {
            assert(uv[i as int] == records@[i as int]@);
        }
        if matches_dimension(&records[i], d) {
            out.push(records[i].duplicate());
        }
        proof {
            reveal(Seq::filter);
            let prev = uv.take(i as int);
            let cur = uv.take(i + 1);
            assert(cur.drop_last() =~= prev);
            assert(cur.last() == uv[i as int]);
            assert(group_of(cur, d) == if uv[i as int].dimension == d {
                group_of(prev, d).push(uv[i as int])
            } else {
                group_of(prev, d)
            });
            assert(views_of(out@) =~= group_of(cur, d));
        }
        i = i + 1;
    }
    proof {
        assert(uv.take(n as int) =~= uv);
    }
    out
}

fn matches_dimension(r: &UnitRecord, d: Dimension) -> (b: bool)
    ensures
        b == (r@.dimension == d),
{
    r.dimension == d
}

/// The five groups partition the accepted records: every record falls in
/// exactly one dimension's group, so the per-dimension counts sum to the
/// total unit count.
pub proof fn lemma_groups_partition(us: Seq<UnitView>)
    ensures
        group_of(us, Dimension::Length).len() + group_of(us, Dimension::Time).len() + group_of(
            us,
            Dimension::Angle,
        ).len() + group_of(us, Dimension::Mass).len() + group_of(us, Dimension::Power).len()
            == us.len(),
    decreases us.len(),
{
    reveal(Seq::filter);
    if us.len() > 0 {
        lemma_groups_partition(us.drop_last());
    }
}

} // verus!
