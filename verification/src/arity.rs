//! Child counts of operators. Within one expression, and within one
//! graph, every operator is used with one number of children; what is
//! inserted in an order is judged in that order, and the first usage that
//! contradicts an earlier one is the conflict.

use crate::error::Defect;
use crate::table::{first_entry, lemma_first_entry};
use crate::term::Usage;
use vstd::prelude::*;

verus! {

/// No operator occurs with two different numbers of children.
pub open spec fn agree(us: Seq<Usage>) -> bool {
    forall|i: int, j: int|
        0 <= i < us.len() && 0 <= j < us.len() && (#[trigger] us[i]).0 == (#[trigger] us[j]).0
            ==> us[i].1 == us[j].1
}

/// The first position at which a usage contradicts an earlier one, if any.
pub open spec fn first_conflict(us: Seq<Usage>) -> Option<int>
    decreases us.len(),
{
    if us.len() == 0 {
        None
    } else {
        match first_conflict(us.drop_last()) {
            Some(k) => Some(k),
            None => if agree(us) {
                None
            } else {
                Some(us.len() - 1)
            },
        }
    }
}

/// The error with which inserting the usages `all` one after the other
/// fails: it names the first usage that contradicts an earlier one.
pub open spec fn conflict(all: Seq<Usage>) -> Defect {
    let k = first_conflict(all)->0;
    Defect::ArityMismatch {
        op: all[k].0,
        expected: first_entry(all.take(k), all[k].0)->0,
        found: all[k].1,
    }
}

/// `first_conflict` is `None` exactly for usages that agree; otherwise it
/// names a position whose usage contradicts an earlier one, while all
/// usages before it agree.
pub proof fn lemma_first_conflict(us: Seq<Usage>)
    ensures
        first_conflict(us) is None <==> agree(us),
        first_conflict(us) matches Some(k) ==> 0 <= k < us.len() && agree(us.take(k)) && !agree(
            us.take(k + 1),
        ),
    decreases us.len(),
{
    if us.len() > 0 {
        let rest = us.drop_last();
        lemma_first_conflict(rest);
        match first_conflict(rest) {
            Some(k) => {
                assert(rest.take(k + 1) =~= us.take(k + 1));
            },
            None => {
                assert(us.take(us.len() as int) =~= us);
            },
        }
    }
}

/// Adding one usage to usages that agree: the result agrees exactly when
/// the operator is new or was first used with the same child count.
pub proof fn lemma_agree_push(us: Seq<Usage>, op: Seq<char>, n: nat)
    requires
        agree(us),
    ensures
        agree(us.push((op, n))) <==> (first_entry(us, op) is None || first_entry(us, op) == Some(
            n,
        )),
{
    lemma_first_entry(us, op);
    if first_entry(us, op) is Some && first_entry(us, op) != Some(n) {
        let next = us.push((op, n));
        let m = first_entry(us, op)->0;
        let k = choose|k: int| 0 <= k < us.len() && us[k] == (op, m);
        assert(next[k] == (op, m));
        assert(next[us.len() as int] == (op, n));
    }
}

/// A table answers for every operator as the usages `us` do.
pub open spec fn tracks(table: Seq<Usage>, us: Seq<Usage>) -> bool {
    forall|op: Seq<char>| #[trigger] first_entry(table, op) == first_entry(us, op)
}

/// A table that tracks usages still tracks them after one more usage that
/// agrees with them, once the usage is put into the table if its operator
/// is new.
pub proof fn lemma_tracks_push(table: Seq<Usage>, us: Seq<Usage>, op: Seq<char>, n: nat)
    requires
        tracks(table, us),
        first_entry(us, op) is None || first_entry(us, op) == Some(n),
    ensures
        first_entry(table, op) is None ==> tracks(table.push((op, n)), us.push((op, n))),
        first_entry(table, op) is Some ==> tracks(table, us.push((op, n))),
{
    let next = us.push((op, n));
    assert(next.drop_last() =~= us);
    if first_entry(table, op) is None {
        let grown = table.push((op, n));
        assert(grown.drop_last() =~= table);
        assert forall|o: Seq<char>| #[trigger] first_entry(grown, o) == first_entry(next, o) by {
            assert(first_entry(table, o) == first_entry(us, o));
        }
    }
}

} // verus!
