//! Combining the outcomes of loading several export files.
use vstd::prelude::*;

use crate::emission_group::views_of;
use crate::search::{join_range, joined};

verus! {

/// The messages of the failed outcomes of `outcomes`, in order.
pub open spec fn failures<T>(outcomes: Seq<Result<T, String>>) -> Seq<Seq<char>> {
    outcomes.filter_map(
        |x: Result<T, String>|
            match x {
                Ok(_) => None,
                Err(e) => Some(e@),
            },
    )
}

/// The values of the successful outcomes of `outcomes`, in order.
pub open spec fn successes<T>(outcomes: Seq<Result<T, String>>) -> Seq<T> {
    outcomes.filter_map(
        |x: Result<T, String>|
            match x {
                Ok(v) => Some(v),
                Err(_) => None,
            },
    )
}

/// The values of `outcomes` when every one succeeded; otherwise the messages
/// of those that failed, in order, joined by `"; "`.
pub fn gather<T>(outcomes: Vec<Result<T, String>>) -> (r: Result<Vec<T>, String>)
    ensures
        r is Ok <==> forall|i: int| 0 <= i < outcomes.len() ==> outcomes@[i] is Ok,
        r is Ok ==> r->Ok_0@ == successes(outcomes@),
        r is Err ==> r->Err_0@ == joined(failures(outcomes@), "; "@),
{
    let ghost all = outcomes@;
    let mut values: Vec<T> = Vec::new();
    let mut errors: Vec<String> = Vec::new();
    for x in it: outcomes
        invariant
            all == it.seq(),
            views_of(errors@) == failures(all.take(it.index() as int)),
            errors.len() == 0 <==> forall|i: int| 0 <= i < it.index() ==> all[i] is Ok,
            values@ == successes(all.take(it.index() as int)),
    {
        let ghost k = it.index() as int;
        assert(all.take(k + 1).drop_last() =~= all.take(k));
        assert(all.take(k + 1).last() == all[k]);
        let ghost before = views_of(errors@);
        let ghost before_values = values@;
        match x {
            Ok(v) => {
                values.push(v);
                assert(values@ =~= before_values + seq![v]);
            },
            Err(e) => {
                errors.push(e);
                assert(views_of(errors@) =~= before + seq![errors@[errors.len() - 1]@]);
            },
        }
    }
    assert(all.take(all.len() as int) =~= all);
    if errors.len() == 0 {
        Ok(values)
    } else {
        assert(views_of(errors@).subrange(0, errors.len() as int) =~= views_of(errors@));
        Err(join_range(&errors, 0, errors.len(), "; "))
    }
}

} // verus!
