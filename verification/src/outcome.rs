//! The first failure of a run of checks made in order.
use vstd::prelude::*;

verus! {

/// The first failure among checks made in order, or `None` when all pass.
pub open spec fn first_failure<E>(checks: Seq<Option<E>>) -> Option<E>
    decreases checks.len(),
{
    if checks.len() == 0 {
        None
    } else {
        match first_failure(checks.drop_last()) {
            Some(e) => Some(e),
            None => checks.last(),
        }
    }
}

/// One more check after a passing run fails exactly when it fails.
pub proof fn lemma_first_failure_push<E>(checks: Seq<Option<E>>, i: int)
    requires
        0 <= i < checks.len(),
        first_failure(checks.take(i)) is None,
    ensures
        first_failure(checks.take(i + 1)) == checks[i],
{
    assert(checks.take(i + 1).drop_last() =~= checks.take(i));
}

/// A failure in a leading run is the failure of the whole run.
pub proof fn lemma_first_failure_prefix<E>(checks: Seq<Option<E>>, i: int)
    requires
        0 <= i <= checks.len(),
        first_failure(checks.take(i)) is Some,
    ensures
        first_failure(checks) == first_failure(checks.take(i)),
    decreases checks.len() - i,
{
    if i < checks.len() {
        assert(checks.take(i + 1).drop_last() =~= checks.take(i));
        lemma_first_failure_prefix(checks, i + 1);
    } else {
        assert(checks.take(i) =~= checks);
    }
}

/// A run whose every check passes has no failure.
pub proof fn lemma_first_failure_none<E>(checks: Seq<Option<E>>)
    requires
        forall|i: int| 0 <= i < checks.len() ==> checks[i] is None,
    ensures
        first_failure(checks) is None,
    decreases checks.len(),
{
    if checks.len() > 0 {
        lemma_first_failure_none(checks.drop_last());
    }
}

/// A run made of two runs fails first where its first part does, else where
/// its second part does.
pub proof fn lemma_first_failure_concat<E>(a: Seq<Option<E>>, b: Seq<Option<E>>)
    ensures
        first_failure(a + b) == match first_failure(a) {
            Some(e) => Some(e),
            None => first_failure(b),
        },
    decreases b.len(),
{
    if b.len() == 0 {
        assert(a + b =~= a);
    } else {
        lemma_first_failure_concat(a, b.drop_last());
        assert((a + b).drop_last() =~= a + b.drop_last());
    }
}


/// A run without failure has every check passing.
pub proof fn lemma_first_failure_none_all<E>(checks: Seq<Option<E>>)
    requires
        first_failure(checks) is None,
    ensures
        forall|i: int| 0 <= i < checks.len() ==> checks[i] is None,
    decreases checks.len(),
{
    if checks.len() > 0 {
        lemma_first_failure_none_all(checks.drop_last());
        assert forall|i: int| 0 <= i < checks.len() implies checks[i] is None by {
            if i < checks.len() - 1 {
                assert(checks.drop_last()[i] == checks[i]);
            }
        }
    }
}

} // verus!
