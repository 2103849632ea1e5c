use vstd::prelude::*;

verus! {

/// The first index below `n` at which `pred` holds, or -1 where there is none.
pub open spec fn first_where(n: nat, pred: spec_fn(int) -> bool) -> int
    decreases n,
{
    if n == 0 {
        -1
    } else {
        let r = first_where((n - 1) as nat, pred);
        if r >= 0 {
            r
        } else if pred(n - 1) {
            n - 1
        } else {
            -1
        }
    }
}

pub proof fn lemma_first_where(n: nat, pred: spec_fn(int) -> bool)
    ensures
        -1 <= first_where(n, pred) < n,
        first_where(n, pred) == -1 <==> (forall|j: int| 0 <= j < n ==> !#[trigger] pred(j)),
        first_where(n, pred) >= 0 ==> pred(first_where(n, pred)),
        forall|j: int| 0 <= j < first_where(n, pred) ==> !#[trigger] pred(j),
    decreases n,
{
    if n > 0 {
        lemma_first_where((n - 1) as nat, pred);
    }
}

/// Two predicates that agree below `n` have the same first index.
pub proof fn lemma_first_where_agree(n: nat, p1: spec_fn(int) -> bool, p2: spec_fn(int) -> bool)
    requires
        forall|j: int| 0 <= j < n ==> #[trigger] p1(j) == p2(j),
    ensures
        first_where(n, p1) == first_where(n, p2),
    decreases n,
{
    if n > 0 {
        lemma_first_where_agree((n - 1) as nat, p1, p2);
    }
}

pub proof fn lemma_first_where_is(n: nat, pred: spec_fn(int) -> bool, i: int)
    requires
        0 <= i < n,
        pred(i),
        forall|j: int| 0 <= j < i ==> !#[trigger] pred(j),
    ensures
        first_where(n, pred) == i,
{
    lemma_first_where(n, pred);
}

pub proof fn lemma_first_where_push(n: nat, pred: spec_fn(int) -> bool)
    ensures
        first_where(n + 1, pred) == if first_where(n, pred) >= 0 {
            first_where(n, pred)
        } else if pred(n as int) {
            n as int
        } else {
            -1
        },
{
    assert(((n + 1) - 1) as nat == n);
}

} // verus!
