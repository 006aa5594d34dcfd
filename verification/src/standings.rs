//! The contest's final standings.

use vstd::prelude::*;

verus! {

/// Player `a` ranks ahead of player `b` by `scores`: a higher score, or the
/// same score and a lower number.
pub open spec fn ahead(scores: Seq<i64>, a: int, b: int) -> bool {
    scores[a] > scores[b] || (scores[a] == scores[b] && a < b)
}

/// Whether `quitter` names one of the `n` players.
pub open spec fn quits(quitter: Option<usize>, n: int) -> bool {
    quitter is Some && quitter->0 < n
}

/// The players ranked: those whose program ran to the end by score, highest
/// first (the lower number first on equal scores), then the one whose
/// program closed, where one did.
pub fn ranking(scores: &Vec<i64>, quitter: Option<usize>) -> (r: Vec<usize>)
    ensures
        r@.len() == scores@.len(),
        forall|i: int| 0 <= i < r@.len() ==> #[trigger] r@[i] < scores@.len(),
        forall|i: int, j: int| 0 <= i < j < r@.len() ==> r@[i] != r@[j],
        quits(quitter, scores@.len() as int) ==> r@.last() == quitter->0,
        forall|i: int, j: int|
            0 <= i < j < r@.len() && !(quits(quitter, scores@.len() as int) && j == r@.len() - 1) ==> ahead(
                scores@,
                r@[i] as int,
                r@[j] as int,
            ),
{
    let n = scores.len();
    let mut r: Vec<usize> = Vec::new();
    let mut i: usize = 0;
    while i < n
        invariant
            i <= n,
            n == scores.len(),
            r@.len() == i - if quits(quitter, i as int) { 1int } else { 0int },
            forall|k: int| 0 <= k < r@.len() ==> #[trigger] r@[k] < i && Some(r@[k]) != quitter,
            forall|a: int, b: int| 0 <= a < b < r@.len() ==> ahead(scores@, r@[a] as int, r@[b] as int),
        decreases n - i,
    {
        if quitter != Some(i) {
            let mut p: usize = 0;
            while p < r.len() && !(scores[r[p]] < scores[i] || (scores[r[p]] == scores[i] && i < r[p]))
                invariant
                    p <= r@.len(),
                    n == scores.len(),
                    i < n,
                    forall|k: int| 0 <= k < r@.len() ==> #[trigger] r@[k] < i,
                    forall|k: int| 0 <= k < p ==> ahead(scores@, #[trigger] r@[k] as int, i as int),
                decreases r@.len() - p,
            {
                p = p + 1;
            }
            let ghost old_r = r@;
            assert(p == old_r.len() || ahead(scores@, i as int, old_r[p as int] as int));
            r.insert(p, i);
            assert forall|a: int, b: int| 0 <= a < b < r@.len() implies ahead(scores@, r@[a] as int, r@[b] as int) by {
                let x = if a < p { old_r[a] } else if a == p { i } else { old_r[a - 1] };
                let y = if b < p { old_r[b] } else if b == p { i } else { old_r[b - 1] };
                assert(r@[a] == x && r@[b] == y);
                if b > p {
                    assert(ahead(scores@, i as int, old_r[p as int] as int));
                    if b - 1 > p {
                        assert(ahead(scores@, old_r[p as int] as int, old_r[b - 1] as int));
                    }
                    if a < p {
                        assert(ahead(scores@, old_r[a] as int, i as int));
                    }
                    if a > p {
                        assert(ahead(scores@, old_r[a - 1] as int, old_r[b - 1] as int));
                    }
                } else if b == p {
                    assert(ahead(scores@, old_r[a] as int, i as int));
                } else {
                    assert(ahead(scores@, old_r[a] as int, old_r[b] as int));
                }
            }
            assert forall|k: int| 0 <= k < r@.len() implies #[trigger] r@[k] < i + 1 && Some(r@[k]) != quitter by {
                if k < p {
                    assert(r@[k] == old_r[k]);
                } else if k > p {
                    assert(r@[k] == old_r[k - 1]);
                }
            }
        }
        i = i + 1;
    }
    let ghost sorted = r@;
    assert forall|a: int, b: int| 0 <= a < b < sorted.len() implies sorted[a] != sorted[b] by {
        assert(ahead(scores@, sorted[a] as int, sorted[b] as int));
    }
    match quitter {
        Some(q) => {
            if q < n {
                r.push(q);
                assert forall|a: int, b: int| 0 <= a < b < r@.len() implies r@[a] != r@[b] by {
                    if b == r@.len() - 1 {
                        assert(Some(sorted[a]) != quitter);
                    } else {
                        assert(sorted[a] != sorted[b]);
                    }
                }
            }
        },
        None => {},
    }
    r
}

} // verus!
