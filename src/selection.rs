//! Running minimum and maximum scans over order keys.
//!
//! A scan starts from a given best key and walks the keys in order; a key
//! replaces the best only when it is strictly better, so among equal keys
//! the earliest one is kept, and a NaN key (`None`) never wins.
use vstd::prelude::*;
use crate::float_order::key_lt;

verus! {

/// Best key and index of its position after scanning `keys` for a strictly
/// smaller key, starting from `init`.
pub open spec fn least_run(init: Option<u64>, keys: Seq<Option<u64>>) -> (Option<u64>, Option<int>)
    decreases keys.len(),
{
    if keys.len() == 0 {
        (init, None)
    } else {
        let prev = least_run(init, keys.drop_last());
        if key_lt(keys.last(), prev.0) {
            (keys.last(), Some(keys.len() - 1))
        } else {
            prev
        }
    }
}

/// Best key and index of its position after scanning `keys` for a strictly
/// larger key, starting from `init`.
pub open spec fn greatest_run(init: Option<u64>, keys: Seq<Option<u64>>) -> (Option<u64>, Option<int>)
    decreases keys.len(),
{
    if keys.len() == 0 {
        (init, None)
    } else {
        let prev = greatest_run(init, keys.drop_last());
        if key_lt(prev.0, keys.last()) {
            (keys.last(), Some(keys.len() - 1))
        } else {
            prev
        }
    }
}

/// Best key and index of its position after scanning `keys` for the least
/// present key: the first present key is taken, and a later one only when
/// strictly smaller. NaN keys are passed over.
pub open spec fn least_present_run(keys: Seq<Option<u64>>) -> (Option<u64>, Option<int>)
    decreases keys.len(),
{
    if keys.len() == 0 {
        (None, None)
    } else {
        let prev = least_present_run(keys.drop_last());
        let k = keys.last();
        if k is Some && (prev.0 is None || key_lt(k, prev.0)) {
            (k, Some(keys.len() - 1))
        } else {
            prev
        }
    }
}

/// No key is NaN.
pub open spec fn all_present(keys: Seq<Option<u64>>) -> bool {
    forall|i: int| 0 <= i < keys.len() ==> (#[trigger] keys[i]) is Some
}

/// Index of the last strict improvement of a running minimum that starts at
/// `init`; none when no key is strictly below it.
pub fn scan_least(init: Option<u64>, keys: &Vec<Option<u64>>) -> (r: Option<usize>)
    ensures
        r == (match least_run(init, keys@).1 {
            Some(j) => Some(j as usize),
            None => None::<usize>,
        }),
        r matches Some(j) ==> j < keys.len(),
{
    let mut best = init;
    let mut idx: Option<usize> = None;
    let mut i: usize = 0;
    while i < keys.len()
        invariant
            i <= keys.len(),
            (best, match idx { Some(j) => Some(j as int), None => None::<int> })
                == least_run(init, keys@.take(i as int)),
            idx matches Some(j) ==> j < i,
        decreases keys.len() - i,
    {
        proof {
            assert(keys@.take(i as int + 1).drop_last() =~= keys@.take(i as int));
        }
        let k = keys[i];
        let better = match (k, best) {
            (Some(x), Some(y)) => x < y,
            _ => false,
        };
        if better {
            best = k;
            idx = Some(i);
        }
        i = i + 1;
    }
    proof {
        assert(keys@.take(keys.len() as int) =~= keys@);
    }
    idx
}

/// Position of the first least key among the present ones; none when every
/// key is NaN.
pub fn scan_least_present(keys: &Vec<Option<u64>>) -> (r: Option<usize>)
    ensures
        r == (match least_present_run(keys@).1 {
            Some(j) => Some(j as usize),
            None => None::<usize>,
        }),
        r matches Some(j) ==> j < keys.len(),
{
    let mut best: Option<u64> = None;
    let mut idx: Option<usize> = None;
    let mut i: usize = 0;
    while i < keys.len()
        invariant
            i <= keys.len(),
            (best, match idx { Some(j) => Some(j as int), None => None::<int> })
                == least_present_run(keys@.take(i as int)),
            idx matches Some(j) ==> j < i,
        decreases keys.len() - i,
    {
        proof {
            assert(keys@.take(i as int + 1).drop_last() =~= keys@.take(i as int));
        }
        let k = keys[i];
        let better = match (k, best) {
            (Some(x), Some(y)) => x < y,
            (Some(_), None) => true,
            _ => false,
        };
        if better {
            best = k;
            idx = Some(i);
        }
        i = i + 1;
    }
    proof {
        assert(keys@.take(keys.len() as int) =~= keys@);
    }
    idx
}

/// Index of the last strict improvement of a running maximum that starts at
/// `init`; none when no key is strictly above it.
pub fn scan_greatest(init: Option<u64>, keys: &Vec<Option<u64>>) -> (r: Option<usize>)
    ensures
        r == (match greatest_run(init, keys@).1 {
            Some(j) => Some(j as usize),
            None => None::<usize>,
        }),
        r matches Some(j) ==> j < keys.len(),
{
    let mut best = init;
    let mut idx: Option<usize> = None;
    let mut i: usize = 0;
    while i < keys.len()
        invariant
            i <= keys.len(),
            (best, match idx { Some(j) => Some(j as int), None => None::<int> })
                == greatest_run(init, keys@.take(i as int)),
            idx matches Some(j) ==> j < i,
        decreases keys.len() - i,
    {
        proof {
            assert(keys@.take(i as int + 1).drop_last() =~= keys@.take(i as int));
        }
        let k = keys[i];
        let better = match (best, k) {
            (Some(x), Some(y)) => x < y,
            _ => false,
        };
        if better {
            best = k;
            idx = Some(i);
        }
        i = i + 1;
    }
    proof {
        assert(keys@.take(keys.len() as int) =~= keys@);
    }
    idx
}

/// A minimum scan over keys that are all present picks the first position
/// of the smallest key, provided that key lies strictly below the starting
/// one; otherwise it picks nothing.
pub proof fn lemma_least_is_first_minimum(init: u64, keys: Seq<Option<u64>>)
    requires
        all_present(keys),
    ensures
        least_run(Some(init), keys).0 is Some,
        match least_run(Some(init), keys).1 {
            Some(j) => {
                &&& 0 <= j < keys.len()
                &&& least_run(Some(init), keys).0 == keys[j]
                &&& keys[j].unwrap() < init
                &&& forall|i: int| 0 <= i < keys.len() ==> keys[j].unwrap() <= (#[trigger] keys[i]).unwrap()
                &&& forall|i: int| 0 <= i < j ==> keys[j].unwrap() < (#[trigger] keys[i]).unwrap()
            },
            None => {
                &&& least_run(Some(init), keys).0 == Some(init)
                &&& forall|i: int| 0 <= i < keys.len() ==> init <= (#[trigger] keys[i]).unwrap()
            },
        },
    decreases keys.len(),
{
    if keys.len() > 0 {
        let prefix = keys.drop_last();
        assert forall|i: int| 0 <= i < prefix.len() implies (#[trigger] prefix[i]) is Some by {
            assert(prefix[i] == keys[i]);
        }
        lemma_least_is_first_minimum(init, prefix);
        assert(keys[keys.len() - 1] is Some);
        match least_run(Some(init), prefix).1 {
            Some(j) => {
                assert(prefix[j] == keys[j]);
                assert forall|i: int| 0 <= i < prefix.len() implies keys[j].unwrap() <= (#[trigger] keys[i]).unwrap() by {
                    assert(prefix[i] == keys[i]);
                }
                assert forall|i: int| 0 <= i < j implies keys[j].unwrap() < (#[trigger] keys[i]).unwrap() by {
                    assert(prefix[i] == keys[i]);
                }
            },
            None => {
                assert forall|i: int| 0 <= i < prefix.len() implies init <= (#[trigger] keys[i]).unwrap() by {
                    assert(prefix[i] == keys[i]);
                }
            },
        }
    }
}

/// The least-present scan picks a position exactly when some key is
/// present; the key there is present, at most every present key, and
/// strictly below every present key before it.
pub proof fn lemma_least_present_is_first_minimum(keys: Seq<Option<u64>>)
    ensures
        match least_present_run(keys).1 {
            Some(j) => {
                &&& 0 <= j < keys.len()
                &&& least_present_run(keys).0 == keys[j]
                &&& keys[j] is Some
                &&& forall|i: int| 0 <= i < keys.len() && (#[trigger] keys[i]) is Some ==> keys[j].unwrap() <= keys[i].unwrap()
                &&& forall|i: int| 0 <= i < j && (#[trigger] keys[i]) is Some ==> keys[j].unwrap() < keys[i].unwrap()
            },
            None => {
                &&& least_present_run(keys).0 is None
                &&& forall|i: int| 0 <= i < keys.len() ==> (#[trigger] keys[i]) is None
            },
        },
    decreases keys.len(),
{
    if keys.len() > 0 {
        let prefix = keys.drop_last();
        lemma_least_present_is_first_minimum(prefix);
        match least_present_run(prefix).1 {
            Some(j) => {
                assert(prefix[j] == keys[j]);
                assert forall|i: int| 0 <= i < prefix.len() && (#[trigger] keys[i]) is Some implies keys[j].unwrap() <= keys[i].unwrap() by {
                    assert(prefix[i] == keys[i]);
                }
                assert forall|i: int| 0 <= i < j && (#[trigger] keys[i]) is Some implies keys[j].unwrap() < keys[i].unwrap() by {
                    assert(prefix[i] == keys[i]);
                }
            },
            None => {
                assert forall|i: int| 0 <= i < prefix.len() implies (#[trigger] keys[i]) is None by {
                    assert(prefix[i] == keys[i]);
                }
            },
        }
    }
}

/// A maximum scan over keys that are all present picks the first position
/// of the largest key, provided that key lies strictly above the starting
/// one; otherwise it picks nothing.
pub proof fn lemma_greatest_is_first_maximum(init: u64, keys: Seq<Option<u64>>)
    requires
        all_present(keys),
    ensures
        greatest_run(Some(init), keys).0 is Some,
        match greatest_run(Some(init), keys).1 {
            Some(j) => {
                &&& 0 <= j < keys.len()
                &&& greatest_run(Some(init), keys).0 == keys[j]
                &&& keys[j].unwrap() > init
                &&& forall|i: int| 0 <= i < keys.len() ==> keys[j].unwrap() >= (#[trigger] keys[i]).unwrap()
                &&& forall|i: int| 0 <= i < j ==> keys[j].unwrap() > (#[trigger] keys[i]).unwrap()
            },
            None => {
                &&& greatest_run(Some(init), keys).0 == Some(init)
                &&& forall|i: int| 0 <= i < keys.len() ==> init >= (#[trigger] keys[i]).unwrap()
            },
        },
    decreases keys.len(),
{
    if keys.len() > 0 {
        let prefix = keys.drop_last();
        assert forall|i: int| 0 <= i < prefix.len() implies (#[trigger] prefix[i]) is Some by {
            assert(prefix[i] == keys[i]);
        }
        lemma_greatest_is_first_maximum(init, prefix);
        assert(keys[keys.len() - 1] is Some);
        match greatest_run(Some(init), prefix).1 {
            Some(j) => {
                assert(prefix[j] == keys[j]);
                assert forall|i: int| 0 <= i < prefix.len() implies keys[j].unwrap() >= (#[trigger] keys[i]).unwrap() by {
                    assert(prefix[i] == keys[i]);
                }
                assert forall|i: int| 0 <= i < j implies keys[j].unwrap() > (#[trigger] keys[i]).unwrap() by {
                    assert(prefix[i] == keys[i]);
                }
            },
            None => {
                assert forall|i: int| 0 <= i < prefix.len() implies init >= (#[trigger] keys[i]).unwrap() by {
                    assert(prefix[i] == keys[i]);
                }
            },
        }
    }
}

} // verus!
