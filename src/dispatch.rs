//! Collection of the per-baseline results of the flagging engine.
//!
//! The engine runs on each baseline's buffer independently, in any order and
//! on any number of workers; each run hands back its baseline and its mask.
//! Collecting them checks that every baseline came back exactly once and puts
//! the masks in baseline order.
use vstd::prelude::*;
use crate::geometry::Geometry;
use crate::flags::{FlagMask, mask_matches_image};
use vstd::set_lib::{set_int_range, lemma_int_range, lemma_map_size, lemma_subset_equality};

verus! {

/// Why per-baseline results could not be collected.
#[derive(Clone, Copy, Debug, PartialEq, Eq, Structural)]
pub enum DispatchError {
    /// A result names a baseline outside the dataset.
    UnknownBaseline { baseline: usize },
    /// Two results name the same baseline.
    DuplicateBaseline { baseline: usize },
    /// No result names this baseline.
    MissingBaseline { baseline: usize },
    /// The flagging engine failed on this baseline.
    EngineError { baseline: usize },
    /// The engine's mask for this baseline does not have the image's shape.
    DimensionMismatch { baseline: usize },
}

/// Result `i` names a baseline that is out of range or already named by an
/// earlier result.
pub open spec fn result_is_bad<T>(num_baselines: nat, results: Seq<(usize, T)>, i: int) -> bool {
    results[i].0 >= num_baselines || exists|j: int| 0 <= j < i && results[j].0 == results[i].0
}

/// Some result among the first `k` names baseline `b`.
pub open spec fn named_before<T>(results: Seq<(usize, T)>, k: int, b: int) -> bool {
    exists|i: int| 0 <= i < k && results[i].0 == b
}

/// Every baseline below `num_baselines` is named by exactly one result, and no
/// other baseline is named.
pub open spec fn is_total<T>(num_baselines: nat, results: Seq<(usize, T)>) -> bool {
    &&& forall|i: int| 0 <= i < results.len() ==> !result_is_bad(num_baselines, results, i)
    &&& forall|b: int| 0 <= b < num_baselines ==> named_before(results, results.len() as int, b)
}

/// `e` is the error that results failing totality give: the first result, in
/// the order given, that names an unknown or repeated baseline; failing that,
/// the lowest baseline that no result names.
pub open spec fn totality_error<T>(num_baselines: nat, results: Seq<(usize, T)>, e: DispatchError) -> bool {
    match e {
        DispatchError::UnknownBaseline { baseline } => exists|i: int|
            0 <= i < results.len() && result_is_bad(num_baselines, results, i) && (forall|j: int|
                0 <= j < i ==> !result_is_bad(num_baselines, results, j)) && results[i].0 == baseline
                && baseline >= num_baselines,
        DispatchError::DuplicateBaseline { baseline } => exists|i: int|
            0 <= i < results.len() && result_is_bad(num_baselines, results, i) && (forall|j: int|
                0 <= j < i ==> !result_is_bad(num_baselines, results, j)) && results[i].0 == baseline
                && baseline < num_baselines,
        DispatchError::MissingBaseline { baseline } => (forall|i: int|
            0 <= i < results.len() ==> !result_is_bad(num_baselines, results, i)) && baseline
            < num_baselines && !named_before(results, results.len() as int, baseline as int) && (
        forall|b: int| 0 <= b < baseline ==> named_before(results, results.len() as int, b)),
        _ => false,
    }
}

/// Puts the engine's results in baseline order. Succeeds exactly when every
/// baseline below `num_baselines` comes back exactly once and nothing else
/// comes back; then the result has one entry per baseline, the value that
/// came back for it. Otherwise it names the first result, in the order given,
/// whose baseline is unknown or repeated; failing that, the lowest baseline
/// that did not come back.
pub fn collect_baseline_results<T>(num_baselines: usize, results: Vec<(usize, T)>) -> (r: Result<
    Vec<T>,
    DispatchError,
>)
    ensures
        r is Ok <==> is_total(num_baselines as nat, results@),
        r matches Ok(v) ==> (v@.len() == num_baselines && forall|i: int|
            0 <= i < results@.len() ==> v@[#[trigger] results@[i].0 as int] == results@[i].1),
        r matches Err(e) ==> totality_error(num_baselines as nat, results@, e),
{
    let n = num_baselines;
    let ghost rs = results@;
    let mut seen: Vec<bool> = Vec::new();
    let mut b: usize = 0;
    while b < n
        invariant
            b <= n,
            seen@.len() == b,
            forall|m: int| 0 <= m < b ==> !seen@[m],
        decreases n - b,
    {
        seen.push(false);
        b += 1;
    }
    let mut i: usize = 0;
    while i < results.len()
        invariant
            n == num_baselines,
            results@ == rs,
            seen@.len() == n,
            i <= rs.len(),
            forall|j: int| 0 <= j < i ==> !result_is_bad(n as nat, rs, j),
            forall|m: int| 0 <= m < n ==> (seen@[m] <==> named_before(rs, i as int, m)),
        decreases rs.len() - i,
    {
        let key = results[i].0;
        if key >= n {
            proof {
                assert(result_is_bad(n as nat, rs, i as int));
                assert(!is_total(n as nat, rs));
            }
            return Err(DispatchError::UnknownBaseline { baseline: key });
        }
        if seen[key] {
            proof {
                let j = choose|j: int| 0 <= j < i && rs[j].0 == key;
                assert(result_is_bad(n as nat, rs, i as int));
            }
            return Err(DispatchError::DuplicateBaseline { baseline: key });
        }
        proof {
            assert forall|j: int| 0 <= j < i + 1 implies !result_is_bad(n as nat, rs, j) by {
                if j == i {
                    if exists|k: int| 0 <= k < j && rs[k].0 == rs[j].0 {
                        assert(named_before(rs, i as int, key as int));
                    }
                }
            }
        }
        seen.set(key, true);
        proof {
            assert forall|m: int| 0 <= m < n implies (seen@[m] <==> named_before(
                rs,
                i + 1,
                m,
            )) by {
                if m != key {
                    if named_before(rs, i + 1, m) {
                        let k = choose|k: int| 0 <= k < i + 1 && rs[k].0 == m;
                        assert(k < i);
                    }
                } else {
                    assert(rs[i as int].0 == m);
                }
            }
        }
        i += 1;
    }
    let mut b: usize = 0;
    while b < n
        invariant
            n == num_baselines,
            results@ == rs,
            forall|j: int| 0 <= j < rs.len() ==> !result_is_bad(n as nat, rs, j),
            seen@.len() == n,
            b <= n,
            forall|m: int| 0 <= m < n ==> (seen@[m] <==> named_before(rs, rs.len() as int, m)),
            forall|m: int| 0 <= m < b ==> seen@[m],
        decreases n - b,
    {
        if !seen[b] {
            proof {
                assert(!named_before(rs, rs.len() as int, b as int));
                assert(!is_total(n as nat, rs));
                assert forall|i: int| 0 <= i < rs.len() implies !result_is_bad(n as nat, rs, i) by {
                }
                assert forall|m: int| 0 <= m < b implies named_before(rs, rs.len() as int, m) by {
                    assert(seen@[m]);
                }
            }
            return Err(DispatchError::MissingBaseline { baseline: b });
        }
        b += 1;
    }
    proof {
        assert forall|m: int| 0 <= m < n implies named_before(rs, rs.len() as int, m) by {
            assert(seen@[m]);
        }
        assert(is_total(n as nat, rs));
    }
    let mut slots: Vec<Option<T>> = Vec::new();
    let mut b: usize = 0;
    while b < n
        invariant
            b <= n,
            slots@.len() == b,
            forall|m: int| 0 <= m < b ==> slots@[m] is None,
        decreases n - b,
    {
        slots.push(None);
        b += 1;
    }
    let mut rest = results;
    while rest.len() > 0
        invariant
            is_total(n as nat, rs),
            slots@.len() == n,
            rest@.len() <= rs.len(),
            rest@ == rs.subrange(0, rest@.len() as int),
            forall|m: int|
                0 <= m < n ==> (slots@[m] is Some <==> exists|j: int|
                    rest@.len() <= j < rs.len() && rs[j].0 == m),
            forall|j: int|
                rest@.len() <= j < rs.len() ==> slots@[#[trigger] rs[j].0 as int] == Some(rs[j].1),
        decreases rest@.len(),
    {
        let ghost k = rest@.len() - 1;
        let (key, value) = rest.pop().unwrap();
        proof {
            assert(rs[k].0 == key && rs[k].1 == value);
            assert(!result_is_bad(n as nat, rs, k));
        }
        slots.set(key, Some(value));
        proof {
            assert forall|j: int| rest@.len() <= j < rs.len() implies slots@[#[trigger] rs[j].0 as int]
                == Some(rs[j].1) by {
                assert(!result_is_bad(n as nat, rs, j));
                if j != k && rs[j].0 == key {
                    assert(rs[k].0 == rs[j].0);
                    assert(result_is_bad(n as nat, rs, j));
                }
            }
            assert forall|m: int| 0 <= m < n implies (slots@[m] is Some <==> exists|j: int|
                rest@.len() <= j < rs.len() && rs[j].0 == m) by {
                if m == key {
                    assert(rs[k].0 == m);
                } else {
                    if exists|j: int| rest@.len() <= j < rs.len() && rs[j].0 == m {
                        let j = choose|j: int| rest@.len() <= j < rs.len() && rs[j].0 == m;
                        assert(j != k);
                    }
                }
            }
        }
    }
    let ghost full = slots@;
    proof {
        assert forall|m: int| 0 <= m < n implies #[trigger] full[m] is Some by {
            assert(named_before(rs, rs.len() as int, m));
            let j = choose|j: int| 0 <= j < rs.len() && rs[j].0 == m;
        }
    }
    let mut reversed: Vec<T> = Vec::new();
    while slots.len() > 0
        invariant
            full.len() == n,
            forall|m: int| 0 <= m < n ==> #[trigger] full[m] is Some,
            slots@.len() + reversed@.len() == n,
            slots@ == full.subrange(0, slots@.len() as int),
            forall|m: int|
                slots@.len() <= m < n ==> reversed@[n - 1 - m] == (#[trigger] full[m])->Some_0,
        decreases slots@.len(),
    {
        let ghost m = slots@.len() - 1;
        let slot = slots.pop().unwrap();
        proof {
            assert(full[m] is Some);
        }
        reversed.push(slot.unwrap());
    }
    let mut out: Vec<T> = Vec::new();
    let ghost rev0 = reversed@;
    while reversed.len() > 0
        invariant
            out@.len() + reversed@.len() == n,
            rev0.len() == n,
            reversed@ == rev0.subrange(0, reversed@.len() as int),
            forall|m: int| 0 <= m < out@.len() ==> #[trigger] out@[m] == rev0[n - 1 - m],
        decreases reversed@.len(),
    {
        let value = reversed.pop().unwrap();
        out.push(value);
    }
    proof {
        assert forall|i: int| 0 <= i < results@.len() implies out@[#[trigger] results@[i].0 as int]
            == results@[i].1 by {
            assert(!result_is_bad(n as nat, rs, i));
            assert(full[rs[i].0 as int] == Some(rs[i].1));
        }
    }
    Ok(out)
}

/// The value that the result naming baseline `b` carries.
pub open spec fn result_for<T>(results: Seq<(usize, T)>, b: int) -> T {
    results[choose|i: int| 0 <= i < results.len() && results[i].0 == b].1
}

/// The engine run of baseline `b` failed, or gave a mask of another shape
/// than the image.
pub open spec fn engine_fault<E>(g: Geometry, results: Seq<(usize, Result<FlagMask, E>)>, b: int) -> bool {
    match result_for(results, b) {
        Ok(mask) => !mask_matches_image(g, mask),
        Err(_) => true,
    }
}

/// Collects the flagging engine's runs, one per baseline of `g`, into the
/// masks in baseline order. Fails as `collect_baseline_results` does when the
/// runs are not one per baseline; otherwise fails at the lowest baseline whose
/// run failed (`EngineError`) or gave a mask of another shape than its image
/// (`DimensionMismatch`). No mask is handed out unless every run succeeded.
pub fn collect_flag_masks<E>(g: &Geometry, results: Vec<(usize, Result<FlagMask, E>)>) -> (r: Result<
    Vec<FlagMask>,
    DispatchError,
>)
    requires
        g.wf(),
    ensures
        !is_total(g.num_baselines as nat, results@) ==> (r matches Err(e) && totality_error(
            g.num_baselines as nat,
            results@,
            e,
        )),
        is_total(g.num_baselines as nat, results@) ==> match r {
            Ok(v) => v@.len() == g.num_baselines && forall|b: int|
                0 <= b < g.num_baselines ==> result_for(results@, b) == Ok::<FlagMask, E>(
                    #[trigger] v@[b],
                ) && mask_matches_image(*g, v@[b]),
            Err(e) => exists|b: int|
                0 <= b < g.num_baselines && engine_fault(*g, results@, b) && (forall|c: int|
                    0 <= c < b ==> !engine_fault(*g, results@, c)) && e == (if result_for(
                    results@,
                    b,
                ) is Err {
                    DispatchError::EngineError { baseline: b as usize }
                } else {
                    DispatchError::DimensionMismatch { baseline: b as usize }
                }),
        },
{
    let nb = g.num_baselines;
    let ghost rs = results@;
    let ordered = match collect_baseline_results(nb, results) {
        Ok(v) => v,
        Err(e) => {
            return Err(e);
        },
    };
    proof {
        assert forall|b: int| 0 <= b < nb implies #[trigger] result_for(rs, b) == ordered@[b] by {
            assert(named_before(rs, rs.len() as int, b));
            let i = choose|i: int| 0 <= i < rs.len() && rs[i].0 == b;
            assert(ordered@[rs[i].0 as int] == rs[i].1);
        }
    }
    let mut b: usize = 0;
    while b < nb
        invariant
            g.wf(),
            nb == g.num_baselines,
            ordered@.len() == nb,
            b <= nb,
            forall|c: int| 0 <= c < nb ==> #[trigger] result_for(rs, c) == ordered@[c],
            forall|c: int| 0 <= c < b ==> !engine_fault(*g, rs, c),
            rs == results@,
            is_total(g.num_baselines as nat, rs),
        decreases nb - b,
    {
        match &ordered[b] {
            Ok(mask) => {
                if !mask.matches_image(g) {
                    proof {
                        assert(result_for(rs, b as int) == ordered@[b as int]);
                        assert(engine_fault(*g, rs, b as int));
                        assert(result_for(rs, b as int) is Ok);
                    }
                    return Err(DispatchError::DimensionMismatch { baseline: b });
                }
            },
            Err(_) => {
                proof {
                    assert(result_for(rs, b as int) == ordered@[b as int]);
                    assert(engine_fault(*g, rs, b as int));
                    assert(result_for(rs, b as int) is Err);
                }
                return Err(DispatchError::EngineError { baseline: b });
            },
        }
        proof {
            assert(result_for(rs, b as int) == ordered@[b as int]);
        }
        b += 1;
    }
    let ghost full = ordered@;
    proof {
        assert forall|c: int| 0 <= c < nb implies (#[trigger] full[c]) is Ok by {
            assert(!engine_fault(*g, rs, c));
            assert(result_for(rs, c) == ordered@[c]);
        }
    }
    let mut rest = ordered;
    let mut reversed: Vec<FlagMask> = Vec::new();
    while rest.len() > 0
        invariant
            full.len() == nb,
            forall|c: int| 0 <= c < nb ==> (#[trigger] full[c]) is Ok,
            rest@.len() + reversed@.len() == nb,
            rest@ == full.subrange(0, rest@.len() as int),
            forall|c: int|
                rest@.len() <= c < nb ==> Ok::<FlagMask, E>(reversed@[nb - 1 - c]) == #[trigger] full[c],
        decreases rest@.len(),
    {
        let ghost c = rest@.len() - 1;
        let item = rest.pop().unwrap();
        proof {
            assert(full[c] is Ok);
        }
        match item {
            Ok(mask) => {
                reversed.push(mask);
            },
            Err(_) => {},
        }
    }
    let ghost rev0 = reversed@;
    let mut out: Vec<FlagMask> = Vec::new();
    while reversed.len() > 0
        invariant
            out@.len() + reversed@.len() == nb,
            rev0.len() == nb,
            reversed@ == rev0.subrange(0, reversed@.len() as int),
            forall|m: int| 0 <= m < out@.len() ==> #[trigger] out@[m] == rev0[nb - 1 - m],
        decreases reversed@.len(),
    {
        let mask = reversed.pop().unwrap();
        out.push(mask);
    }
    proof {
        assert forall|c: int| 0 <= c < nb implies result_for(rs, c) == Ok::<FlagMask, E>(
            #[trigger] out@[c],
        ) && mask_matches_image(*g, out@[c]) by {
            assert(out@[c] == rev0[nb - 1 - c]);
            assert(full[c] == result_for(rs, c));
            assert(!engine_fault(*g, rs, c));
        }
    }
    Ok(out)
}

/// Results that come back one per input baseline, in whatever order the
/// workers finished, are total: every one of the `num_baselines` baselines is
/// named exactly once, so they collect into exactly `num_baselines` entries.
pub proof fn lemma_dispatch_totality<T>(num_baselines: nat, results: Seq<(usize, T)>)
    requires
        results.len() == num_baselines,
        forall|i: int| 0 <= i < results.len() ==> results[i].0 < num_baselines,
        forall|i: int, j: int| 0 <= i < j < results.len() ==> results[i].0 != results[j].0,
    ensures
        is_total(num_baselines, results),
{
    let n = num_baselines as int;
    let idx = set_int_range(0, n);
    let key = |i: int| results[i].0 as int;
    lemma_int_range(0, n);
    assert forall|i: int, j: int| idx.contains(i) && idx.contains(j) && #[trigger] key(i) == #[trigger] key(j)
        implies i == j by {
        if i < j {
            assert(results[i].0 != results[j].0);
        } else if j < i {
            assert(results[j].0 != results[i].0);
        }
    }
    let keys = idx.map(key);
    lemma_map_size(idx, keys, key);
    assert(keys.subset_of(idx)) by {
        assert forall|b: int| keys.contains(b) implies idx.contains(b) by {
            let i = choose|i: int| idx.contains(i) && key(i) == b;
        }
    }
    lemma_subset_equality(keys, idx);
    assert forall|b: int| 0 <= b < num_baselines implies named_before(results, results.len() as int, b) by {
        assert(idx.contains(b));
        assert(keys.contains(b));
        let i = choose|i: int| idx.contains(i) && key(i) == b;
        assert(results[i].0 == b);
    }
    assert forall|i: int| 0 <= i < results.len() implies !result_is_bad(num_baselines, results, i) by {
        if exists|j: int| 0 <= j < i && results[j].0 == results[i].0 {
            let j = choose|j: int| 0 <= j < i && results[j].0 == results[i].0;
            assert(results[j].0 != results[i].0);
        }
    }
}

} // verus!
