//! Merging the key lines fetched from several sources.
//!
//! A source either delivered a sequence of key lines or failed; a failed
//! source contributes nothing and never disturbs the others. The delivered
//! sequences are concatenated in source order and deduplicated keeping the
//! first occurrence of each key, so cross-source duplicates collapse and
//! first-seen order is preserved.

use vstd::prelude::*;

use crate::editor::contains_line;

verus! {

/// `ks` with every repeated key removed, keeping first occurrences in order.
pub open spec fn dedup_spec(ks: Seq<Seq<char>>) -> Seq<Seq<char>>
    decreases ks.len(),
{
    if ks.len() == 0 {
        Seq::empty()
    } else {
        let rest = dedup_spec(ks.drop_last());
        if ks.take(ks.len() - 1).contains(ks.last()) {
            rest
        } else {
            rest.push(ks.last())
        }
    }
}

/// Deduplication keeps exactly the keys that were there.
pub proof fn lemma_dedup_membership(ks: Seq<Seq<char>>)
    ensures
        forall|x: Seq<char>| #[trigger] dedup_spec(ks).contains(x) == ks.contains(x),
    decreases ks.len(),
{
    if ks.len() == 0 {
    } else {
        lemma_dedup_membership(ks.drop_last());
        assert(ks.take(ks.len() - 1) =~= ks.drop_last());
        assert forall|x: Seq<char>| #[trigger] dedup_spec(ks).contains(x) == ks.contains(x) by {
            if dedup_spec(ks).contains(x) {
                let j = choose|j: int|
                    0 <= j < dedup_spec(ks).len() && dedup_spec(ks)[j] == x;
                if j < dedup_spec(ks.drop_last()).len() {
                    assert(dedup_spec(ks.drop_last()).contains(x));
                    let m = choose|m: int|
                        0 <= m < ks.drop_last().len() && ks.drop_last()[m] == x;
                    assert(ks[m] == x);
                } else {
                    assert(x == ks.last());
                    assert(ks[ks.len() - 1] == x);
                }
            }
            if ks.contains(x) {
                let j = choose|j: int| 0 <= j < ks.len() && ks[j] == x;
                if j < ks.len() - 1 {
                    assert(ks.drop_last()[j] == x);
                    assert(dedup_spec(ks.drop_last()).contains(x));
                    let m = choose|m: int|
                        0 <= m < dedup_spec(ks.drop_last()).len() && dedup_spec(
                            ks.drop_last(),
                        )[m] == x;
                    assert(dedup_spec(ks)[m] == x);
                    assert(dedup_spec(ks).contains(x));
                } else {
                    if ks.drop_last().contains(x) {
                        let m = choose|m: int|
                            0 <= m < dedup_spec(ks.drop_last()).len() && dedup_spec(
                                ks.drop_last(),
                            )[m] == x;
                        assert(dedup_spec(ks)[m] == x);
                        assert(dedup_spec(ks).contains(x));
                    } else {
                        assert(dedup_spec(ks) == dedup_spec(ks.drop_last()).push(x));
                        assert(dedup_spec(ks).last() == x);
                        assert(dedup_spec(ks).contains(x));
                    }
                }
            }
        }
    }
}

/// After deduplication every key occurs exactly once.
pub proof fn lemma_dedup_distinct(ks: Seq<Seq<char>>)
    ensures
        forall|i: int, j: int|
            0 <= i < j < dedup_spec(ks).len() ==> dedup_spec(ks)[i] != dedup_spec(ks)[j],
    decreases ks.len(),
{
    if ks.len() == 0 {
    } else {
        lemma_dedup_distinct(ks.drop_last());
        lemma_dedup_membership(ks.drop_last());
        assert(ks.take(ks.len() - 1) =~= ks.drop_last());
        let d = dedup_spec(ks);
        let prev = dedup_spec(ks.drop_last());
        assert forall|i: int, j: int| 0 <= i < j < d.len() implies d[i] != d[j] by {
            if !ks.drop_last().contains(ks.last()) && j == prev.len() {
                assert(d == prev.push(ks.last()));
                assert(d[i] == prev[i]);
                assert(prev.contains(prev[i]));
                assert(ks.drop_last().contains(prev[i]));
            } else {
                assert(d[i] == prev[i] && d[j] == prev[j]);
            }
        }
    }
}

/// Removes repeated keys, keeping the first occurrence of each in order.
pub fn dedup_keys(keys: &Vec<String>) -> (r: Vec<String>)
    ensures
        r.deep_view() == dedup_spec(keys.deep_view()),
{
    let ghost kdv = keys.deep_view();
    let mut out: Vec<String> = Vec::new();
    let mut i: usize = 0;
    proof {
        assert(kdv.take(0) =~= Seq::<Seq<char>>::empty());
        assert(out.deep_view() =~= dedup_spec(kdv.take(0)));
    }
    while i < keys.len()
        invariant
            i <= keys.len(),
            out.deep_view() == dedup_spec(kdv.take(i as int)),
        decreases keys.len() - i,
    {
        let ghost cur = kdv.take(i + 1);
        proof {
            assert(cur.drop_last() =~= kdv.take(i as int));
            assert(cur.take(cur.len() - 1) =~= kdv.take(i as int));
            assert(cur.last() == kdv[i as int]);
            lemma_dedup_membership(kdv.take(i as int));
        }
        let ghost before = out.deep_view();
        if !contains_line(&out, &keys[i]) {
            out.push(keys[i].clone());
            proof {
                assert(out.deep_view() =~= before.push(kdv[i as int]));
            }
        }
        i += 1;
    }
    proof {
        assert(kdv.take(keys.len() as int) =~= kdv);
    }
    out
}

/// What all the sources together delivered, in source order; a failed
/// source stands as `None` and contributes nothing.
pub open spec fn concat_fetched(rs: Seq<Option<Seq<Seq<char>>>>) -> Seq<Seq<char>>
    decreases rs.len(),
{
    if rs.len() == 0 {
        Seq::empty()
    } else {
        (match rs[0] {
            Some(v) => v,
            None => Seq::empty(),
        }) + concat_fetched(rs.drop_first())
    }
}

/// A failed source leaves the merged result exactly as if that source had
/// not been configured at all.
pub proof fn lemma_failed_source_isolated(rs: Seq<Option<Seq<Seq<char>>>>, i: int)
    requires
        0 <= i < rs.len(),
        rs[i] is None,
    ensures
        concat_fetched(rs) == concat_fetched(rs.remove(i)),
    decreases rs.len(),
{
    if i == 0 {
        assert(rs.remove(0) =~= rs.drop_first());
    } else {
        assert(rs.remove(i).drop_first() =~= rs.drop_first().remove(i - 1));
        assert(rs.remove(i)[0] == rs[0]);
        lemma_failed_source_isolated(rs.drop_first(), i - 1);
    }
}

/// Concatenates the deliveries of the successful sources, in source order,
/// and deduplicates them keeping first-seen order.
pub fn merge_fetched(results: &Vec<Option<Vec<String>>>) -> (r: Vec<String>)
    ensures
        r.deep_view() == dedup_spec(concat_fetched(results.deep_view())),
{
    let ghost rdv = results.deep_view();
    let mut all: Vec<String> = Vec::new();
    let mut i: usize = 0;
    proof {
        assert(rdv.skip(0) =~= rdv);
        assert(all.deep_view() =~= Seq::<Seq<char>>::empty());
    }
    while i < results.len()
        invariant
            i <= results.len(),
            concat_fetched(rdv) == all.deep_view() + concat_fetched(rdv.skip(i as int)),
        decreases results.len() - i,
    {
        let ghost rest = rdv.skip(i as int);
        proof {
            assert(rest[0] == rdv[i as int]);
            assert(rest.drop_first() =~= rdv.skip(i + 1));
        }
        let ghost before = all.deep_view();
        match &results[i] {
            Some(lines) => {
                let mut k: usize = 0;
                while k < lines.len()
                    invariant
                        k <= lines.len(),
                        all.deep_view() == before + lines.deep_view().take(k as int),
                    decreases lines.len() - k,
                {
                    let ghost mid = all.deep_view();
                    all.push(lines[k].clone());
                    proof {
                        let ldv = lines.deep_view();
                        assert(all.deep_view() =~= mid.push(ldv[k as int]));
                        assert(ldv.take(k + 1) =~= ldv.take(k as int).push(ldv[k as int]));
                        assert(mid.push(ldv[k as int]) =~= before + ldv.take(k + 1));
                    }
                    k += 1;
                }
                proof {
                    assert(lines.deep_view().take(lines.len() as int) =~= lines.deep_view());
                    assert(rdv[i as int] == Some(lines.deep_view()));
                    assert(before + (lines.deep_view() + concat_fetched(rdv.skip(i + 1)))
                        =~= all.deep_view() + concat_fetched(rdv.skip(i + 1)));
                }
            },
            None => {
                proof {
                    assert(rdv[i as int] is None);
                    assert(before + (Seq::<Seq<char>>::empty() + concat_fetched(
                        rdv.skip(i + 1),
                    )) =~= all.deep_view() + concat_fetched(rdv.skip(i + 1)));
                }
            },
        }
        i += 1;
    }
    proof {
        assert(rdv.skip(results.len() as int) =~= Seq::<Option<Seq<Seq<char>>>>::empty());
        assert(concat_fetched(rdv) =~= all.deep_view());
    }
    dedup_keys(&all)
}

} // verus!
