//! Scoring and ranking: each record is scored against the search term,
//! candidates above the threshold are kept in snapshot order, and a
//! directive may re-sort them by memory or by CPU time.
//!
//! String similarities are handed in by the caller as integers scaled
//! by `SCORE_SCALE`: one per record for the lowercased name, one for
//! the lowercased display label, both measured against the lowercased
//! search term.
use crate::process::{ProcessRecord, ScoredCandidate, SCORE_SCALE, SCORE_THRESHOLD};
use crate::sorting::{
    insert_desc, lemma_insert_desc_at, lemma_sort_desc_props, sort_desc, sorted_desc_by,
};
use crate::text::{parse_i32, spec_parse_i32};
use vstd::prelude::*;
use vstd::seq_lib::lemma_multiset_commutative;

verus! {

/// The key the default ordering sorts by.
pub open spec fn score_key() -> spec_fn(ScoredCandidate) -> int {
    |c: ScoredCandidate| c.score as int
}

/// The key the `sort:memory` ordering sorts by.
pub open spec fn memory_key() -> spec_fn(ScoredCandidate) -> int {
    |c: ScoredCandidate| c.memory_bytes as int
}

/// The key the `sort:cpu` ordering sorts by: the duration paired with
/// each candidate.
pub open spec fn cpu_key() -> spec_fn((ScoredCandidate, u64)) -> int {
    |p: (ScoredCandidate, u64)| p.1 as int
}

/// The score of one record: the greatest of the name similarity, the
/// exact-pid bonus, and the display-label similarity.
pub open spec fn spec_score(term: Seq<char>, pid: int, sim_name: int, sim_label: int) -> int {
    let bonus: int = if spec_parse_i32(term) == Some(pid) {
        SCORE_SCALE as int
    } else {
        0
    };
    let m: int = if sim_name >= bonus {
        sim_name
    } else {
        bonus
    };
    if sim_label >= m {
        sim_label
    } else {
        m
    }
}

/// Scores one record against the search term. `sim_name` and
/// `sim_label` are the scaled string similarities of the term to the
/// record's name and to its display label.
pub fn score_record(term: &str, rec: &ProcessRecord, sim_name: u32, sim_label: u32) -> (score: u32)
    requires
        sim_name <= SCORE_SCALE,
        sim_label <= SCORE_SCALE,
    ensures
        score as int == spec_score(term@, rec.pid as int, sim_name as int, sim_label as int),
        score <= SCORE_SCALE,
{
    let bonus: u32 = match parse_i32(term) {
        Some(v) => {
            if v == rec.pid {
                SCORE_SCALE
            } else {
                0
            }
        },
        None => 0,
    };
    let m = if sim_name >= bonus {
        sim_name
    } else {
        bonus
    };
    if sim_label >= m {
        sim_label
    } else {
        m
    }
}

/// A search term equal to a record's pid in decimal always scores the
/// full scale: the exact-pid bonus dominates both similarities.
pub proof fn lemma_exact_pid_scores_full(term: Seq<char>, pid: i32, sim_name: u32, sim_label: u32)
    requires
        term == crate::text::spec_dec_i32(pid as int),
        sim_name <= SCORE_SCALE,
        sim_label <= SCORE_SCALE,
    ensures
        spec_score(term, pid as int, sim_name as int, sim_label as int) == SCORE_SCALE as int,
{
    crate::text::lemma_parse_dec_round_trip(pid as int);
}

/// The candidate a record becomes under a given score.
pub open spec fn spec_candidate(rec: ProcessRecord, sc: u32) -> ScoredCandidate {
    ScoredCandidate { score: sc, pid: rec.pid, name: rec.name, memory_bytes: rec.memory_bytes }
}

/// The candidates whose score passes the threshold, in snapshot order,
/// each carrying its score.
pub open spec fn spec_best_matches(
    term: Seq<char>,
    procs: Seq<ProcessRecord>,
    sims: Seq<(u32, u32)>,
) -> Seq<ScoredCandidate>
    decreases procs.len(),
{
    if procs.len() == 0 || sims.len() == 0 {
        Seq::empty()
    } else {
        let sc = spec_score(term, procs[0].pid as int, sims[0].0 as int, sims[0].1 as int);
        let rest = spec_best_matches(term, procs.drop_first(), sims.drop_first());
        if sc > SCORE_THRESHOLD as int {
            seq![spec_candidate(procs[0], sc as u32)] + rest
        } else {
            rest
        }
    }
}

/// Every candidate the threshold lets through scores strictly above it.
pub proof fn lemma_matches_above_threshold(
    term: Seq<char>,
    procs: Seq<ProcessRecord>,
    sims: Seq<(u32, u32)>,
)
    requires
        forall|i: int|
            0 <= i < sims.len() ==> (#[trigger] sims[i]).0 <= SCORE_SCALE && sims[i].1
                <= SCORE_SCALE,
    ensures
        forall|k: int|
            0 <= k < spec_best_matches(term, procs, sims).len() ==> (#[trigger] spec_best_matches(
                term,
                procs,
                sims,
            )[k]).score > SCORE_THRESHOLD,
    decreases procs.len(),
{
    if procs.len() == 0 || sims.len() == 0 {
    } else {
        assert(forall|i: int|
            0 <= i < sims.drop_first().len() ==> (#[trigger] sims.drop_first()[i]).0 <= SCORE_SCALE
                && sims.drop_first()[i].1 <= SCORE_SCALE);
        lemma_matches_above_threshold(term, procs.drop_first(), sims.drop_first());
        let sc = spec_score(term, procs[0].pid as int, sims[0].0 as int, sims[0].1 as int);
        let rest = spec_best_matches(term, procs.drop_first(), sims.drop_first());
        let whole = spec_best_matches(term, procs, sims);
        if sc > SCORE_THRESHOLD as int {
            assert(sims[0].0 <= SCORE_SCALE && sims[0].1 <= SCORE_SCALE);
            assert(0 <= sc <= SCORE_SCALE as int);
            assert forall|k: int| 0 <= k < whole.len() implies (#[trigger] whole[k]).score
                > SCORE_THRESHOLD by {
                if k == 0 {
                    assert(whole[0].score == sc as u32);
                } else {
                    assert(whole[k] == rest[k - 1]);
                }
            }
        }
    }
}

/// Scores every record and keeps those above the threshold, in
/// snapshot order. `sims[i]` holds the scaled name and label
/// similarities of `processes[i]` against the search term.
pub fn get_best_matches(
    term: &str,
    processes: &Vec<ProcessRecord>,
    sims: &Vec<(u32, u32)>,
) -> (r: Vec<ScoredCandidate>)
    requires
        sims@.len() == processes@.len(),
        forall|i: int|
            0 <= i < sims@.len() ==> (#[trigger] sims@[i]).0 <= SCORE_SCALE && sims@[i].1
                <= SCORE_SCALE,
    ensures
        r@ == spec_best_matches(term@, processes@, sims@),
        forall|k: int| 0 <= k < r@.len() ==> (#[trigger] r@[k]).score > SCORE_THRESHOLD,
{
    let n = processes.len();
    let mut r: Vec<ScoredCandidate> = Vec::new();
    let mut i: usize = 0;
    proof {
        assert(processes@.skip(0) =~= processes@);
        assert(sims@.skip(0) =~= sims@);
        assert(r@ + spec_best_matches(term@, processes@, sims@) =~= spec_best_matches(
            term@,
            processes@,
            sims@,
        ));
    }
    while i < n
        invariant
            i <= n,
            n == processes@.len(),
            sims@.len() == processes@.len(),
            forall|k: int|
                0 <= k < sims@.len() ==> (#[trigger] sims@[k]).0 <= SCORE_SCALE && sims@[k].1
                    <= SCORE_SCALE,
            spec_best_matches(term@, processes@, sims@) == r@ + spec_best_matches(
                term@,
                processes@.skip(i as int),
                sims@.skip(i as int),
            ),
        decreases n - i,
    {
        let ghost ps = processes@.skip(i as int);
        let ghost ss = sims@.skip(i as int);
        proof {
            assert(ps[0] == processes@[i as int]);
            assert(ss[0] == sims@[i as int]);
            assert(ps.drop_first() =~= processes@.skip(i + 1));
            assert(ss.drop_first() =~= sims@.skip(i + 1));
        }
        let sim = sims[i];
        let score = score_record(term, &processes[i], sim.0, sim.1);
        if score > SCORE_THRESHOLD {
            let cand = ScoredCandidate {
                score,
                pid: processes[i].pid,
                name: processes[i].name.clone(),
                memory_bytes: processes[i].memory_bytes,
            };
            proof {
                assert(cand == spec_candidate(ps[0], score));
            }
            r.push(cand);
            proof {
                assert(r@ + spec_best_matches(term@, processes@.skip(i + 1), sims@.skip(i + 1))
                    =~= r@.drop_last() + (seq![spec_candidate(ps[0], score)]
                    + spec_best_matches(term@, ps.drop_first(), ss.drop_first())));
            }
        } else {
            proof {
                assert(spec_best_matches(term@, ps, ss) == spec_best_matches(
                    term@,
                    processes@.skip(i + 1),
                    sims@.skip(i + 1),
                ));
            }
        }
        i += 1;
    }
    proof {
        assert(processes@.skip(n as int) =~= Seq::<ProcessRecord>::empty());
        assert(sims@.skip(n as int) =~= Seq::<(u32, u32)>::empty());
        assert(r@ + Seq::<ScoredCandidate>::empty() =~= r@);
        lemma_matches_above_threshold(term@, processes@, sims@);
    }
    r
}

/// Places `x` into the sorted vector before the first candidate with
/// strictly less memory.
fn insert_by_memory(out: &mut Vec<ScoredCandidate>, x: ScoredCandidate)
    ensures
        final(out)@ == insert_desc(old(out)@, x, memory_key()),
{
    let mut j: usize = 0;
    while j < out.len() && out[j].memory_bytes >= x.memory_bytes
        invariant
            j <= out@.len(),
            out@ == old(out)@,
            forall|k: int| 0 <= k < j ==> (#[trigger] out@[k]).memory_bytes >= x.memory_bytes,
        decreases out@.len() - j,
    {
        j += 1;
    }
    proof {
        assert(forall|k: int| 0 <= k < j ==> memory_key()(#[trigger] out@[k]) >= memory_key()(x));
        lemma_insert_desc_at(out@, x, memory_key(), j as int);
        assert(out@.subrange(0, j as int) + seq![x] + out@.subrange(j as int, out@.len() as int)
            =~= out@.insert(j as int, x));
    }
    out.insert(j, x);
}

/// Places `x` into the sorted vector before the first candidate with a
/// strictly lower score.
fn insert_by_score(out: &mut Vec<ScoredCandidate>, x: ScoredCandidate)
    ensures
        final(out)@ == insert_desc(old(out)@, x, score_key()),
{
    let mut j: usize = 0;
    while j < out.len() && out[j].score >= x.score
        invariant
            j <= out@.len(),
            out@ == old(out)@,
            forall|k: int| 0 <= k < j ==> (#[trigger] out@[k]).score >= x.score,
        decreases out@.len() - j,
    {
        j += 1;
    }
    proof {
        assert(forall|k: int| 0 <= k < j ==> score_key()(#[trigger] out@[k]) >= score_key()(x));
        lemma_insert_desc_at(out@, x, score_key(), j as int);
        assert(out@.subrange(0, j as int) + seq![x] + out@.subrange(j as int, out@.len() as int)
            =~= out@.insert(j as int, x));
    }
    out.insert(j, x);
}

/// Places a candidate-duration pair into the sorted vector before the
/// first pair with a strictly shorter duration.
fn insert_by_cpu(out: &mut Vec<(ScoredCandidate, u64)>, x: (ScoredCandidate, u64))
    ensures
        final(out)@ == insert_desc(old(out)@, x, cpu_key()),
{
    let mut j: usize = 0;
    while j < out.len() && out[j].1 >= x.1
        invariant
            j <= out@.len(),
            out@ == old(out)@,
            forall|k: int| 0 <= k < j ==> (#[trigger] out@[k]).1 >= x.1,
        decreases out@.len() - j,
    {
        j += 1;
    }
    proof {
        assert(forall|k: int| 0 <= k < j ==> cpu_key()(#[trigger] out@[k]) >= cpu_key()(x));
        lemma_insert_desc_at(out@, x, cpu_key(), j as int);
        assert(out@.subrange(0, j as int) + seq![x] + out@.subrange(j as int, out@.len() as int)
            =~= out@.insert(j as int, x));
    }
    out.insert(j, x);
}

/// Reorders the candidates by non-increasing score, stably: candidates
/// of equal score keep their snapshot order.
pub fn sort_by_score(matches: &mut Vec<ScoredCandidate>)
    ensures
        final(matches)@ == sort_desc(old(matches)@, score_key()),
        sorted_desc_by(final(matches)@, score_key()),
        final(matches)@.to_multiset() == old(matches)@.to_multiset(),
{
    let ghost orig = matches@;
    let mut out: Vec<ScoredCandidate> = Vec::new();
    proof {
        assert(orig.subrange(orig.len() - matches@.len(), orig.len() as int) =~= matches@);
        assert(orig.subrange(0, 0) =~= Seq::<ScoredCandidate>::empty());
    }
    while matches.len() > 0
        invariant
            matches@.len() <= orig.len(),
            matches@ == orig.subrange(orig.len() - matches@.len(), orig.len() as int),
            out@ == sort_desc(
                orig.subrange(0, orig.len() - matches@.len()),
                score_key(),
            ),
        decreases matches@.len(),
    {
        let ghost k = orig.len() - matches@.len();
        let x = matches.remove(0);
        proof {
            assert(x == orig[k]);
            assert(matches@ =~= orig.subrange(k + 1, orig.len() as int));
        }
        insert_by_score(&mut out, x);
        proof {
            let tk1 = orig.subrange(0, k + 1);
            assert(tk1.drop_last() =~= orig.subrange(0, k));
            assert(tk1.last() == orig[k]);
            assert(out@ == sort_desc(tk1, score_key()));
        }
    }
    proof {
        assert(orig.subrange(0, orig.len() as int) =~= orig);
        lemma_sort_desc_props(orig, score_key());
    }
    *matches = out;
}

/// Reorders the candidates by non-increasing resident memory, ignoring
/// score.
pub fn sort_by_memory(matches: &mut Vec<ScoredCandidate>)
    ensures
        final(matches)@ == sort_desc(old(matches)@, memory_key()),
        sorted_desc_by(final(matches)@, memory_key()),
        final(matches)@.to_multiset() == old(matches)@.to_multiset(),
{
    let ghost orig = matches@;
    let mut out: Vec<ScoredCandidate> = Vec::new();
    proof {
        assert(orig.subrange(orig.len() - matches@.len(), orig.len() as int) =~= matches@);
        assert(orig.subrange(0, 0) =~= Seq::<ScoredCandidate>::empty());
    }
    while matches.len() > 0
        invariant
            matches@.len() <= orig.len(),
            matches@ == orig.subrange(orig.len() - matches@.len(), orig.len() as int),
            out@ == sort_desc(
                orig.subrange(0, orig.len() - matches@.len()),
                memory_key(),
            ),
        decreases matches@.len(),
    {
        let ghost k = orig.len() - matches@.len();
        let x = matches.remove(0);
        proof {
            assert(x == orig[k]);
            assert(matches@ =~= orig.subrange(k + 1, orig.len() as int));
        }
        insert_by_memory(&mut out, x);
        proof {
            let tk1 = orig.subrange(0, k + 1);
            assert(tk1.drop_last() =~= orig.subrange(0, k));
            assert(tk1.last() == orig[k]);
            assert(out@ == sort_desc(tk1, memory_key()));
        }
    }
    proof {
        assert(orig.subrange(0, orig.len() as int) =~= orig);
        lemma_sort_desc_props(orig, memory_key());
    }
    *matches = out;
}

/// Each candidate paired with its looked-up CPU duration.
pub open spec fn spec_zip_cpu(ms: Seq<ScoredCandidate>, ts: Seq<u64>) -> Seq<
    (ScoredCandidate, u64),
> {
    Seq::new(ms.len(), |i: int| (ms[i], ts[i]))
}

/// The candidates of a paired sequence, durations dropped.
pub open spec fn spec_cands_of(ps: Seq<(ScoredCandidate, u64)>) -> Seq<ScoredCandidate> {
    ps.map_values(|p: (ScoredCandidate, u64)| p.0)
}

/// The candidates ordered by non-increasing paired duration.
pub open spec fn spec_sort_by_cpu(ms: Seq<ScoredCandidate>, ts: Seq<u64>) -> Seq<ScoredCandidate> {
    spec_cands_of(sort_desc(spec_zip_cpu(ms, ts), cpu_key()))
}

/// Inserting a pair adds exactly its candidate to the contents.
proof fn lemma_cands_of_insert(ps: Seq<(ScoredCandidate, u64)>, x: (ScoredCandidate, u64))
    ensures
        spec_cands_of(insert_desc(ps, x, cpu_key())).to_multiset() == spec_cands_of(
            ps,
        ).to_multiset().insert(x.0),
    decreases ps.len(),
{
    broadcast use vstd::seq_lib::group_to_multiset_ensures;

    if ps.len() == 0 {
        assert(spec_cands_of(insert_desc(ps, x, cpu_key())) =~= Seq::<
            ScoredCandidate,
        >::empty().push(x.0));
        assert(spec_cands_of(ps) =~= Seq::<ScoredCandidate>::empty());
        assert(spec_cands_of(insert_desc(ps, x, cpu_key())).to_multiset() =~= spec_cands_of(
            ps,
        ).to_multiset().insert(x.0));
    } else if cpu_key()(x) > cpu_key()(ps[0]) {
        assert(spec_cands_of(seq![x] + ps) =~= seq![x.0] + spec_cands_of(ps));
        lemma_multiset_commutative(seq![x.0], spec_cands_of(ps));
        assert(seq![x.0] =~= Seq::<ScoredCandidate>::empty().push(x.0));
        assert(spec_cands_of(insert_desc(ps, x, cpu_key())).to_multiset() =~= spec_cands_of(
            ps,
        ).to_multiset().insert(x.0));
    } else {
        let t = ps.drop_first();
        lemma_cands_of_insert(t, x);
        assert(spec_cands_of(seq![ps[0]] + insert_desc(t, x, cpu_key())) =~= seq![ps[0].0]
            + spec_cands_of(insert_desc(t, x, cpu_key())));
        lemma_multiset_commutative(seq![ps[0].0], spec_cands_of(insert_desc(t, x, cpu_key())));
        lemma_multiset_commutative(seq![ps[0].0], spec_cands_of(t));
        assert(seq![ps[0].0] + spec_cands_of(t) =~= spec_cands_of(ps));
        assert(seq![ps[0].0] =~= Seq::<ScoredCandidate>::empty().push(ps[0].0));
        assert(spec_cands_of(insert_desc(ps, x, cpu_key())).to_multiset() =~= spec_cands_of(
            ps,
        ).to_multiset().insert(x.0));
    }
}

/// Sorting pairs by duration permutes, and only permutes, their
/// candidates.
proof fn lemma_cands_of_sort(ps: Seq<(ScoredCandidate, u64)>)
    ensures
        spec_cands_of(sort_desc(ps, cpu_key())).to_multiset() == spec_cands_of(ps).to_multiset(),
    decreases ps.len(),
{
    broadcast use vstd::seq_lib::group_to_multiset_ensures;

    if ps.len() == 0 {
        assert(spec_cands_of(sort_desc(ps, cpu_key())) =~= spec_cands_of(ps));
    } else {
        let t = ps.drop_last();
        lemma_cands_of_sort(t);
        lemma_cands_of_insert(sort_desc(t, cpu_key()), ps.last());
        assert(spec_cands_of(ps) =~= spec_cands_of(t).push(ps.last().0));
        assert(spec_cands_of(ps).to_multiset() == spec_cands_of(t).to_multiset().insert(
            ps.last().0,
        ));
    }
}

/// The CPU ordering keeps exactly the candidates it was given, orders
/// the pairs by non-increasing duration, and a failed lookup enters as
/// duration zero rather than dropping its candidate.
pub proof fn lemma_sort_by_cpu_props(ms: Seq<ScoredCandidate>, ts: Seq<u64>)
    requires
        ts.len() == ms.len(),
    ensures
        sorted_desc_by(sort_desc(spec_zip_cpu(ms, ts), cpu_key()), cpu_key()),
        spec_sort_by_cpu(ms, ts).to_multiset() == ms.to_multiset(),
        spec_sort_by_cpu(ms, ts).len() == ms.len(),
{
    lemma_sort_desc_props(spec_zip_cpu(ms, ts), cpu_key());
    lemma_cands_of_sort(spec_zip_cpu(ms, ts));
    assert(spec_cands_of(spec_zip_cpu(ms, ts)) =~= ms);
}

/// Reorders the candidates by non-increasing CPU duration.
/// `cpu_times[i]` is the duration looked up for `matches[i]`, zero
/// where the lookup failed.
pub fn sort_by_cpu_time(matches: &mut Vec<ScoredCandidate>, cpu_times: &Vec<u64>)
    requires
        cpu_times@.len() == old(matches)@.len(),
    ensures
        final(matches)@ == spec_sort_by_cpu(old(matches)@, cpu_times@),
        final(matches)@.to_multiset() == old(matches)@.to_multiset(),
{
    let ghost orig = matches@;
    let ghost zs = spec_zip_cpu(orig, cpu_times@);
    let n0: usize = matches.len();
    let mut pairs: Vec<(ScoredCandidate, u64)> = Vec::new();
    let mut idx: usize = 0;
    proof {
        assert(matches@ =~= orig.subrange(0, orig.len() as int));
        assert(pairs@ =~= zs.subrange(0, 0));
    }
    while matches.len() > 0
        invariant
            cpu_times@.len() == orig.len(),
            orig.len() == n0,
            zs == spec_zip_cpu(orig, cpu_times@),
            idx + matches@.len() == orig.len(),
            matches@ == orig.subrange(idx as int, orig.len() as int),
            pairs@ == zs.subrange(0, idx as int),
        decreases matches@.len(),
    {
        let x = matches.remove(0);
        let t = cpu_times[idx];
        proof {
            assert(x == orig[idx as int]);
            assert(matches@ =~= orig.subrange(idx + 1, orig.len() as int));
        }
        pairs.push((x, t));
        idx += 1;
        proof {
            assert(pairs@ =~= zs.subrange(0, idx as int));
        }
    }
    proof {
        assert(pairs@ =~= zs);
        assert(zs.subrange(zs.len() - pairs@.len(), zs.len() as int) =~= pairs@);
        assert(zs.subrange(0, 0) =~= Seq::<(ScoredCandidate, u64)>::empty());
    }
    let mut out: Vec<(ScoredCandidate, u64)> = Vec::new();
    while pairs.len() > 0
        invariant
            pairs@.len() <= zs.len(),
            pairs@ == zs.subrange(zs.len() - pairs@.len(), zs.len() as int),
            out@ == sort_desc(zs.subrange(0, zs.len() - pairs@.len()), cpu_key()),
        decreases pairs@.len(),
    {
        let ghost k = zs.len() - pairs@.len();
        let p = pairs.remove(0);
        proof {
            assert(p == zs[k]);
            assert(pairs@ =~= zs.subrange(k + 1, zs.len() as int));
        }
        insert_by_cpu(&mut out, p);
        proof {
            let tk1 = zs.subrange(0, k + 1);
            assert(tk1.drop_last() =~= zs.subrange(0, k));
            assert(tk1.last() == zs[k]);
            assert(out@ == sort_desc(tk1, cpu_key()));
        }
    }
    proof {
        assert(zs.subrange(0, zs.len() as int) =~= zs);
    }
    let ghost sorted_pairs = sort_desc(zs, cpu_key());
    proof {
        lemma_sort_desc_props(zs, cpu_key());
        assert(matches@ =~= spec_cands_of(sorted_pairs.subrange(0, 0)));
        assert(out@ =~= sorted_pairs.subrange(sorted_pairs.len() - out@.len(), sorted_pairs.len() as int));
    }
    while out.len() > 0
        invariant
            out@.len() <= sorted_pairs.len(),
            out@ == sorted_pairs.subrange(
                sorted_pairs.len() - out@.len(),
                sorted_pairs.len() as int,
            ),
            matches@ == spec_cands_of(
                sorted_pairs.subrange(0, sorted_pairs.len() - out@.len()),
            ),
        decreases out@.len(),
    {
        let ghost k = sorted_pairs.len() - out@.len();
        let p = out.remove(0);
        proof {
            assert(p == sorted_pairs[k]);
            assert(out@ =~= sorted_pairs.subrange(k + 1, sorted_pairs.len() as int));
        }
        matches.push(p.0);
        proof {
            assert(matches@ =~= spec_cands_of(sorted_pairs.subrange(0, k + 1)));
        }
    }
    proof {
        assert(sorted_pairs.subrange(0, sorted_pairs.len() as int) =~= sorted_pairs);
        lemma_sort_by_cpu_props(orig, cpu_times@);
    }
}

} // verus!
