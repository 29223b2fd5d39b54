//! Work partitioning for the worker pool.
//!
//! The pool's job list is the multiset of unordered file pairs, self-pairs
//! included, enumerated in row order: `(F[0],F[0]) .. (F[0],F[n-1]),
//! (F[1],F[1]) ..`. `partition_file_combinations` deals that list out
//! round-robin: the pair at position `p` goes to worker `p mod W`, as its
//! `p div W`-th task. Running the workers and carrying their findings back
//! is a collaborator's job; merging them is `update_matches`.

use vstd::prelude::*;

use crate::cli::Cli;
use crate::comp::{
    comparison_lambda, emitted_pair_ok, get_matches_from_2_files, lemma_scan_outer_sound,
    pairs_view, spec_comparator, spec_scan_outer,
};
use crate::merge::{clusters_wf, update_matches, Matches, MatchesLookup};
use crate::props::{
    lemma_merge_step, lemma_merged_from_empty, merged_from,
};
use crate::types::{CompFile, FileCache, MatchV};

verus! {

/// The row-ordered enumeration of the file pairs `(files[i], files[j])`
/// with `i <= j`, starting at row `i`.
pub open spec fn spec_file_pairs(files: Seq<String>, i: int) -> Seq<(String, String)>
    decreases files.len() - i,
{
    if i < 0 || i >= files.len() {
        Seq::<(String, String)>::empty()
    } else {
        Seq::new((files.len() - i) as nat, |t: int| (files[i], files[i + t])) + spec_file_pairs(
            files,
            i + 1,
        )
    }
}

/// What one file pair's scan emits, read from the cache.
pub open spec fn spec_pair_scan(
    args: Cli,
    cache: Map<Seq<char>, Seq<String>>,
    i: int,
    j: int,
) -> Seq<(MatchV, MatchV)> {
    spec_scan_outer(
        spec_comparator(args),
        args.files@[i]@,
        args.files@[j]@,
        cache[args.files@[i]@],
        cache[args.files@[j]@],
        args.line_threshold as int,
        args.block_threshold as int,
        0,
    )
}

/// Whether the scan of the readable pair `(i, j)` emits `p`.
pub open spec fn spec_pair_emits(
    args: Cli,
    cache: Map<Seq<char>, Seq<String>>,
    i: int,
    j: int,
    p: (MatchV, MatchV),
) -> bool {
    &&& 0 <= i <= j < args.files@.len()
    &&& cache.contains_key(args.files@[i]@)
    &&& cache.contains_key(args.files@[j]@)
    &&& spec_pair_scan(args, cache, i, j).contains(p)
}

/// Everything the whole run's scans emit: the findings whose merge is the
/// result, whatever the worker count and arrival order.
pub open spec fn spec_emitted_pairs(args: Cli, cache: Map<Seq<char>, Seq<String>>) -> Set<
    (MatchV, MatchV),
> {
    Set::new(
        |p: (MatchV, MatchV)|
            exists|i: int, j: int| #[trigger] spec_pair_emits(args, cache, i, j, p),
    )
}

/// The findings of the file pairs before `(i, j)` in scan order.
pub open spec fn spec_emitted_before(
    args: Cli,
    cache: Map<Seq<char>, Seq<String>>,
    i: int,
    j: int,
) -> Set<(MatchV, MatchV)> {
    Set::new(
        |p: (MatchV, MatchV)|
            exists|i2: int, j2: int|
                #[trigger] spec_pair_emits(args, cache, i2, j2, p) && (i2 < i || (i2 == i && j2
                    < j)),
    )
}

/// Scan every file pair in order and merge the findings as they come:
/// the serial run, whose result every parallel run must agree with. Every
/// recorded match clears the block threshold and lies within its file.
pub fn get_all_matches(args: &Cli, cache: &FileCache) -> (r: (MatchesLookup, Matches))
    requires
        cache.wf(),
    ensures
        r.0.wf(),
        r.1.wf(),
        clusters_wf(r.0@, r.1@),
        merged_from(spec_emitted_pairs(*args, cache@), r.0@, r.1@),
        forall|m: MatchV|
            #[trigger] r.0@.contains_key(m) ==> cache@.contains_key(m.file)
                && args.block_threshold <= m.size && 1 <= m.line && m.line + m.size <= cache@[m.file].len()
                + 1,
{
    let comp = comparison_lambda(args);
    let mut where_is_match = MatchesLookup::new();
    let mut matches_hash = Matches::new();
    let ghost mut sd: Set<(MatchV, MatchV)> = Set::empty();
    let n = args.files.len();
    proof {
        lemma_merged_from_empty();
        assert forall|p: (MatchV, MatchV)|
            !(#[trigger] spec_emitted_before(*args, cache@, 0, 0).contains(p)) by {
            if spec_emitted_before(*args, cache@, 0, 0).contains(p) {
                let (i2, j2) = choose|i2: int, j2: int|
                    #[trigger] spec_pair_emits(*args, cache@, i2, j2, p) && (i2 < 0 || (i2 == 0
                        && j2 < 0));
                assert(0 <= i2 <= j2);
            }
        }
        assert(sd =~= spec_emitted_before(*args, cache@, 0, 0));
    }
    let mut i: usize = 0;
    while i < n
        invariant
            i <= n,
            n == args.files@.len(),
            comp == spec_comparator(*args),
            cache.wf(),
            where_is_match.wf(),
            matches_hash.wf(),
            clusters_wf(where_is_match@, matches_hash@),
            merged_from(sd, where_is_match@, matches_hash@),
            sd == spec_emitted_before(*args, cache@, i as int, i as int),
        decreases n - i,
    {
        let mut j: usize = i;
        while j < n
            invariant
                i <= j <= n,
                i < n,
                n == args.files@.len(),
                comp == spec_comparator(*args),
                cache.wf(),
                where_is_match.wf(),
                matches_hash.wf(),
                clusters_wf(where_is_match@, matches_hash@),
                merged_from(sd, where_is_match@, matches_hash@),
                sd == spec_emitted_before(*args, cache@, i as int, j as int),
            decreases n - j,
        {
            let ghost fi = args.files@[i as int]@;
            let ghost fj = args.files@[j as int]@;
            let ghost lt = args.line_threshold as int;
            let ghost bt = args.block_threshold as int;
            match CompFile::from_files(&args.files[i], &args.files[j], cache) {
                Option::Some(fs) => {
                    proof {
                        if fi == fj {
                            assert(fs.0.lines@ == cache@[fi] && fs.1.lines@ == cache@[fj]);
                        }
                        lemma_scan_outer_sound(comp, fi, fj, cache@[fi], cache@[fj], lt, bt, 0);
                    }
                    let pairs = get_matches_from_2_files(args, &comp, fs);
                    let ghost full = pairs_view(pairs@);
                    proof {
                        assert(full == spec_pair_scan(*args, cache@, i as int, j as int));
                        assert(full.take(0) =~= Seq::<(MatchV, MatchV)>::empty());
                        assert(full.take(0).to_set() =~= Set::<(MatchV, MatchV)>::empty());
                        assert(sd =~= spec_emitted_before(*args, cache@, i as int, j as int).union(
                            full.take(0).to_set(),
                        ));
                    }
                    let total = pairs.len();
                    let mut k: usize = 0;
                    while k < total
                        invariant
                            k <= total,
                            total == pairs@.len(),
                            comp == spec_comparator(*args),
                            fi == args.files@[i as int]@,
                            fj == args.files@[j as int]@,
                            lt == args.line_threshold as int,
                            bt == args.block_threshold as int,
                            full == pairs_view(pairs@),
                            full == spec_pair_scan(*args, cache@, i as int, j as int),
                            forall|t: int|
                                0 <= t < full.len() ==> emitted_pair_ok(
                                    comp,
                                    fi,
                                    fj,
                                    cache@[fi],
                                    cache@[fj],
                                    lt,
                                    bt,
                                    #[trigger] full[t],
                                ),
                            where_is_match.wf(),
                            matches_hash.wf(),
                            clusters_wf(where_is_match@, matches_hash@),
                            merged_from(sd, where_is_match@, matches_hash@),
                            sd == spec_emitted_before(
                                *args,
                                cache@,
                                i as int,
                                j as int,
                            ).union(full.take(k as int).to_set()),
                        decreases total - k,
                    {
                        let a = pairs[k].0.clone();
                        let b = pairs[k].1.clone();
                        let ghost lk0 = where_is_match@;
                        let ghost cl0 = matches_hash@;
                        proof {
                            assert(full[k as int] == (pairs@[k as int].0@, pairs@[k as int].1@));
                            assert(full[k as int] == (a@, b@));
                            assert(emitted_pair_ok(
                                comp,
                                fi,
                                fj,
                                cache@[fi],
                                cache@[fj],
                                lt,
                                bt,
                                (a@, b@),
                            ));
                        }
                        update_matches((a, b), &mut where_is_match, &mut matches_hash);
                        proof {
                            lemma_merge_step(
                                sd,
                                lk0,
                                cl0,
                                where_is_match@,
                                matches_hash@,
                                a@,
                                b@,
                            );
                            sd = sd.insert((a@, b@));
                            assert(full.take(k + 1) =~= full.take(k as int).push(full[k as int]));
                            assert(full.take(k + 1).to_set() =~= full.take(
                                k as int,
                            ).to_set().insert((a@, b@))) by {
                                assert forall|q: (MatchV, MatchV)|
                                    #[trigger] full.take(k + 1).to_set().contains(q) implies
                                    full.take(k as int).to_set().insert((a@, b@)).contains(q) by {
                                    let t = choose|t: int|
                                        0 <= t < full.take(k + 1).len() && #[trigger] full.take(
                                            k + 1,
                                        )[t] == q;
                                    if t < k as int {
                                        assert(full.take(k as int)[t] == q);
                                    }
                                }
                                assert forall|q: (MatchV, MatchV)|
                                    #[trigger] full.take(k as int).to_set().insert(
                                        (a@, b@),
                                    ).contains(q) implies full.take(k + 1).to_set().contains(
                                    q,
                                ) by {
                                    if q == (a@, b@) {
                                        assert(full.take(k + 1)[k as int] == q);
                                    } else {
                                        let t = choose|t: int|
                                            0 <= t < full.take(k as int).len()
                                                && #[trigger] full.take(k as int)[t] == q;
                                        assert(full.take(k + 1)[t] == q);
                                    }
                                }
                            }
                            assert(sd =~= spec_emitted_before(
                                *args,
                                cache@,
                                i as int,
                                j as int,
                            ).union(full.take(k + 1).to_set()));
                        }
                        k = k + 1;
                    }
                    proof {
                        assert(full.take(total as int) =~= full);
                        assert(sd =~= spec_emitted_before(*args, cache@, i as int, j + 1)) by {
                            let before = spec_emitted_before(*args, cache@, i as int, j as int);
                            assert forall|p: (MatchV, MatchV)| #[trigger] sd.contains(p) implies
                            spec_emitted_before(*args, cache@, i as int, j + 1).contains(p) by {
                                if before.contains(p) {
                                    let (i2, j2) = choose|i2: int, j2: int|
                                        #[trigger] spec_pair_emits(*args, cache@, i2, j2, p) && (
                                        i2 < i as int || (i2 == i as int && j2 < j as int));
                                    assert(spec_pair_emits(*args, cache@, i2, j2, p) && (i2
                                        < i as int || (i2 == i as int && j2 < j + 1)));
                                } else {
                                    assert(full.to_set().contains(p));
                                    assert(full.contains(p));
                                    assert(spec_pair_emits(*args, cache@, i as int, j as int, p));
                                }
                            }
                            assert forall|p: (MatchV, MatchV)|
                                #[trigger] spec_emitted_before(
                                    *args,
                                    cache@,
                                    i as int,
                                    j + 1,
                                ).contains(p) implies sd.contains(p) by {
                                let (i2, j2) = choose|i2: int, j2: int|
                                    #[trigger] spec_pair_emits(*args, cache@, i2, j2, p) && (i2
                                        < i as int || (i2 == i as int && j2 < j + 1));
                                if i2 < i as int || (i2 == i as int && j2 < j as int) {
                                    assert(before.contains(p));
                                } else {
                                    assert(i2 == i as int && j2 == j as int);
                                    assert(spec_pair_scan(*args, cache@, i as int, j as int).contains(
                                        p,
                                    ));
                                    assert(full.to_set().contains(p));
                                }
                            }
                        }
                    }
                },
                Option::None => {
                    proof {
                        assert(sd =~= spec_emitted_before(*args, cache@, i as int, j + 1)) by {
                            assert forall|p: (MatchV, MatchV)|
                                #[trigger] spec_emitted_before(
                                    *args,
                                    cache@,
                                    i as int,
                                    j + 1,
                                ).contains(p) implies sd.contains(p) by {
                                let (i2, j2) = choose|i2: int, j2: int|
                                    #[trigger] spec_pair_emits(*args, cache@, i2, j2, p) && (i2
                                        < i as int || (i2 == i as int && j2 < j + 1));
                                if i2 < i as int || (i2 == i as int && j2 < j as int) {
                                } else {
                                    assert(i2 == i as int && j2 == j as int);
                                    assert(cache@.contains_key(fi) && cache@.contains_key(fj));
                                    assert(false);
                                }
                            }
                            assert forall|p: (MatchV, MatchV)| #[trigger] sd.contains(p) implies
                            spec_emitted_before(*args, cache@, i as int, j + 1).contains(p) by {
                                let (i2, j2) = choose|i2: int, j2: int|
                                    #[trigger] spec_pair_emits(*args, cache@, i2, j2, p) && (i2
                                        < i as int || (i2 == i as int && j2 < j as int));
                                assert(spec_pair_emits(*args, cache@, i2, j2, p) && (i2 < i as int
                                    || (i2 == i as int && j2 < j + 1)));
                            }
                        }
                    }
                },
            }
            j = j + 1;
        }
        proof {
            assert(spec_emitted_before(*args, cache@, i as int, n as int) =~= spec_emitted_before(
                *args,
                cache@,
                i + 1,
                i + 1,
            )) by {
                assert forall|p: (MatchV, MatchV)|
                    #[trigger] spec_emitted_before(*args, cache@, i as int, n as int).contains(
                        p,
                    ) implies spec_emitted_before(*args, cache@, i + 1, i + 1).contains(p) by {
                    let (i2, j2) = choose|i2: int, j2: int|
                        #[trigger] spec_pair_emits(*args, cache@, i2, j2, p) && (i2 < i as int || (
                        i2 == i as int && j2 < n as int));
                    assert(spec_pair_emits(*args, cache@, i2, j2, p) && (i2 < i + 1 || (i2 == i + 1
                        && j2 < i + 1)));
                }
                assert forall|p: (MatchV, MatchV)|
                    #[trigger] spec_emitted_before(*args, cache@, i + 1, i + 1).contains(
                        p,
                    ) implies spec_emitted_before(*args, cache@, i as int, n as int).contains(
                    p,
                ) by {
                    let (i2, j2) = choose|i2: int, j2: int|
                        #[trigger] spec_pair_emits(*args, cache@, i2, j2, p) && (i2 < i + 1 || (i2
                            == i + 1 && j2 < i + 1));
                    assert(i2 <= j2 < n);
                    assert(spec_pair_emits(*args, cache@, i2, j2, p) && (i2 < i as int || (i2
                        == i as int && j2 < n as int)));
                }
            }
        }
        i = i + 1;
    }
    proof {
        assert(sd =~= spec_emitted_pairs(*args, cache@)) by {
            assert forall|p: (MatchV, MatchV)| #[trigger] sd.contains(p) implies spec_emitted_pairs(
                *args,
                cache@,
            ).contains(p) by {
                let (i2, j2) = choose|i2: int, j2: int|
                    #[trigger] spec_pair_emits(*args, cache@, i2, j2, p) && (i2 < n as int || (i2
                        == n as int && j2 < n as int));
                assert(spec_pair_emits(*args, cache@, i2, j2, p));
            }
            assert forall|p: (MatchV, MatchV)|
                #[trigger] spec_emitted_pairs(*args, cache@).contains(p) implies sd.contains(p) by {
                let (i2, j2) = choose|i2: int, j2: int|
                    #[trigger] spec_pair_emits(*args, cache@, i2, j2, p);
                assert(i2 <= j2 < n);
                assert(spec_pair_emits(*args, cache@, i2, j2, p) && (i2 < n as int || (i2
                    == n as int && j2 < n as int)));
            }
        }
    }
    proof {
        lemma_cluster_member_bounds(*args, cache@, where_is_match@, matches_hash@);
    }
    (where_is_match, matches_hash)
}

/// Two table states merged from the same run's findings agree, cluster for
/// cluster: neither the worker count nor the order in which the workers'
/// findings were merged can change the outcome.
pub proof fn lemma_result_independent_of_merge_order(
    args: Cli,
    cache: Map<Seq<char>, Seq<String>>,
    lk1: Map<MatchV, MatchV>,
    cl1: Map<MatchV, Seq<MatchV>>,
    lk2: Map<MatchV, MatchV>,
    cl2: Map<MatchV, Seq<MatchV>>,
)
    requires
        clusters_wf(lk1, cl1),
        clusters_wf(lk2, cl2),
        merged_from(spec_emitted_pairs(args, cache), lk1, cl1),
        merged_from(spec_emitted_pairs(args, cache), lk2, cl2),
    ensures
        forall|m: MatchV| lk1.contains_key(m) <==> lk2.contains_key(m),
        forall|m: MatchV|
            #![trigger crate::merge::cluster_of(lk1, cl1, m)]
            lk1.contains_key(m) ==> crate::merge::cluster_of(lk1, cl1, m)
                == crate::merge::cluster_of(lk2, cl2, m),
{
    crate::props::lemma_merged_partition_unique(
        spec_emitted_pairs(args, cache),
        spec_emitted_pairs(args, cache),
        lk1,
        cl1,
        lk2,
        cl2,
    );
}

/// The whole of it: any two merged table states arising from the same
/// run's findings render structurally equal reports. Worker count,
/// arrival order, fungible key choice and member order all wash out.
pub proof fn lemma_reports_agree_across_runs(
    args: Cli,
    cache: Map<Seq<char>, Seq<String>>,
    lookup1: MatchesLookup,
    table1: Matches,
    lookup2: MatchesLookup,
    table2: Matches,
    r1: crate::report::JsonRoot,
    r2: crate::report::JsonRoot,
)
    requires
        table1.wf(),
        table2.wf(),
        clusters_wf(lookup1@, table1@),
        clusters_wf(lookup2@, table2@),
        merged_from(spec_emitted_pairs(args, cache), lookup1@, table1@),
        merged_from(spec_emitted_pairs(args, cache), lookup2@, table2@),
        crate::report::json_root_ok(r1, table1.0@),
        crate::report::json_root_ok(r2, table2.0@),
    ensures
        crate::report::json_root_eq(r1, r2),
{
    lemma_result_independent_of_merge_order(args, cache, lookup1@, table1@, lookup2@, table2@);
    crate::report::lemma_equal_partitions_equal_reports(
        r1,
        r2,
        table1,
        table2,
        lookup1@,
        lookup2@,
    );
}

/// Where the enumeration's pair at position `idx` lands: in worker
/// `idx mod W`'s list, as its `idx div W`-th task.
pub open spec fn bucket_slot_ok(
    buckets: Seq<Seq<(String, String)>>,
    all: Seq<(String, String)>,
    w_count: int,
    idx: int,
) -> bool {
    &&& 0 <= idx % w_count < w_count
    &&& 0 <= idx / w_count < buckets[idx % w_count].len()
    &&& buckets[idx % w_count][idx / w_count] == all[idx]
}

/// Every file pair is dealt out exactly once, whatever the worker count:
/// the pair at position `idx` of the enumeration is the `idx div W`-th task
/// of worker `idx mod W`, and the workers' lists hold nothing else.
pub proof fn lemma_partition_covers(
    buckets: Seq<Seq<(String, String)>>,
    all: Seq<(String, String)>,
    w_count: int,
)
    requires
        w_count >= 1,
        buckets.len() == w_count,
        forall|w: int, t: int|
            0 <= w < w_count && 0 <= t < buckets[w].len() ==> #[trigger] buckets[w][t] == all[t
                * w_count + w],
        forall|w: int|
            0 <= w < w_count ==> #[trigger] buckets[w].len() == all.len() as int / w_count + (
            if w < all.len() as int % w_count {
                1int
            } else {
                0int
            }),
    ensures
        forall|idx: int|
            0 <= idx < all.len() ==> #[trigger] bucket_slot_ok(buckets, all, w_count, idx),
{
    let n = all.len() as int;
    vstd::arithmetic::div_mod::lemma_fundamental_div_mod(n, w_count);
    assert forall|idx: int| 0 <= idx < all.len() implies #[trigger] bucket_slot_ok(
        buckets,
        all,
        w_count,
        idx,
    ) by {
        vstd::arithmetic::div_mod::lemma_fundamental_div_mod(idx, w_count);
        vstd::arithmetic::div_mod::lemma_mod_bound(idx, w_count);
        vstd::arithmetic::div_mod::lemma_div_pos_is_pos(idx, w_count);
        let w = idx % w_count;
        let t = idx / w_count;
        assert(t * w_count + w == idx) by (nonlinear_arith)
            requires
                idx == w_count * t + w,
        ;
        assert(buckets[w].len() == n / w_count + (if w < n % w_count {
            1int
        } else {
            0int
        }));
        assert(t < buckets[w].len()) by {
            if t >= buckets[w].len() {
                let q = n / w_count;
                let s = n % w_count;
                vstd::arithmetic::div_mod::lemma_mod_bound(n, w_count);
                if w < s {
                    assert((q + 1) * w_count + w > q * w_count + s) by (nonlinear_arith)
                        requires
                            w_count >= 1,
                            0 <= w < s < w_count,
                    ;
                    assert(t * w_count + w >= (q + 1) * w_count + w) by (nonlinear_arith)
                        requires
                            t >= q + 1,
                            w_count >= 1,
                    ;
                } else {
                    assert(t * w_count + w >= q * w_count + w) by (nonlinear_arith)
                        requires
                            t >= q,
                            w_count >= 1,
                    ;
                }
                assert(false);
            }
        }
        assert(buckets[w][t] == all[t * w_count + w]);
    }
}

/// What is true of every pair of the run's findings, read against the
/// cache: both matches name cached files, share a size of at least the
/// block threshold, lie within their files, the first anchors a line of at
/// least the length threshold, and their lines agree under the configured
/// comparison relation.
pub open spec fn emitted_ok_in_cache(
    args: Cli,
    cache: Map<Seq<char>, Seq<String>>,
    p: (MatchV, MatchV),
) -> bool {
    &&& cache.contains_key(p.0.file)
    &&& cache.contains_key(p.1.file)
    &&& p.0.size == p.1.size
    &&& 1 <= p.0.size
    &&& args.block_threshold <= p.0.size
    &&& 1 <= p.0.line && p.0.line + p.0.size <= cache[p.0.file].len() + 1
    &&& 1 <= p.1.line && p.1.line + p.1.size <= cache[p.1.file].len() + 1
    &&& crate::comp::line_byte_len(cache[p.0.file][p.0.line - 1]@) >= args.line_threshold
    &&& forall|k: int|
        0 <= k < p.0.size ==> #[trigger] crate::comp::line_matches(
            spec_comparator(args),
            cache[p.0.file][p.0.line - 1 + k]@,
            cache[p.1.file][p.1.line - 1 + k]@,
        )
    &&& p.0 != p.1
    &&& (p.0.file == p.1.file ==> p.0.line + p.0.size <= p.1.line)
}

/// Every pair the run emits is in order: within bounds, past both
/// thresholds, matching line for line.
pub proof fn lemma_emitted_pairs_ok(args: Cli, cache: Map<Seq<char>, Seq<String>>)
    ensures
        forall|p: (MatchV, MatchV)|
            #[trigger] spec_emitted_pairs(args, cache).contains(p) ==> emitted_ok_in_cache(
                args,
                cache,
                p,
            ),
{
    assert forall|p: (MatchV, MatchV)|
        #[trigger] spec_emitted_pairs(args, cache).contains(p) implies emitted_ok_in_cache(
        args,
        cache,
        p,
    ) by {
        let (i, j) = choose|i: int, j: int| #[trigger] spec_pair_emits(args, cache, i, j, p);
        let fi = args.files@[i]@;
        let fj = args.files@[j]@;
        let lt = args.line_threshold as int;
        let bt = args.block_threshold as int;
        lemma_scan_outer_sound(
            spec_comparator(args),
            fi,
            fj,
            cache[fi],
            cache[fj],
            lt,
            bt,
            0,
        );
        let sc = spec_scan_outer(spec_comparator(args), fi, fj, cache[fi], cache[fj], lt, bt, 0);
        let t = choose|t: int| 0 <= t < sc.len() && sc[t] == p;
        assert(emitted_pair_ok(spec_comparator(args), fi, fj, cache[fi], cache[fj], lt, bt, p));
    }
}

/// Every match the merger records satisfies the block threshold and lies
/// within its cached file.
pub proof fn lemma_cluster_member_bounds(
    args: Cli,
    cache: Map<Seq<char>, Seq<String>>,
    lk: Map<MatchV, MatchV>,
    cl: Map<MatchV, Seq<MatchV>>,
)
    requires
        merged_from(spec_emitted_pairs(args, cache), lk, cl),
    ensures
        forall|m: MatchV|
            #[trigger] lk.contains_key(m) ==> cache.contains_key(m.file)
                && args.block_threshold <= m.size && 1 <= m.line && m.line + m.size <= cache[m.file].len()
                + 1,
{
    lemma_emitted_pairs_ok(args, cache);
    let s = spec_emitted_pairs(args, cache);
    assert forall|m: MatchV| #[trigger] lk.contains_key(m) implies cache.contains_key(m.file)
        && args.block_threshold <= m.size && 1 <= m.line && m.line + m.size <= cache[m.file].len()
        + 1 by {
        crate::props::lemma_touched_unfold(s, m);
        let (x, y) = choose|x: MatchV, y: MatchV|
            #[trigger] s.contains((x, y)) && (m == x || m == y);
        assert(emitted_ok_in_cache(args, cache, (x, y)));
    }
}

/// Under strict equality, every recorded match also anchors a line of at
/// least the length threshold: matched first lines are the very same line.
pub proof fn lemma_cluster_member_line_length(
    args: Cli,
    cache: Map<Seq<char>, Seq<String>>,
    lk: Map<MatchV, MatchV>,
    cl: Map<MatchV, Seq<MatchV>>,
)
    requires
        args.lev_threshold == 0,
        merged_from(spec_emitted_pairs(args, cache), lk, cl),
    ensures
        forall|m: MatchV|
            #[trigger] lk.contains_key(m) ==> crate::comp::line_byte_len(
                cache[m.file][m.line - 1]@,
            ) >= args.line_threshold,
{
    lemma_emitted_pairs_ok(args, cache);
    let s = spec_emitted_pairs(args, cache);
    assert forall|m: MatchV| #[trigger] lk.contains_key(m) implies crate::comp::line_byte_len(
        cache[m.file][m.line - 1]@,
    ) >= args.line_threshold by {
        crate::props::lemma_touched_unfold(s, m);
        let (x, y) = choose|x: MatchV, y: MatchV|
            #[trigger] s.contains((x, y)) && (m == x || m == y);
        assert(emitted_ok_in_cache(args, cache, (x, y)));
        if m == y {
            assert(crate::comp::line_matches(
                spec_comparator(args),
                cache[x.file][x.line - 1 + 0]@,
                cache[y.file][y.line - 1 + 0]@,
            ));
            assert(cache[x.file][x.line - 1]@ == cache[y.file][y.line - 1]@);
        }
    }
}

/// Two matches agree when they are the same size and their lines are
/// related pairwise under the configured comparison.
pub open spec fn matches_agree(
    args: Cli,
    cache: Map<Seq<char>, Seq<String>>,
    m1: MatchV,
    m2: MatchV,
) -> bool {
    &&& m1.size == m2.size
    &&& forall|k: int|
        0 <= k < m1.size ==> #[trigger] crate::comp::line_matches(
            spec_comparator(args),
            cache[m1.file][m1.line - 1 + k]@,
            cache[m2.file][m2.line - 1 + k]@,
        )
}

/// Any two matches sharing a cluster are joined by a chain of the run's
/// own findings; under a distance threshold, every link of such a chain is
/// within the threshold line for line, though the two ends need not be.
pub proof fn lemma_cluster_members_chained(
    args: Cli,
    cache: Map<Seq<char>, Seq<String>>,
    lk: Map<MatchV, MatchV>,
    cl: Map<MatchV, Seq<MatchV>>,
    m1: MatchV,
    m2: MatchV,
)
    requires
        merged_from(spec_emitted_pairs(args, cache), lk, cl),
        lk.contains_key(m1),
        crate::merge::cluster_of(lk, cl, m1).contains(m2),
    ensures
        crate::props::connected(spec_emitted_pairs(args, cache), m1, m2),
        forall|q: (MatchV, MatchV)|
            #[trigger] spec_emitted_pairs(args, cache).contains(q) ==> matches_agree(
                args,
                cache,
                q.0,
                q.1,
            ),
{
    lemma_emitted_pairs_ok(args, cache);
}

/// Under strict equality, any two matches sharing a cluster agree line for
/// line: equality is transitive, so agreement survives every merge chain.
pub proof fn lemma_cluster_exact_agreement(
    args: Cli,
    cache: Map<Seq<char>, Seq<String>>,
    lk: Map<MatchV, MatchV>,
    cl: Map<MatchV, Seq<MatchV>>,
    m1: MatchV,
    m2: MatchV,
)
    requires
        args.lev_threshold == 0,
        merged_from(spec_emitted_pairs(args, cache), lk, cl),
        lk.contains_key(m1),
        crate::merge::cluster_of(lk, cl, m1).contains(m2),
    ensures
        matches_agree(args, cache, m1, m2),
{
    lemma_emitted_pairs_ok(args, cache);
    let s = spec_emitted_pairs(args, cache);
    assert(crate::props::connected(s, m1, m2));
    let p = choose|p: Seq<MatchV>|
        p.len() >= 1 && p.first() == m1 && p.last() == m2 && crate::props::is_walk(s, p);
    lemma_walk_exact_agreement(args, cache, p);
}

/// Along a walk of exact-mode findings, the first and last match agree.
proof fn lemma_walk_exact_agreement(args: Cli, cache: Map<Seq<char>, Seq<String>>, p: Seq<MatchV>)
    requires
        args.lev_threshold == 0,
        forall|q: (MatchV, MatchV)|
            #[trigger] spec_emitted_pairs(args, cache).contains(q) ==> emitted_ok_in_cache(
                args,
                cache,
                q,
            ),
        crate::props::is_walk(spec_emitted_pairs(args, cache), p),
        p.len() >= 1,
    ensures
        matches_agree(args, cache, p.first(), p.last()),
    decreases p.len(),
{
    let s = spec_emitted_pairs(args, cache);
    if p.len() == 1 {
        assert(matches_agree(args, cache, p.first(), p.last())) by {
            assert forall|k: int|
                0 <= k < p.first().size implies #[trigger] crate::comp::line_matches(
                spec_comparator(args),
                cache[p.first().file][p.first().line - 1 + k]@,
                cache[p.last().file][p.last().line - 1 + k]@,
            ) by {}
        }
    } else {
        assert(crate::props::pair_joins(s, p[0], p[0int + 1]));
        assert(matches_agree(args, cache, p[0], p[1])) by {
            if s.contains((p[0], p[1])) {
                assert(emitted_ok_in_cache(args, cache, (p[0], p[1])));
            } else {
                assert(s.contains((p[1], p[0])));
                assert(emitted_ok_in_cache(args, cache, (p[1], p[0])));
                assert forall|k: int|
                    0 <= k < p[0].size implies #[trigger] crate::comp::line_matches(
                    spec_comparator(args),
                    cache[p[0].file][p[0].line - 1 + k]@,
                    cache[p[1].file][p[1].line - 1 + k]@,
                ) by {
                    assert(crate::comp::line_matches(
                        spec_comparator(args),
                        cache[p[1].file][p[1].line - 1 + k]@,
                        cache[p[0].file][p[0].line - 1 + k]@,
                    ));
                }
            }
        }
        let q = p.drop_first();
        assert forall|t: int|
            0 <= t < q.len() - 1 implies #[trigger] crate::props::pair_joins(s, q[t], q[t + 1]) by {
            assert(q[t] == p[t + 1]);
            assert(q[t + 1] == p[(t + 1) + 1]);
            assert(crate::props::pair_joins(s, p[t + 1], p[(t + 1) + 1]));
        }
        lemma_walk_exact_agreement(args, cache, q);
        assert(q.first() == p[1]);
        assert(q.last() == p.last());
        // stitch the first step onto the rest of the walk
        assert(matches_agree(args, cache, p.first(), p.last())) by {
            assert forall|k: int|
                0 <= k < p[0].size implies #[trigger] crate::comp::line_matches(
                spec_comparator(args),
                cache[p[0].file][p[0].line - 1 + k]@,
                cache[p.last().file][p.last().line - 1 + k]@,
            ) by {
                assert(crate::comp::line_matches(
                    spec_comparator(args),
                    cache[p[0].file][p[0].line - 1 + k]@,
                    cache[p[1].file][p[1].line - 1 + k]@,
                ));
                assert(crate::comp::line_matches(
                    spec_comparator(args),
                    cache[p[1].file][p[1].line - 1 + k]@,
                    cache[p.last().file][p.last().line - 1 + k]@,
                ));
            }
        }
    }
}

pub struct ThreadPool {
    pub where_is_match: MatchesLookup,
    pub matches_hash: Matches,
    pub args: Cli,
}

impl ThreadPool {
    /// A pool with empty tables, ready to merge findings for these settings.
    pub fn from(item: Cli) -> (r: ThreadPool)
        ensures
            r.where_is_match.0@.len() == 0,
            r.matches_hash.0@.len() == 0,
            r.where_is_match.wf(),
            r.matches_hash.wf(),
            r.where_is_match@ == Map::<crate::types::MatchV, crate::types::MatchV>::empty(),
            r.matches_hash@ == Map::<crate::types::MatchV, Seq<crate::types::MatchV>>::empty(),
            r.args == item,
    {
        ThreadPool {
            where_is_match: MatchesLookup::new(),
            matches_hash: Matches::new(),
            args: item,
        }
    }

    /// Split the pairs of files (the task) evenly among the n threads.
    ///
    /// The pair at position `p` of the enumeration lands in worker
    /// `p mod worker_threads`, in order, so every pair is handed out
    /// exactly once whatever the worker count.
    pub fn partition_file_combinations(&self) -> (r: Vec<Vec<(String, String)>>)
        requires
            self.args.worker_threads >= 1,
        ensures
            r@.len() == self.args.worker_threads,
            forall|w: int, t: int|
                0 <= w < r@.len() && 0 <= t < r@[w]@.len() ==> #[trigger] r@[w]@[t]
                    == spec_file_pairs(self.args.files@, 0)[t * self.args.worker_threads + w],
            forall|w: int|
                0 <= w < r@.len() ==> #[trigger] r@[w]@.len() == spec_file_pairs(
                    self.args.files@,
                    0,
                ).len() as int / (self.args.worker_threads as int) + (if w < spec_file_pairs(
                    self.args.files@,
                    0,
                ).len() as int % (self.args.worker_threads as int) {
                    1int
                } else {
                    0int
                }),
    {
        let w_count = self.args.worker_threads;
        let ghost all = spec_file_pairs(self.args.files@, 0);
        let mut receivers: Vec<Vec<(String, String)>> = Vec::new();
        let mut wi: usize = 0;
        while wi < w_count
            invariant
                wi <= w_count,
                receivers@.len() == wi,
                forall|w: int| 0 <= w < wi ==> #[trigger] receivers@[w]@.len() == 0,
            decreases w_count - wi,
        {
            receivers.push(Vec::new());
            wi = wi + 1;
        }

        let n = self.args.files.len();
        let ghost files = self.args.files@;
        let mut sender_index: usize = 0;
        let ghost mut p: int = 0;
        let mut i: usize = 0;
        proof {
            assert(all.skip(0) =~= all);
            assert(0int % (w_count as int) == 0 && 0int / (w_count as int) == 0) by {
                vstd::arithmetic::div_mod::lemma_small_mod(0, w_count as nat);
                vstd::arithmetic::div_mod::lemma_basic_div(0, w_count as int);
            }
        }
        while i < n
            invariant
                i <= n,
                n == files.len(),
                files == self.args.files@,
                w_count == self.args.worker_threads,
                1 <= w_count,
                receivers@.len() == w_count,
                all == spec_file_pairs(files, 0),
                0 <= p <= all.len(),
                sender_index as int == p % (w_count as int),
                all.skip(p) =~= spec_file_pairs(files, i as int),
                forall|w: int, t: int|
                    0 <= w < w_count && 0 <= t < receivers@[w]@.len() ==> #[trigger] receivers@[w]@[t]
                        == all[t * w_count + w],
                forall|w: int|
                    0 <= w < w_count ==> #[trigger] receivers@[w]@.len() == p / (w_count as int) + (
                    if w < p % (w_count as int) {
                        1int
                    } else {
                        0int
                    }),
            decreases n - i,
        {
            let mut j: usize = i;
            while j < n
                invariant
                    i <= j <= n,
                    i < n,
                    n == files.len(),
                    files == self.args.files@,
                    w_count == self.args.worker_threads,
                    1 <= w_count,
                    receivers@.len() == w_count,
                    all == spec_file_pairs(files, 0),
                    0 <= p <= all.len(),
                    sender_index as int == p % (w_count as int),
                    all.skip(p) =~= Seq::new((n - j) as nat, |t: int| (files[i as int], files[j + t]))
                        + spec_file_pairs(files, i + 1),
                    forall|w: int, t: int|
                        0 <= w < w_count && 0 <= t < receivers@[w]@.len()
                            ==> #[trigger] receivers@[w]@[t] == all[t * w_count + w],
                    forall|w: int|
                        0 <= w < w_count ==> #[trigger] receivers@[w]@.len() == p / (w_count as int)
                            + (if w < p % (w_count as int) {
                            1int
                        } else {
                            0int
                        }),
                decreases n - j,
            {
                let ghost wc = w_count as int;
                let ghost si = sender_index as int;
                let two_files = (self.args.files[i].clone(), self.args.files[j].clone());
                proof {
                    assert(p < all.len()) by {
                        assert(all.skip(p).len() >= 1);
                    }
                    assert(all.skip(p)[0] == (files[i as int], files[j as int]));
                    assert(all[p] == (files[i as int], files[j as int]));
                    assert(two_files == all[p]);
                    vstd::arithmetic::div_mod::lemma_fundamental_div_mod(p, wc);
                    assert(receivers@[si]@.len() == p / wc);
                }
                let ghost rec0 = receivers@;
                let mut bucket = receivers.remove(sender_index);
                bucket.push(two_files);
                let ghost bucket_v = bucket;
                receivers.insert(sender_index, bucket);
                if sender_index == w_count - 1 {
                    sender_index = 0;
                } else {
                    sender_index = sender_index + 1;
                }
                proof {
                    p = p + 1;
                    let p0 = p - 1;
                    assert(receivers@ =~= rec0.update(si, bucket_v));
                    // the round-robin counters step together
                    vstd::arithmetic::div_mod::lemma_fundamental_div_mod(p0, wc);
                    if p0 % wc == wc - 1 {
                        assert(p == (p0 / wc + 1) * wc + 0) by (nonlinear_arith)
                            requires
                                p == p0 + 1,
                                p0 == wc * (p0 / wc) + p0 % wc,
                                p0 % wc == wc - 1,
                        ;
                        vstd::arithmetic::div_mod::lemma_fundamental_div_mod_converse(
                            p,
                            wc,
                            p0 / wc + 1,
                            0,
                        );
                        assert(p % wc == 0 && p / wc == p0 / wc + 1);
                    } else {
                        assert(p == (p0 / wc) * wc + (p0 % wc + 1)) by (nonlinear_arith)
                            requires
                                p == p0 + 1,
                                p0 == wc * (p0 / wc) + p0 % wc,
                        ;
                        vstd::arithmetic::div_mod::lemma_fundamental_div_mod_converse(
                            p,
                            wc,
                            p0 / wc,
                            p0 % wc + 1,
                        );
                        assert(p % wc == p0 % wc + 1 && p / wc == p0 / wc);
                    }
                    assert(sender_index as int == p % wc);
                    // every stored pair still sits at its enumeration slot
                    assert forall|w: int, t: int|
                        0 <= w < w_count && 0 <= t < receivers@[w]@.len() implies #[trigger] receivers@[w]@[t] == all[t * wc + w] by {
                        if w == si {
                            if t < rec0[si]@.len() {
                                assert(receivers@[w]@[t] == rec0[si]@[t]);
                            } else {
                                assert(t == p0 / wc);
                                assert(receivers@[w]@[t] == two_files);
                                assert((p0 / wc) * wc + si == p0);
                            }
                        } else {
                            assert(receivers@[w]@[t] == rec0[w]@[t]);
                        }
                    }
                    // and the per-worker counts match the new position
                    assert forall|w: int| 0 <= w < w_count implies #[trigger] receivers@[w]@.len()
                        == p / wc + (if w < p % wc {
                        1int
                    } else {
                        0int
                    }) by {
                        if w == si {
                            assert(receivers@[w]@.len() == rec0[si]@.len() + 1);
                        } else {
                            assert(receivers@[w]@.len() == rec0[w]@.len());
                        }
                    }
                    // the remaining work shrinks by the pair just dealt out
                    assert(all.skip(p) =~= all.skip(p0).skip(1));
                    assert(all.skip(p) =~= Seq::new(
                        (n - (j + 1)) as nat,
                        |t: int| (files[i as int], files[j + 1 + t]),
                    ) + spec_file_pairs(files, i + 1)) by {
                        let lhs = all.skip(p0).skip(1);
                        let pre = Seq::new(
                            (n - j) as nat,
                            |t: int| (files[i as int], files[j + t]),
                        );
                        assert(all.skip(p0) =~= pre + spec_file_pairs(files, i + 1));
                        assert forall|t: int| 0 <= t < lhs.len() implies lhs[t] == (Seq::new(
                            (n - (j + 1)) as nat,
                            |tt: int| (files[i as int], files[j + 1 + tt]),
                        ) + spec_file_pairs(files, i + 1))[t] by {
                            assert(lhs[t] == all.skip(p0)[t + 1]);
                        }
                        assert(all.skip(p) =~= lhs);
                    }
                }
                j = j + 1;
            }
            i = i + 1;
        }
        receivers
    }
}

} // verus!
