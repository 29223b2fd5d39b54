//! The collaborator-facing view of the result: a version tag, a per-file
//! block tally, and one record per cluster listing its blocks by file.
//!
//! Maps are association lists in first-occurrence order with unique keys;
//! the first matching entry is authoritative. Equality of two reports is
//! structural, with each file's block list read as an unordered multiset.

use vstd::prelude::*;
use vstd::string::StringExecFns;

use crate::merge::Matches;
use crate::types::Match;

verus! {

#[derive(Clone, PartialEq, Eq, Structural, Debug)]
pub struct JsonFileInfo {
    pub count_blocks: usize,
}

#[derive(Clone, Copy, PartialEq, Eq, Structural, Hash, Debug)]
pub struct JsonBlockInfo {
    pub starting_line: usize,
    pub block_length: usize,
}

pub struct JsonMatch {
    pub files: Vec<(String, JsonFileInfo)>,
    pub blocks: Vec<(String, Vec<JsonBlockInfo>)>,
}

pub struct JsonRoot {
    pub version: String,
    pub files: Vec<(String, JsonFileInfo)>,
    pub matches: Vec<JsonMatch>,
}

/// The block record a match stands for.
pub open spec fn block_info_of(m: Match) -> JsonBlockInfo {
    JsonBlockInfo { starting_line: m.line, block_length: m.size }
}

/// How many of the given matches lie in the file.
pub open spec fn num_blocks_of(ms: Seq<Match>, f: Seq<char>) -> int
    decreases ms.len(),
{
    if ms.len() == 0 {
        0
    } else {
        num_blocks_of(ms.drop_last(), f) + if ms.last().file@ == f {
            1int
        } else {
            0int
        }
    }
}

/// The block records of the given matches lying in the file, in order.
pub open spec fn blocks_of(ms: Seq<Match>, f: Seq<char>) -> Seq<JsonBlockInfo>
    decreases ms.len(),
{
    if ms.len() == 0 {
        Seq::<JsonBlockInfo>::empty()
    } else if ms.last().file@ == f {
        blocks_of(ms.drop_last(), f).push(block_info_of(ms.last()))
    } else {
        blocks_of(ms.drop_last(), f)
    }
}

proof fn lemma_num_blocks_bounds(ms: Seq<Match>, f: Seq<char>)
    ensures
        0 <= num_blocks_of(ms, f) <= ms.len(),
        blocks_of(ms, f).len() == num_blocks_of(ms, f),
    decreases ms.len(),
{
    if ms.len() > 0 {
        lemma_num_blocks_bounds(ms.drop_last(), f);
    }
}

proof fn lemma_num_blocks_occurs(ms: Seq<Match>, f: Seq<char>)
    ensures
        num_blocks_of(ms, f) > 0 <==> exists|u: int| 0 <= u < ms.len() && ms[u].file@ == f,
    decreases ms.len(),
{
    lemma_num_blocks_bounds(ms, f);
    if ms.len() > 0 {
        lemma_num_blocks_occurs(ms.drop_last(), f);
        lemma_num_blocks_bounds(ms.drop_last(), f);
        if ms.last().file@ == f {
            assert(ms[ms.len() - 1].file@ == f);
        } else {
            if num_blocks_of(ms, f) > 0 {
                let u = choose|u: int|
                    0 <= u < ms.drop_last().len() && ms.drop_last()[u].file@ == f;
                assert(ms[u].file@ == f);
            } else {
                if exists|u: int| 0 <= u < ms.len() && ms[u].file@ == f {
                    let u = choose|u: int| 0 <= u < ms.len() && ms[u].file@ == f;
                    assert(u < ms.len() - 1);
                    assert(ms.drop_last()[u].file@ == f);
                }
            }
        }
    }
}

/// Whether some entry of the association list carries this file key.
pub open spec fn has_file_entry(entries: Seq<(String, JsonFileInfo)>, f: Seq<char>) -> bool {
    exists|t: int| 0 <= t < entries.len() && (#[trigger] entries[t]).0@ == f
}

/// Whether one of the first `s` entries of a record's file list carries
/// this key.
pub open spec fn jm_prefix_has(jmf: Seq<(String, JsonFileInfo)>, s: int, f: Seq<char>) -> bool {
    exists|s2: int| 0 <= s2 < s && (#[trigger] jmf[s2]).0@ == f
}

/// What `JsonMatch::from` builds for the member list `all`: per file seen,
/// its block count and block records, files and blocks aligned key for key.
pub open spec fn json_match_ok(jm: JsonMatch, all: Seq<Match>) -> bool {
    &&& jm.files@.len() == jm.blocks@.len()
    &&& forall|t: int|
        0 <= t < jm.files@.len() ==> (#[trigger] jm.blocks@[t]).0@ == jm.files@[t].0@
    &&& forall|t: int, t2: int|
        0 <= t < t2 < jm.files@.len() ==> (#[trigger] jm.files@[t]).0@ != (
        #[trigger] jm.files@[t2]).0@
    &&& forall|t: int|
        0 <= t < jm.files@.len() ==> (#[trigger] jm.files@[t]).1.count_blocks == num_blocks_of(
            all,
            jm.files@[t].0@,
        )
    &&& forall|t: int|
        0 <= t < jm.blocks@.len() ==> (#[trigger] jm.blocks@[t]).1@ == blocks_of(
            all,
            jm.files@[t].0@,
        )
    &&& forall|u: int|
        0 <= u < all.len() ==> #[trigger] has_file_entry(jm.files@, all[u].file@)
    &&& forall|t: int|
        0 <= t < jm.files@.len() ==> num_blocks_of(all, (#[trigger] jm.files@[t]).0@) >= 1
}

impl JsonMatch {
    /// The record of one cluster: the canonical match first, then the other
    /// members, tallied and listed per file.
    pub fn from(cluster: (Match, Vec<Match>)) -> (r: JsonMatch)
        requires
            cluster.1@.len() < usize::MAX,
        ensures
            json_match_ok(r, seq![cluster.0] + cluster.1@),
    {
        let (initial_match, other_matches) = cluster;
        let ghost all = seq![initial_match] + other_matches@;
        let mut files: Vec<(String, JsonFileInfo)> = Vec::new();
        let mut blocks: Vec<(String, Vec<JsonBlockInfo>)> = Vec::new();

        let b0 = JsonBlockInfo {
            starting_line: initial_match.line,
            block_length: initial_match.size,
        };
        let mut v0: Vec<JsonBlockInfo> = Vec::new();
        v0.push(b0);
        let ghost v0_v = v0@;
        files.push((initial_match.file.clone(), JsonFileInfo { count_blocks: 1 }));
        blocks.push((initial_match.file.clone(), v0));
        proof {
            assert(all[0] == initial_match);
            assert(all.take(1).drop_last() =~= Seq::<Match>::empty());
            assert(all.take(1).last() == initial_match);
            assert(num_blocks_of(Seq::<Match>::empty(), initial_match.file@) == 0);
            assert(blocks_of(Seq::<Match>::empty(), initial_match.file@) =~= Seq::<
                JsonBlockInfo,
            >::empty());
            assert(num_blocks_of(all.take(1), initial_match.file@) == 1);
            assert(v0_v =~= seq![b0]);
            assert(b0 == block_info_of(initial_match));
            assert(blocks@[0].1@ =~= blocks_of(all.take(1), files@[0].0@));
            assert forall|w: int| 0 <= w < 1 implies #[trigger] has_file_entry(
                files@,
                all[w].file@,
            ) by {
                assert(files@[0].0@ == all[0].file@);
            }
        }

        let n = other_matches.len();
        let mut u: usize = 0;
        while u < n
            invariant
                u <= n,
                n == other_matches@.len(),
                n < usize::MAX,
                all == seq![initial_match] + other_matches@,
                all.len() == n + 1,
                files@.len() == blocks@.len(),
                forall|t: int|
                    0 <= t < files@.len() ==> (#[trigger] blocks@[t]).0@ == files@[t].0@,
                forall|t: int, t2: int|
                    0 <= t < t2 < files@.len() ==> (#[trigger] files@[t]).0@ != (
                    #[trigger] files@[t2]).0@,
                forall|t: int|
                    0 <= t < files@.len() ==> (#[trigger] files@[t]).1.count_blocks
                        == num_blocks_of(all.take(u + 1), files@[t].0@),
                forall|t: int|
                    0 <= t < blocks@.len() ==> (#[trigger] blocks@[t]).1@ == blocks_of(
                        all.take(u + 1),
                        files@[t].0@,
                    ),
                forall|w: int| 0 <= w < u + 1 ==> #[trigger] has_file_entry(files@, all[w].file@),
                forall|t: int|
                    0 <= t < files@.len() ==> num_blocks_of(all.take(u + 1), (
                    #[trigger] files@[t]).0@) >= 1,
            decreases n - u,
        {
            let m = &other_matches[u];
            let ghost f = m.file@;
            proof {
                assert(all[u + 1] == other_matches@[u as int]);
                assert(all.take(u + 2).drop_last() =~= all.take(u + 1));
                assert(all.take(u + 2).last() == all[u + 1]);
                lemma_num_blocks_bounds(all.take(u + 1), f);
            }
            let b = JsonBlockInfo { starting_line: m.line, block_length: m.size };

            // find the file's entry, if one exists yet
            let mut t: usize = 0;
            let len = files.len();
            let mut found = false;
            while t < len && !found
                invariant
                    t <= len,
                    len == files@.len(),
                    !found ==> forall|t2: int| 0 <= t2 < t ==> (#[trigger] files@[t2]).0@ != f,
                    found ==> t < len && files@[t as int].0@ == f,
                    f == m.file@,
                decreases len - t + (if found {
                    0int
                } else {
                    1int
                }),
            {
                if files[t].0 == m.file {
                    found = true;
                } else {
                    t = t + 1;
                }
            }

            let ghost files0 = files@;
            let ghost blocks0 = blocks@;
            proof {
                assert(forall|w: int|
                    0 <= w < u + 1 ==> #[trigger] has_file_entry(files0, all[w].file@));
            }
            if found {
                let mut fentry = files.remove(t);
                fentry.1.count_blocks = fentry.1.count_blocks + 1;
                let ghost fentry_v = fentry;
                files.insert(t, fentry);
                let mut bentry = blocks.remove(t);
                bentry.1.push(b);
                let ghost bentry_v = bentry;
                blocks.insert(t, bentry);
                proof {
                    assert(files@ =~= files0.update(t as int, fentry_v));
                    assert(blocks@ =~= blocks0.update(t as int, bentry_v));
                    assert forall|t2: int| 0 <= t2 < files@.len() implies (#[trigger] files@[t2]).0
                        == files0[t2].0 by {}
                    assert forall|w: int| 0 <= w < u + 2 implies #[trigger] has_file_entry(
                        files@,
                        all[w].file@,
                    ) by {
                        if w == u + 1 {
                            assert(files@[t as int].0@ == f);
                        } else {
                            assert(has_file_entry(files0, all[w].file@));
                            let t4 = choose|t4: int|
                                0 <= t4 < files0.len() && (#[trigger] files0[t4]).0@
                                    == all[w].file@;
                            assert(files@[t4].0@ == all[w].file@);
                        }
                    }
                    assert forall|t2: int| 0 <= t2 < files@.len() implies (
                    #[trigger] files@[t2]).1.count_blocks == num_blocks_of(
                        all.take(u + 2),
                        files@[t2].0@,
                    ) by {
                        if t2 == t as int {
                        } else {
                            assert(files@[t2] == files0[t2]);
                            assert(files0[t2].0@ != f);
                        }
                    }
                    assert forall|t2: int| 0 <= t2 < blocks@.len() implies (
                    #[trigger] blocks@[t2]).1@ == blocks_of(all.take(u + 2), files@[t2].0@) by {
                        if t2 == t as int {
                            assert(bentry_v.1@ =~= blocks0[t2].1@.push(b));
                        } else {
                            assert(blocks@[t2] == blocks0[t2]);
                            assert(files0[t2].0@ != f);
                        }
                    }
                }
            } else {
                let mut vb: Vec<JsonBlockInfo> = Vec::new();
                vb.push(b);
                files.push((m.file.clone(), JsonFileInfo { count_blocks: 1 }));
                blocks.push((m.file.clone(), vb));
                proof {
                    assert forall|w: int| 0 <= w < u + 2 implies #[trigger] has_file_entry(
                        files@,
                        all[w].file@,
                    ) by {
                        if w == u + 1 {
                            assert(files@[files@.len() - 1].0@ == f);
                        } else {
                            assert(has_file_entry(files0, all[w].file@));
                            let t4 = choose|t4: int|
                                0 <= t4 < files0.len() && (#[trigger] files0[t4]).0@
                                    == all[w].file@;
                            assert(files@[t4].0@ == all[w].file@);
                        }
                    }
                    lemma_num_blocks_occurs(all.take(u + 1), f);
                    assert(num_blocks_of(all.take(u + 1), f) == 0) by {
                        if num_blocks_of(all.take(u + 1), f) > 0 {
                            let w = choose|w: int|
                                0 <= w < all.take(u + 1).len() && (#[trigger] all.take(u + 1)[w]).file@
                                    == f;
                            assert(all.take(u + 1)[w] == all[w]);
                            assert(all[w].file@ == f);
                            assert(0 <= w < u + 1);
                            assert(has_file_entry(files0, all[w].file@));
                            let t2 = choose|t2: int|
                                0 <= t2 < files0.len() && (#[trigger] files0[t2]).0@
                                    == all[w].file@;
                            assert(files0[t2].0@ == f);
                            assert(false);
                        }
                    }
                    lemma_num_blocks_bounds(all.take(u + 1), f);
                    assert(blocks@[files@.len() - 1].1@ =~= blocks_of(all.take(u + 2), f));
                    assert forall|t2: int| 0 <= t2 < files@.len() implies (
                    #[trigger] files@[t2]).1.count_blocks == num_blocks_of(
                        all.take(u + 2),
                        files@[t2].0@,
                    ) by {
                        if t2 < files@.len() - 1 {
                            assert(files@[t2] == files0[t2]);
                            assert(files0[t2].0@ != f);
                        }
                    }
                    assert forall|t2: int| 0 <= t2 < blocks@.len() implies (
                    #[trigger] blocks@[t2]).1@ == blocks_of(all.take(u + 2), files@[t2].0@) by {
                        if t2 < blocks@.len() - 1 {
                            assert(files@[t2] == files0[t2]);
                            assert(files0[t2].0@ != f);
                        }
                    }
                }
            }
            u = u + 1;
        }
        proof {
            assert(all.take(n + 1) =~= all);
        }
        JsonMatch { files, blocks }
    }
}

/// The total number of blocks, over all clusters, lying in the file; a
/// cluster's blocks are its key's and its members'.
pub open spec fn total_blocks_of(cls: Seq<(Match, Vec<Match>)>, f: Seq<char>) -> int
    decreases cls.len(),
{
    if cls.len() == 0 {
        0
    } else {
        total_blocks_of(cls.drop_last(), f) + num_blocks_of(
            seq![cls.last().0] + cls.last().1@,
            f,
        )
    }
}

proof fn lemma_total_blocks_nonneg(cls: Seq<(Match, Vec<Match>)>, f: Seq<char>)
    ensures
        total_blocks_of(cls, f) >= 0,
    decreases cls.len(),
{
    if cls.len() > 0 {
        lemma_total_blocks_nonneg(cls.drop_last(), f);
        lemma_num_blocks_bounds(seq![cls.last().0] + cls.last().1@, f);
    }
}

/// Clone a member list; the clone holds the very same match values.
fn clone_members(v: &Vec<Match>) -> (r: Vec<Match>)
    ensures
        r@ == v@,
{
    let r = v.clone();
    proof {
        assert forall|i: int| 0 <= i < v@.len() implies r@[i] == v@[i] by {
            assert(vstd::pervasive::cloned::<Match>(v@[i], r@[i]));
        }
        assert(r@ =~= v@);
    }
    r
}

/// What `JsonRoot::from` builds for the cluster table: one record per
/// cluster, and the per-file tallies summed over all of them.
pub open spec fn json_root_ok(r: JsonRoot, cls: Seq<(Match, Vec<Match>)>) -> bool {
    &&& r.matches@.len() == cls.len()
    &&& forall|t: int|
        0 <= t < cls.len() ==> json_match_ok(
            #[trigger] r.matches@[t],
            seq![cls[t].0] + cls[t].1@,
        )
    &&& forall|t: int, t2: int|
        0 <= t < t2 < r.files@.len() ==> (#[trigger] r.files@[t]).0@ != (
        #[trigger] r.files@[t2]).0@
    &&& forall|t: int|
        0 <= t < r.files@.len() ==> (#[trigger] r.files@[t]).1.count_blocks == total_blocks_of(
            cls,
            r.files@[t].0@,
        )
    &&& forall|t: int|
        0 <= t < r.files@.len() ==> total_blocks_of(cls, (#[trigger] r.files@[t]).0@) >= 1
    &&& forall|f: Seq<char>|
        #[trigger] total_blocks_of(cls, f) >= 1 ==> has_file_entry(r.files@, f)
}

/// The version tag the report carries.
pub open spec fn spec_version() -> Seq<char> {
    "0.1.0"@
}

impl JsonRoot {
    pub fn unique_matches(&self) -> (r: usize)
        ensures
            r == self.matches@.len(),
    {
        self.matches.len()
    }

    /// The whole result: every cluster's record, and the files summary
    /// aggregated across clusters.
    #[verifier::rlimit(50)]
    #[verifier::spinoff_prover]
    pub fn from(m: Matches) -> (r: JsonRoot)
        requires
            forall|t: int| 0 <= t < m.0@.len() ==> (#[trigger] m.0@[t]).1@.len() < usize::MAX,
            forall|f: Seq<char>| #[trigger] total_blocks_of(m.0@, f) <= usize::MAX,
    ensures
            r.version@ == spec_version(),
            json_root_ok(r, m.0@),
    {
        let ghost cls = m.0@;
        let mut matches: Vec<JsonMatch> = Vec::new();
        let mut files: Vec<(String, JsonFileInfo)> = Vec::new();
        let n = m.0.len();
        let mut t: usize = 0;
        while t < n
            invariant
                t <= n,
                n == cls.len(),
                cls == m.0@,
                forall|t2: int| 0 <= t2 < cls.len() ==> (#[trigger] cls[t2]).1@.len() < usize::MAX,
                forall|f: Seq<char>| #[trigger] total_blocks_of(cls, f) <= usize::MAX,
                matches@.len() == t,
                forall|t2: int|
                    0 <= t2 < t ==> json_match_ok(
                        #[trigger] matches@[t2],
                        seq![cls[t2].0] + cls[t2].1@,
                    ),
                forall|t2: int, t3: int|
                    0 <= t2 < t3 < files@.len() ==> (#[trigger] files@[t2]).0@ != (
                    #[trigger] files@[t3]).0@,
                forall|t2: int|
                    0 <= t2 < files@.len() ==> (#[trigger] files@[t2]).1.count_blocks
                        == total_blocks_of(cls.take(t as int), files@[t2].0@),
                forall|t2: int|
                    0 <= t2 < files@.len() ==> total_blocks_of(cls.take(t as int), (
                    #[trigger] files@[t2]).0@) >= 1,
                forall|f: Seq<char>|
                    #[trigger] total_blocks_of(cls.take(t as int), f) >= 1 ==> has_file_entry(
                        files@,
                        f,
                    ),
            decreases n - t,
        {
            let key = m.0[t].0.clone();
            let members = clone_members(&m.0[t].1);
            let ghost all_t = seq![cls[t as int].0] + cls[t as int].1@;
            let jm = JsonMatch::from((key, members));
            proof {
                assert(cls.take(t + 1).drop_last() =~= cls.take(t as int));
                assert(cls.take(t + 1).last() == cls[t as int]);
            }

            // fold this record's tallies into the run summary
            let fl = jm.files.len();
            let mut s: usize = 0;
            while s < fl
                invariant
                    s <= fl,
                    fl == jm.files@.len(),
                    cls == m.0@,
                    0 <= t < cls.len(),
                    all_t == seq![cls[t as int].0] + cls[t as int].1@,
                    json_match_ok(jm, all_t),
                    forall|f: Seq<char>| #[trigger] total_blocks_of(cls, f) <= usize::MAX,
                    forall|t2: int, t3: int|
                        0 <= t2 < t3 < files@.len() ==> (#[trigger] files@[t2]).0@ != (
                        #[trigger] files@[t3]).0@,
                    forall|t2: int|
                        0 <= t2 < files@.len() ==> (#[trigger] files@[t2]).1.count_blocks
                            == total_blocks_of(cls.take(t as int), files@[t2].0@) + (if jm_prefix_has(
                            jm.files@,
                            s as int,
                            files@[t2].0@,
                        ) {
                            num_blocks_of(all_t, files@[t2].0@)
                        } else {
                            0int
                        }),
                    forall|t2: int|
                        0 <= t2 < files@.len() ==> total_blocks_of(cls.take(t as int), (
                        #[trigger] files@[t2]).0@) + (if jm_prefix_has(
                            jm.files@,
                            s as int,
                            files@[t2].0@,
                        ) {
                            num_blocks_of(all_t, files@[t2].0@)
                        } else {
                            0int
                        }) >= 1,
                    forall|f: Seq<char>|
                        (#[trigger] total_blocks_of(cls.take(t as int), f) >= 1 || jm_prefix_has(
                            jm.files@,
                            s as int,
                            f,
                        )) ==> has_file_entry(files@, f),
                decreases fl - s,
            {
                let ghost f = jm.files@[s as int].0@;
                let ghost c = jm.files@[s as int].1.count_blocks as int;
                proof {
                    assert(c == num_blocks_of(all_t, f));
                    assert(num_blocks_of(all_t, f) >= 1);
                    lemma_total_blocks_nonneg(cls.take(t as int), f);
                    // the total over all clusters bounds the running sum
                    assert(total_blocks_of(cls.take(t as int), f) + num_blocks_of(all_t, f)
                        <= total_blocks_of(cls, f)) by {
                        lemma_total_partial_bound(cls, f, t as int);
                    }
                }
                // find this file in the run summary
                let mut t2: usize = 0;
                let len = files.len();
                let mut found = false;
                while t2 < len && !found
                    invariant
                        t2 <= len,
                        len == files@.len(),
                        s < jm.files@.len(),
                        f == jm.files@[s as int].0@,
                        !found ==> forall|t3: int| 0 <= t3 < t2 ==> (#[trigger] files@[t3]).0@
                            != f,
                        found ==> t2 < len && files@[t2 as int].0@ == f,
                    decreases len - t2 + (if found {
                        0int
                    } else {
                        1int
                    }),
                {
                    if files[t2].0 == jm.files[s].0 {
                        found = true;
                    } else {
                        t2 = t2 + 1;
                    }
                }
                let ghost files0 = files@;
                proof {
                    assert(forall|f2: Seq<char>|
                        (#[trigger] total_blocks_of(cls.take(t as int), f2) >= 1 || jm_prefix_has(
                            jm.files@,
                            s as int,
                            f2,
                        )) ==> has_file_entry(files0, f2));
                }
                if found {
                    let mut fentry = files.remove(t2);
                    fentry.1.count_blocks = fentry.1.count_blocks + jm.files[s].1.count_blocks;
                    let ghost fentry_v = fentry;
                    files.insert(t2, fentry);
                    proof {
                        assert(files@ =~= files0.update(t2 as int, fentry_v));
                    }
                } else {
                    files.push(
                        (jm.files[s].0.clone(), JsonFileInfo { count_blocks: jm.files[s].1.count_blocks }),
                    );
                    proof {
                        assert(total_blocks_of(cls.take(t as int), f) == 0) by {
                            lemma_total_blocks_nonneg(cls.take(t as int), f);
                            if total_blocks_of(cls.take(t as int), f) >= 1 {
                                assert(has_file_entry(files0, f));
                                let t3 = choose|t3: int|
                                    0 <= t3 < files0.len() && (#[trigger] files0[t3]).0@ == f;
                                assert(false);
                            }
                        }
                    }
                }
                proof {
                    assert forall|t3: int| 0 <= t3 < files@.len() implies (
                    #[trigger] files@[t3]).1.count_blocks == total_blocks_of(
                        cls.take(t as int),
                        files@[t3].0@,
                    ) + (if jm_prefix_has(jm.files@, s + 1, files@[t3].0@) {
                        num_blocks_of(all_t, files@[t3].0@)
                    } else {
                        0int
                    }) by {
                        let g = files@[t3].0@;
                        if g == f {
                            assert(jm.files@[s as int].0@ == g);
                            assert(jm_prefix_has(jm.files@, s + 1, g));
                            assert(!jm_prefix_has(jm.files@, s as int, g)) by {
                                if jm_prefix_has(jm.files@, s as int, g) {
                                    let s2 = choose|s2: int|
                                        0 <= s2 < s && (#[trigger] jm.files@[s2]).0@ == g;
                                    assert(jm.files@[s2].0@ != jm.files@[s as int].0@);
                                }
                            }
                        } else {
                            if t3 < files0.len() {
                                assert(files@[t3] == files0[t3] || (found && t3 == t2 as int));
                            }
                            assert(files@[t3] == files0[t3]);
                            assert(jm_prefix_has(jm.files@, s + 1, g) == jm_prefix_has(
                                jm.files@,
                                s as int,
                                g,
                            )) by {
                                if jm_prefix_has(jm.files@, s + 1, g) {
                                    let s2 = choose|s2: int|
                                        0 <= s2 < s + 1 && (#[trigger] jm.files@[s2]).0@ == g;
                                    assert(s2 != s as int);
                                    assert(jm_prefix_has(jm.files@, s as int, g));
                                }
                                if jm_prefix_has(jm.files@, s as int, g) {
                                    let s2 = choose|s2: int|
                                        0 <= s2 < s && (#[trigger] jm.files@[s2]).0@ == g;
                                    assert(jm_prefix_has(jm.files@, s + 1, g));
                                }
                            }
                        }
                    }
                    assert forall|f2: Seq<char>|
                        (#[trigger] total_blocks_of(cls.take(t as int), f2) >= 1 || jm_prefix_has(
                            jm.files@,
                            s + 1,
                            f2,
                        )) implies has_file_entry(files@, f2) by {
                        if f2 == f {
                            if found {
                                assert(files@[t2 as int].0@ == f);
                            } else {
                                assert(files@[files@.len() - 1].0@ == f);
                            }
                        } else {
                            assert(total_blocks_of(cls.take(t as int), f2) >= 1 || jm_prefix_has(
                                jm.files@,
                                s as int,
                                f2,
                            )) by {
                                if !(total_blocks_of(cls.take(t as int), f2) >= 1) {
                                    let s2 = choose|s2: int|
                                        0 <= s2 < s + 1 && (#[trigger] jm.files@[s2]).0@ == f2;
                                    assert(s2 != s as int);
                                    assert(jm_prefix_has(jm.files@, s as int, f2));
                                }
                            }
                            assert(has_file_entry(files0, f2));
                            let t3 = choose|t3: int|
                                0 <= t3 < files0.len() && (#[trigger] files0[t3]).0@ == f2;
                            assert(files@[t3].0 == files0[t3].0) by {
                                if found {
                                    assert(files@ =~= files0.update(t2 as int, files@[t2 as int]));
                                }
                            }
                            assert(files@[t3].0@ == f2);
                        }
                    }
                }
                let ghost s_old = s as int;
                s = s + 1;
                proof {
                    assert forall|f2: Seq<char>|
                        (#[trigger] total_blocks_of(cls.take(t as int), f2) >= 1 || jm_prefix_has(
                            jm.files@,
                            s as int,
                            f2,
                        )) implies has_file_entry(files@, f2) by {
                        assert(s as int == s_old + 1);
                        assert((total_blocks_of(cls.take(t as int), f2) >= 1 || jm_prefix_has(
                            jm.files@,
                            s_old + 1,
                            f2,
                        )) ==> has_file_entry(files@, f2));
                    }
                }
            }
            proof {
                // a cluster's files all appear among its record's keys, so
                // after folding the whole record the sums line up
                assert forall|t3: int| 0 <= t3 < files@.len() implies (
                #[trigger] files@[t3]).1.count_blocks == total_blocks_of(
                    cls.take(t + 1),
                    files@[t3].0@,
                ) by {
                    let g = files@[t3].0@;
                    lemma_num_blocks_occurs(all_t, g);
                    if jm_prefix_has(jm.files@, jm.files@.len() as int, g) {
                    } else {
                        assert(num_blocks_of(all_t, g) == 0) by {
                            lemma_num_blocks_bounds(all_t, g);
                            if num_blocks_of(all_t, g) > 0 {
                                assert(exists|u: int| 0 <= u < all_t.len() && all_t[u].file@ == g);
                                let w = choose|w: int|
                                    0 <= w < all_t.len() && all_t[w].file@ == g;
                                assert(all_t[w].file@ == g);
                                assert(has_file_entry(jm.files@, all_t[w].file@));
                                let s2 = choose|s2: int|
                                    0 <= s2 < jm.files@.len() && (#[trigger] jm.files@[s2]).0@
                                        == all_t[w].file@;
                                assert(jm.files@[s2].0@ == g);
                                assert(jm_prefix_has(jm.files@, jm.files@.len() as int, g));
                                assert(false);
                            }
                        }
                    }
                }
                assert forall|t3: int| 0 <= t3 < files@.len() implies total_blocks_of(
                    cls.take(t + 1),
                    (#[trigger] files@[t3]).0@,
                ) >= 1 by {
                    lemma_total_blocks_nonneg(cls.take(t as int), files@[t3].0@);
                    lemma_num_blocks_bounds(all_t, files@[t3].0@);
                }
                assert forall|f2: Seq<char>| #[trigger] total_blocks_of(cls.take(t + 1), f2)
                    >= 1 implies has_file_entry(files@, f2) by {
                    lemma_total_blocks_nonneg(cls.take(t as int), f2);
                    lemma_num_blocks_bounds(all_t, f2);
                    if num_blocks_of(all_t, f2) >= 1 {
                        lemma_num_blocks_occurs(all_t, f2);
                        let w = choose|w: int|
                            0 <= w < all_t.len() && (#[trigger] all_t[w]).file@ == f2;
                        assert(has_file_entry(jm.files@, all_t[w].file@));
                        let s2 = choose|s2: int|
                            0 <= s2 < jm.files@.len() && (#[trigger] jm.files@[s2]).0@
                                == all_t[w].file@;
                        assert(jm.files@[s2].0@ == f2);
                        assert(exists|s3: int|
                            0 <= s3 < jm.files@.len() && (#[trigger] jm.files@[s3]).0@ == f2);
                    }
                }
            }
            matches.push(jm);
            t = t + 1;
        }
        proof {
            assert(cls.take(n as int) =~= cls);
        }
        let version = String::from_str("0.1.0");
        JsonRoot { version, files, matches }
    }
}

/// How often a block record occurs in a list.
pub open spec fn occ_block(s: Seq<JsonBlockInfo>, x: JsonBlockInfo) -> int
    decreases s.len(),
{
    if s.len() == 0 {
        0
    } else {
        occ_block(s.drop_last(), x) + if s.last() == x {
            1int
        } else {
            0int
        }
    }
}

/// Two block lists agree as multisets: every record occurs equally often.
pub open spec fn blocks_multiset_eq(a: Seq<JsonBlockInfo>, b: Seq<JsonBlockInfo>) -> bool {
    forall|x: JsonBlockInfo| #[trigger] occ_block(a, x) == occ_block(b, x)
}

proof fn lemma_occ_block_bounds(s: Seq<JsonBlockInfo>, x: JsonBlockInfo)
    ensures
        0 <= occ_block(s, x) <= s.len(),
        occ_block(s, x) > 0 <==> exists|i: int| 0 <= i < s.len() && s[i] == x,
    decreases s.len(),
{
    if s.len() > 0 {
        lemma_occ_block_bounds(s.drop_last(), x);
        if s.last() == x {
            assert(s[s.len() - 1] == x);
        } else {
            if occ_block(s, x) > 0 {
                let i = choose|i: int| 0 <= i < s.drop_last().len() && s.drop_last()[i] == x;
                assert(s[i] == x);
            } else {
                if exists|i: int| 0 <= i < s.len() && s[i] == x {
                    let i = choose|i: int| 0 <= i < s.len() && s[i] == x;
                    assert(i < s.len() - 1);
                    assert(s.drop_last()[i] == x);
                }
            }
        }
    }
}

/// Count a block record's occurrences.
fn count_block(v: &Vec<JsonBlockInfo>, x: JsonBlockInfo) -> (c: usize)
    ensures
        c == occ_block(v@, x),
{
    let mut c: usize = 0;
    let mut k: usize = 0;
    let n = v.len();
    while k < n
        invariant
            k <= n,
            n == v@.len(),
            c <= k,
            c == occ_block(v@.take(k as int), x),
        decreases n - k,
    {
        proof {
            assert(v@.take(k + 1).drop_last() =~= v@.take(k as int));
            assert(v@.take(k + 1).last() == v@[k as int]);
        }
        if v[k].starting_line == x.starting_line && v[k].block_length == x.block_length {
            proof {
                assert(v@[k as int] == x);
            }
            c = c + 1;
        } else {
            proof {
                assert(v@[k as int] != x);
            }
        }
        k = k + 1;
    }
    proof {
        assert(v@.take(n as int) =~= v@);
    }
    c
}

/// Whether two block lists hold the same records, each equally often.
fn same_block_multiset(a: &Vec<JsonBlockInfo>, b: &Vec<JsonBlockInfo>) -> (r: bool)
    ensures
        r == blocks_multiset_eq(a@, b@),
{
    let mut k: usize = 0;
    let n = a.len();
    while k < n
        invariant
            k <= n,
            n == a@.len(),
            forall|t: int|
                0 <= t < k ==> occ_block(a@, #[trigger] a@[t]) == occ_block(b@, a@[t]),
        decreases n - k,
    {
        let x = a[k];
        if count_block(a, x) != count_block(b, x) {
            proof {
                assert(occ_block(a@, a@[k as int]) != occ_block(b@, a@[k as int]));
            }
            return false;
        }
        k = k + 1;
    }
    let mut k2: usize = 0;
    let n2 = b.len();
    while k2 < n2
        invariant
            k2 <= n2,
            n2 == b@.len(),
            forall|t: int|
                0 <= t < a@.len() ==> occ_block(a@, #[trigger] a@[t]) == occ_block(b@, a@[t]),
            forall|t: int|
                0 <= t < k2 ==> occ_block(a@, #[trigger] b@[t]) == occ_block(b@, b@[t]),
        decreases n2 - k2,
    {
        let x = b[k2];
        if count_block(a, x) != count_block(b, x) {
            proof {
                assert(occ_block(a@, b@[k2 as int]) != occ_block(b@, b@[k2 as int]));
            }
            return false;
        }
        k2 = k2 + 1;
    }
    proof {
        assert forall|x: JsonBlockInfo| #[trigger] occ_block(a@, x) == occ_block(b@, x) by {
            lemma_occ_block_bounds(a@, x);
            lemma_occ_block_bounds(b@, x);
            if occ_block(a@, x) > 0 {
                let i = choose|i: int| 0 <= i < a@.len() && a@[i] == x;
                assert(occ_block(a@, a@[i]) == occ_block(b@, a@[i]));
            } else if occ_block(b@, x) > 0 {
                let i = choose|i: int| 0 <= i < b@.len() && b@[i] == x;
                assert(occ_block(a@, b@[i]) == occ_block(b@, b@[i]));
            }
        }
    }
    true
}

/// The first entry under this key, if any: its count.
pub open spec fn first_file_count(entries: Seq<(String, JsonFileInfo)>, f: Seq<char>) -> int
    decreases entries.len(),
{
    if entries.len() == 0 {
        0
    } else if entries[0].0@ == f {
        entries[0].1.count_blocks as int
    } else {
        first_file_count(entries.drop_first(), f)
    }
}

/// The first entry under this key, if any: its block list.
pub open spec fn first_block_list(
    entries: Seq<(String, Vec<JsonBlockInfo>)>,
    f: Seq<char>,
) -> Seq<JsonBlockInfo>
    decreases entries.len(),
{
    if entries.len() == 0 {
        Seq::<JsonBlockInfo>::empty()
    } else if entries[0].0@ == f {
        entries[0].1@
    } else {
        first_block_list(entries.drop_first(), f)
    }
}

/// Whether some entry of the block table carries this file key.
pub open spec fn has_block_entry(entries: Seq<(String, Vec<JsonBlockInfo>)>, f: Seq<char>) -> bool {
    exists|t: int| 0 <= t < entries.len() && (#[trigger] entries[t]).0@ == f
}

proof fn lemma_first_file_count_at(entries: Seq<(String, JsonFileInfo)>, t: int, f: Seq<char>)
    requires
        0 <= t < entries.len(),
        entries[t].0@ == f,
        forall|t2: int| 0 <= t2 < t ==> (#[trigger] entries[t2]).0@ != f,
    ensures
        first_file_count(entries, f) == entries[t].1.count_blocks,
    decreases t,
{
    if t > 0 {
        lemma_first_file_count_at(entries.drop_first(), t - 1, f);
        assert(entries.drop_first()[t - 1] == entries[t]);
        assert forall|t2: int| 0 <= t2 < t - 1 implies (#[trigger] entries.drop_first()[t2]).0@
            != f by {
            assert(entries.drop_first()[t2] == entries[t2 + 1]);
        }
        assert(entries[0].0@ != f);
    }
}

proof fn lemma_first_block_list_at(entries: Seq<(String, Vec<JsonBlockInfo>)>, t: int, f: Seq<char>)
    requires
        0 <= t < entries.len(),
        entries[t].0@ == f,
        forall|t2: int| 0 <= t2 < t ==> (#[trigger] entries[t2]).0@ != f,
    ensures
        first_block_list(entries, f) == entries[t].1@,
    decreases t,
{
    if t > 0 {
        lemma_first_block_list_at(entries.drop_first(), t - 1, f);
        assert(entries.drop_first()[t - 1] == entries[t]);
        assert forall|t2: int| 0 <= t2 < t - 1 implies (#[trigger] entries.drop_first()[t2]).0@
            != f by {
            assert(entries.drop_first()[t2] == entries[t2 + 1]);
        }
        assert(entries[0].0@ != f);
    }
}

/// Structural equality of two cluster records: same file tallies, and per
/// file the same blocks as an unordered multiset.
pub open spec fn json_match_eq(a: JsonMatch, b: JsonMatch) -> bool {
    &&& a.files@.len() == b.files@.len()
    &&& forall|t: int|
        0 <= t < a.files@.len() ==> has_file_entry(b.files@, (#[trigger] a.files@[t]).0@)
            && first_file_count(b.files@, a.files@[t].0@) == a.files@[t].1.count_blocks
    &&& a.blocks@.len() == b.blocks@.len()
    &&& forall|t: int|
        0 <= t < a.blocks@.len() ==> has_block_entry(b.blocks@, (#[trigger] a.blocks@[t]).0@)
            && blocks_multiset_eq(a.blocks@[t].1@, first_block_list(b.blocks@, a.blocks@[t].0@))
}

impl PartialEq for JsonMatch {
    fn eq(&self, other: &Self) -> (r: bool) {
        if self.files.len() != other.files.len() || self.blocks.len() != other.blocks.len() {
            return false;
        }
        let n = self.files.len();
        let mut t: usize = 0;
        while t < n
            invariant
                t <= n,
                n == self.files@.len(),
                self.files@.len() == other.files@.len(),
                self.blocks@.len() == other.blocks@.len(),
                forall|t2: int|
                    0 <= t2 < t ==> has_file_entry(other.files@, (#[trigger] self.files@[t2]).0@)
                        && first_file_count(other.files@, self.files@[t2].0@)
                        == self.files@[t2].1.count_blocks,
            decreases n - t,
        {
            let mut u: usize = 0;
            let on = other.files.len();
            let mut found = false;
            while u < on && !found
                invariant
                    u <= on,
                    on == other.files@.len(),
                    t < self.files@.len(),
                    forall|u2: int|
                        0 <= u2 < u ==> (#[trigger] other.files@[u2]).0@ != self.files@[t as int].0@,
                    found ==> u < on && other.files@[u as int].0@ == self.files@[t as int].0@,
                decreases on - u + (if found {
                    0int
                } else {
                    1int
                }),
            {
                if other.files[u].0 == self.files[t].0 {
                    found = true;
                } else {
                    u = u + 1;
                }
            }
            if !found {
                proof {
                    assert(!has_file_entry(other.files@, self.files@[t as int].0@)) by {
                        if has_file_entry(other.files@, self.files@[t as int].0@) {
                            let u2 = choose|u2: int|
                                0 <= u2 < other.files@.len() && (#[trigger] other.files@[u2]).0@
                                    == self.files@[t as int].0@;
                            assert(false);
                        }
                    }
                }
                return false;
            }
            proof {
                lemma_first_file_count_at(
                    other.files@,
                    u as int,
                    self.files@[t as int].0@,
                );
            }
            if other.files[u].1.count_blocks != self.files[t].1.count_blocks {
                proof {
                    assert(first_file_count(other.files@, self.files@[t as int].0@)
                        != self.files@[t as int].1.count_blocks);
                }
                return false;
            }
            t = t + 1;
        }
        let bn = self.blocks.len();
        let mut tb: usize = 0;
        while tb < bn
            invariant
                tb <= bn,
                bn == self.blocks@.len(),
                self.files@.len() == other.files@.len(),
                self.blocks@.len() == other.blocks@.len(),
                forall|t2: int|
                    0 <= t2 < self.files@.len() ==> has_file_entry(
                        other.files@,
                        (#[trigger] self.files@[t2]).0@,
                    ) && first_file_count(other.files@, self.files@[t2].0@)
                        == self.files@[t2].1.count_blocks,
                forall|t2: int|
                    0 <= t2 < tb ==> has_block_entry(
                        other.blocks@,
                        (#[trigger] self.blocks@[t2]).0@,
                    ) && blocks_multiset_eq(
                        self.blocks@[t2].1@,
                        first_block_list(other.blocks@, self.blocks@[t2].0@),
                    ),
            decreases bn - tb,
        {
            let mut u: usize = 0;
            let on = other.blocks.len();
            let mut found = false;
            while u < on && !found
                invariant
                    u <= on,
                    on == other.blocks@.len(),
                    tb < self.blocks@.len(),
                    forall|u2: int|
                        0 <= u2 < u ==> (#[trigger] other.blocks@[u2]).0@ != self.blocks@[tb as int].0@,
                    found ==> u < on && other.blocks@[u as int].0@ == self.blocks@[tb as int].0@,
                decreases on - u + (if found {
                    0int
                } else {
                    1int
                }),
            {
                if other.blocks[u].0 == self.blocks[tb].0 {
                    found = true;
                } else {
                    u = u + 1;
                }
            }
            if !found {
                proof {
                    assert(!has_block_entry(other.blocks@, self.blocks@[tb as int].0@)) by {
                        if has_block_entry(other.blocks@, self.blocks@[tb as int].0@) {
                            let u2 = choose|u2: int|
                                0 <= u2 < other.blocks@.len() && (#[trigger] other.blocks@[u2]).0@
                                    == self.blocks@[tb as int].0@;
                            assert(false);
                        }
                    }
                }
                return false;
            }
            proof {
                lemma_first_block_list_at(
                    other.blocks@,
                    u as int,
                    self.blocks@[tb as int].0@,
                );
            }
            if !same_block_multiset(&self.blocks[tb].1, &other.blocks[u].1) {
                proof {
                    assert(!blocks_multiset_eq(
                        self.blocks@[tb as int].1@,
                        first_block_list(other.blocks@, self.blocks@[tb as int].0@),
                    ));
                }
                return false;
            }
            tb = tb + 1;
        }
        true
    }
}

impl vstd::std_specs::cmp::PartialEqSpecImpl for JsonMatch {
    open spec fn obeys_eq_spec() -> bool {
        true
    }

    open spec fn eq_spec(&self, other: &Self) -> bool {
        json_match_eq(*self, *other)
    }
}

/// Whether some record of the list equals the given one.
pub open spec fn root_has_match(bs: Seq<JsonMatch>, jm: JsonMatch) -> bool {
    exists|u: int| 0 <= u < bs.len() && json_match_eq(jm, #[trigger] bs[u])
}

/// Structural equality of two whole results: the same number of cluster
/// records, and each of the first's records equal to one of the second's.
pub open spec fn json_root_eq(a: JsonRoot, b: JsonRoot) -> bool {
    &&& a.matches@.len() == b.matches@.len()
    &&& forall|t: int|
        0 <= t < a.matches@.len() ==> #[trigger] root_has_match(b.matches@, a.matches@[t])
}

impl PartialEq for JsonRoot {
    fn eq(&self, other: &Self) -> (r: bool) {
        if self.matches.len() != other.matches.len() {
            return false;
        }
        let n = self.matches.len();
        let mut t: usize = 0;
        while t < n
            invariant
                t <= n,
                n == self.matches@.len(),
                self.matches@.len() == other.matches@.len(),
                forall|t2: int|
                    0 <= t2 < t ==> #[trigger] root_has_match(other.matches@, self.matches@[t2]),
            decreases n - t,
        {
            let mut u: usize = 0;
            let on = other.matches.len();
            let mut found = false;
            while u < on && !found
                invariant
                    u <= on,
                    on == other.matches@.len(),
                    t < self.matches@.len(),
                    !found ==> forall|u2: int|
                        0 <= u2 < u ==> !json_match_eq(
                            self.matches@[t as int],
                            #[trigger] other.matches@[u2],
                        ),
                    found ==> u < on && json_match_eq(
                        self.matches@[t as int],
                        other.matches@[u as int],
                    ),
                decreases on - u + (if found {
                    0int
                } else {
                    1int
                }),
            {
                if self.matches[t] == other.matches[u] {
                    found = true;
                } else {
                    u = u + 1;
                }
            }
            if !found {
                proof {
                    assert(!root_has_match(other.matches@, self.matches@[t as int])) by {
                        if root_has_match(other.matches@, self.matches@[t as int]) {
                            let u2 = choose|u2: int|
                                0 <= u2 < other.matches@.len() && json_match_eq(
                                    self.matches@[t as int],
                                    #[trigger] other.matches@[u2],
                                );
                            assert(false);
                        }
                    }
                }
                return false;
            }
            proof {
                assert(root_has_match(other.matches@, self.matches@[t as int]));
            }
            t = t + 1;
        }
        true
    }
}

impl vstd::std_specs::cmp::PartialEqSpecImpl for JsonRoot {
    open spec fn obeys_eq_spec() -> bool {
        true
    }

    open spec fn eq_spec(&self, other: &Self) -> bool {
        json_root_eq(*self, *other)
    }
}

/// Partial sums never exceed the full tally.
proof fn lemma_total_partial_bound(cls: Seq<(Match, Vec<Match>)>, f: Seq<char>, t: int)
    requires
        0 <= t < cls.len(),
    ensures
        total_blocks_of(cls.take(t), f) + num_blocks_of(seq![cls[t].0] + cls[t].1@, f)
            <= total_blocks_of(cls, f),
    decreases cls.len(),
{
    if t == cls.len() - 1 {
        assert(cls.take(t) =~= cls.drop_last());
        assert(cls.last() == cls[t]);
    } else {
        lemma_total_partial_bound(cls.drop_last(), f, t);
        assert(cls.drop_last().take(t) =~= cls.take(t));
        assert(cls.drop_last()[t] == cls[t]);
        lemma_num_blocks_bounds(seq![cls.last().0] + cls.last().1@, f);
    }
}

/// The match a block record of a file stands for.
spec fn matchv_of_block(f: Seq<char>, b: JsonBlockInfo) -> crate::types::MatchV {
    crate::types::MatchV { file: f, line: b.starting_line as int, size: b.block_length as int }
}

/// The matches of the set lying in the file.
spec fn set_in_file(s: Set<crate::types::MatchV>, f: Seq<char>) -> Set<
    crate::types::MatchV,
> {
    s.filter(|mv: crate::types::MatchV| mv.file == f)
}

/// On a duplicate-free member list, the per-file tally counts exactly the
/// member set's matches in that file.
proof fn lemma_num_blocks_card(all: Seq<Match>, f: Seq<char>)
    requires
        crate::merge::members_view(all).no_duplicates(),
    ensures
        crate::merge::members_view(all).to_set().finite(),
        num_blocks_of(all, f) == set_in_file(crate::merge::members_view(all).to_set(), f).len(),
    decreases all.len(),
{
    broadcast use vstd::seq_lib::seq_to_set_is_finite;
    broadcast use vstd::set::group_set_axioms;

    let v = crate::merge::members_view(all);
    if all.len() == 0 {
        assert(set_in_file(v.to_set(), f) =~= Set::<crate::types::MatchV>::empty());
    } else {
        let pre = all.drop_last();
        let prev = crate::merge::members_view(pre);
        let lastv = all.last()@;
        assert(prev =~= v.drop_last());
        assert(prev.no_duplicates()) by {
            assert forall|p: int, q: int| 0 <= p < q < prev.len() implies prev[p] != prev[q] by {
                assert(v[p] != v[q]);
            }
        }
        lemma_num_blocks_card(pre, f);
        assert(v =~= prev + seq![lastv]);
        Seq::lemma_to_set_insert_commutes(prev, lastv);
        assert(v.to_set() == prev.to_set().insert(lastv));
        assert(!prev.to_set().contains(lastv)) by {
            if prev.to_set().contains(lastv) {
                let j = choose|j: int| 0 <= j < prev.len() && prev[j] == lastv;
                assert(v[j] == v[v.len() - 1]);
            }
        }
        let s0 = set_in_file(prev.to_set(), f);
        let s1 = set_in_file(v.to_set(), f);
        prev.to_set().lemma_len_filter(|mv: crate::types::MatchV| mv.file == f);
        if all.last().file@ == f {
            assert(s1 =~= s0.insert(lastv));
            assert(!s0.contains(lastv));
            assert(s1.len() == s0.len() + 1);
        } else {
            assert(s1 =~= s0);
        }
    }
}

/// On a duplicate-free member list, each block record occurs in a file's
/// block list exactly when the member set holds the match it stands for,
/// and then exactly once.
proof fn lemma_occ_blocks_card(all: Seq<Match>, f: Seq<char>, b: JsonBlockInfo)
    requires
        crate::merge::members_view(all).no_duplicates(),
    ensures
        occ_block(blocks_of(all, f), b) == (if crate::merge::members_view(all).to_set().contains(
            matchv_of_block(f, b),
        ) {
            1int
        } else {
            0int
        }),
    decreases all.len(),
{
    broadcast use vstd::seq_lib::seq_to_set_is_finite;
    broadcast use vstd::set::group_set_axioms;

    let v = crate::merge::members_view(all);
    let mvb = matchv_of_block(f, b);
    if all.len() == 0 {
        assert(!v.to_set().contains(mvb)) by {
            if v.to_set().contains(mvb) {
                let j = choose|j: int| 0 <= j < v.len() && v[j] == mvb;
            }
        }
    } else {
        let pre = all.drop_last();
        let prev = crate::merge::members_view(pre);
        let lastv = all.last()@;
        assert(prev =~= v.drop_last());
        assert(prev.no_duplicates()) by {
            assert forall|p: int, q: int| 0 <= p < q < prev.len() implies prev[p] != prev[q] by {
                assert(v[p] != v[q]);
            }
        }
        lemma_occ_blocks_card(pre, f, b);
        assert(v =~= prev + seq![lastv]);
        Seq::lemma_to_set_insert_commutes(prev, lastv);
        assert(v.to_set() == prev.to_set().insert(lastv));
        assert(!prev.to_set().contains(lastv)) by {
            if prev.to_set().contains(lastv) {
                let j = choose|j: int| 0 <= j < prev.len() && prev[j] == lastv;
                assert(v[j] == v[v.len() - 1]);
            }
        }
        if all.last().file@ == f {
            let bl = blocks_of(pre, f);
            assert(blocks_of(all, f) == bl.push(block_info_of(all.last())));
            assert(bl.push(block_info_of(all.last())).drop_last() =~= bl);
            if block_info_of(all.last()) == b {
                assert(lastv =~= mvb);
                assert(occ_block(blocks_of(all, f), b) == occ_block(bl, b) + 1);
                assert(!prev.to_set().contains(mvb));
            } else {
                assert(lastv != mvb) by {
                    if lastv == mvb {
                        assert(all.last().line == b.starting_line);
                        assert(all.last().size == b.block_length);
                    }
                }
                assert(occ_block(blocks_of(all, f), b) == occ_block(bl, b));
                assert(v.to_set().contains(mvb) == prev.to_set().contains(mvb));
            }
        } else {
            assert(blocks_of(all, f) == blocks_of(pre, f));
            assert(lastv != mvb);
            assert(v.to_set().contains(mvb) == prev.to_set().contains(mvb));
        }
    }
}

/// Two duplicate-free key lists that cover each other have the same length.
proof fn lemma_equal_key_sets_equal_len(k1: Seq<Seq<char>>, k2: Seq<Seq<char>>)
    requires
        k1.no_duplicates(),
        k2.no_duplicates(),
        forall|x: Seq<char>| k1.contains(x) <==> k2.contains(x),
    ensures
        k1.len() == k2.len(),
{
    k1.unique_seq_to_set();
    k2.unique_seq_to_set();
    assert(k1.to_set() =~= k2.to_set());
}

/// Two cluster records built over one and the same set of matches are
/// structurally equal: same per-file tallies, same block multisets.
proof fn lemma_records_of_same_set_eq(
    rec1: JsonMatch,
    rec2: JsonMatch,
    all1: Seq<Match>,
    all2: Seq<Match>,
)
    requires
        json_match_ok(rec1, all1),
        json_match_ok(rec2, all2),
        crate::merge::members_view(all1).no_duplicates(),
        crate::merge::members_view(all2).no_duplicates(),
        crate::merge::members_view(all1).to_set() == crate::merge::members_view(all2).to_set(),
    ensures
        json_match_eq(rec1, rec2),
{
    // the same set gives the same tallies and the same block occurrences
    assert forall|f: Seq<char>| #[trigger] num_blocks_of(all1, f) == num_blocks_of(all2, f) by {
        lemma_num_blocks_card(all1, f);
        lemma_num_blocks_card(all2, f);
    }
    assert forall|f: Seq<char>, b: JsonBlockInfo| #[trigger] occ_block(blocks_of(all1, f), b)
        == occ_block(blocks_of(all2, f), b) by {
        lemma_occ_blocks_card(all1, f, b);
        lemma_occ_blocks_card(all2, f, b);
    }
    // each of rec1's file keys is one of rec2's, and the other way round
    assert forall|f: Seq<char>| has_file_entry(rec1.files@, f) implies has_file_entry(
        rec2.files@,
        f,
    ) by {
        let t = choose|t: int| 0 <= t < rec1.files@.len() && (#[trigger] rec1.files@[t]).0@ == f;
        assert(num_blocks_of(all1, f) >= 1);
        lemma_num_blocks_occurs(all2, f);
        let u = choose|u: int| 0 <= u < all2.len() && all2[u].file@ == f;
        assert(has_file_entry(rec2.files@, all2[u].file@));
    }
    assert forall|f: Seq<char>| has_file_entry(rec2.files@, f) implies has_file_entry(
        rec1.files@,
        f,
    ) by {
        let t = choose|t: int| 0 <= t < rec2.files@.len() && (#[trigger] rec2.files@[t]).0@ == f;
        assert(num_blocks_of(all2, f) >= 1);
        lemma_num_blocks_occurs(all1, f);
        let u = choose|u: int| 0 <= u < all1.len() && all1[u].file@ == f;
        assert(has_file_entry(rec1.files@, all1[u].file@));
    }
    // equal key coverage with unique keys pins the lengths
    let kf1 = rec1.files@.map_values(|e: (String, JsonFileInfo)| e.0@);
    let kf2 = rec2.files@.map_values(|e: (String, JsonFileInfo)| e.0@);
    assert(kf1.no_duplicates());
    assert(kf2.no_duplicates());
    assert forall|x: Seq<char>| kf1.contains(x) <==> kf2.contains(x) by {
        assert(kf1.contains(x) == has_file_entry(rec1.files@, x)) by {
            if kf1.contains(x) {
                let t = choose|t: int| 0 <= t < kf1.len() && kf1[t] == x;
                assert(rec1.files@[t].0@ == x);
            }
            if has_file_entry(rec1.files@, x) {
                let t = choose|t: int|
                    0 <= t < rec1.files@.len() && (#[trigger] rec1.files@[t]).0@ == x;
                assert(kf1[t] == x);
            }
        }
        assert(kf2.contains(x) == has_file_entry(rec2.files@, x)) by {
            if kf2.contains(x) {
                let t = choose|t: int| 0 <= t < kf2.len() && kf2[t] == x;
                assert(rec2.files@[t].0@ == x);
            }
            if has_file_entry(rec2.files@, x) {
                let t = choose|t: int|
                    0 <= t < rec2.files@.len() && (#[trigger] rec2.files@[t]).0@ == x;
                assert(kf2[t] == x);
            }
        }
    }
    lemma_equal_key_sets_equal_len(kf1, kf2);
    assert(rec1.files@.len() == rec2.files@.len());
    assert(rec1.blocks@.len() == rec2.blocks@.len());

    // entry by entry: matched key, equal count, equal block multiset
    assert forall|t: int| 0 <= t < rec1.files@.len() implies has_file_entry(
        rec2.files@,
        (#[trigger] rec1.files@[t]).0@,
    ) && first_file_count(rec2.files@, rec1.files@[t].0@) == rec1.files@[t].1.count_blocks by {
        let f = rec1.files@[t].0@;
        assert(has_file_entry(rec1.files@, f)) by {
            assert(rec1.files@[t].0@ == f);
        }
        assert(has_file_entry(rec2.files@, f));
        let t2 = choose|t2: int| 0 <= t2 < rec2.files@.len() && (#[trigger] rec2.files@[t2]).0@ == f;
        assert forall|t3: int| 0 <= t3 < t2 implies (#[trigger] rec2.files@[t3]).0@ != f by {}
        lemma_first_file_count_at(rec2.files@, t2, f);
        assert(rec2.files@[t2].1.count_blocks == num_blocks_of(all2, f));
    }
    assert forall|t: int| 0 <= t < rec1.blocks@.len() implies has_block_entry(
        rec2.blocks@,
        (#[trigger] rec1.blocks@[t]).0@,
    ) && blocks_multiset_eq(
        rec1.blocks@[t].1@,
        first_block_list(rec2.blocks@, rec1.blocks@[t].0@),
    ) by {
        let f = rec1.blocks@[t].0@;
        assert(rec1.files@[t].0@ == f);
        assert(has_file_entry(rec1.files@, f)) by {
            assert(rec1.files@[t].0@ == f);
        }
        assert(has_file_entry(rec2.files@, f));
        let t2 = choose|t2: int| 0 <= t2 < rec2.files@.len() && (#[trigger] rec2.files@[t2]).0@ == f;
        assert(rec2.blocks@[t2].0@ == f);
        assert(has_block_entry(rec2.blocks@, f)) by {
            assert(rec2.blocks@[t2].0@ == f);
        }
        assert forall|t3: int| 0 <= t3 < t2 implies (#[trigger] rec2.blocks@[t3]).0@ != f by {
            assert(rec2.files@[t3].0@ != f);
        }
        lemma_first_block_list_at(rec2.blocks@, t2, f);
        assert(rec2.blocks@[t2].1@ == blocks_of(all2, f));
        assert(rec1.blocks@[t].1@ == blocks_of(all1, f));
        assert(blocks_multiset_eq(blocks_of(all1, f), blocks_of(all2, f)));
    }
}

/// Two runs whose merged tables record the same matches in the same
/// clusters render structurally equal reports: the fungible key choice,
/// the member order and the cluster order all wash out of `json_root_eq`.
pub proof fn lemma_equal_partitions_equal_reports(
    r1: JsonRoot,
    r2: JsonRoot,
    t1: Matches,
    t2: Matches,
    lk1: Map<crate::types::MatchV, crate::types::MatchV>,
    lk2: Map<crate::types::MatchV, crate::types::MatchV>,
)
    requires
        t1.wf(),
        t2.wf(),
        crate::merge::clusters_wf(lk1, t1@),
        crate::merge::clusters_wf(lk2, t2@),
        json_root_ok(r1, t1.0@),
        json_root_ok(r2, t2.0@),
        forall|mv: crate::types::MatchV| lk1.contains_key(mv) <==> lk2.contains_key(mv),
        forall|mv: crate::types::MatchV|
            #![trigger crate::merge::cluster_of(lk1, t1@, mv)]
            lk1.contains_key(mv) ==> crate::merge::cluster_of(lk1, t1@, mv)
                == crate::merge::cluster_of(lk2, t2@, mv),
    ensures
        json_root_eq(r1, r2),
{
    broadcast use vstd::seq_lib::seq_to_set_is_finite;
    broadcast use vstd::set::group_set_axioms;

    let cls1 = t1.0@;
    let cls2 = t2.0@;
    let cl1 = t1@;
    let cl2 = t2@;
    crate::merge::lemma_clusters_map_props(cls1);
    crate::merge::lemma_clusters_map_props(cls2);

    // the cluster counts agree: keys biject with classes, classes coincide
    let keys1 = cls1.map_values(|e: (Match, Vec<Match>)| e.0@);
    let keys2 = cls2.map_values(|e: (Match, Vec<Match>)| e.0@);
    assert(keys1.no_duplicates());
    assert(keys2.no_duplicates());
    keys1.unique_seq_to_set();
    keys2.unique_seq_to_set();
    let bigk1 = keys1.to_set();
    let bigk2 = keys2.to_set();
    assert forall|x: crate::types::MatchV| #[trigger] bigk1.contains(x) implies cl1.contains_key(
        x,
    ) && lk1.contains_key(x) && lk1[x] == x by {
        let i = choose|i: int| 0 <= i < keys1.len() && keys1[i] == x;
        assert(cls1[i].0@ == x);
    }
    assert forall|x: crate::types::MatchV| #[trigger] cl1.contains_key(x) implies bigk1.contains(
        x,
    ) by {
        let i = choose|i: int| 0 <= i < cls1.len() && cls1[i].0@ == x;
        assert(keys1[i] == x);
    }
    assert forall|x: crate::types::MatchV| #[trigger] bigk2.contains(x) implies cl2.contains_key(
        x,
    ) && lk2.contains_key(x) && lk2[x] == x by {
        let i = choose|i: int| 0 <= i < keys2.len() && keys2[i] == x;
        assert(cls2[i].0@ == x);
    }
    assert forall|x: crate::types::MatchV| #[trigger] cl2.contains_key(x) implies bigk2.contains(
        x,
    ) by {
        let i = choose|i: int| 0 <= i < cls2.len() && cls2[i].0@ == x;
        assert(keys2[i] == x);
    }
    let cf1 = |k: crate::types::MatchV| crate::merge::cluster_of(lk1, cl1, k);
    let cf2 = |k: crate::types::MatchV| crate::merge::cluster_of(lk2, cl2, k);
    assert(vstd::relations::injective_on(cf1, bigk1)) by {
        assert forall|x1: crate::types::MatchV, x2: crate::types::MatchV|
            bigk1.contains(x1) && bigk1.contains(x2) && #[trigger] cf1(x1) == #[trigger] cf1(
                x2,
            ) implies x1 == x2 by {
            crate::merge::lemma_cluster_of_bounds(lk1, cl1, x1);
            assert(crate::merge::cluster_of(lk1, cl1, x2).contains(x1));
            crate::merge::lemma_cluster_of_member(lk1, cl1, x2, x1);
            assert(lk1[x1] == lk1[x2]);
        }
    }
    assert(vstd::relations::injective_on(cf2, bigk2)) by {
        assert forall|x1: crate::types::MatchV, x2: crate::types::MatchV|
            bigk2.contains(x1) && bigk2.contains(x2) && #[trigger] cf2(x1) == #[trigger] cf2(
                x2,
            ) implies x1 == x2 by {
            crate::merge::lemma_cluster_of_bounds(lk2, cl2, x1);
            assert(crate::merge::cluster_of(lk2, cl2, x2).contains(x1));
            crate::merge::lemma_cluster_of_member(lk2, cl2, x2, x1);
            assert(lk2[x1] == lk2[x2]);
        }
    }
    let classes = bigk1.map(cf1);
    vstd::set_lib::lemma_map_size(bigk1, classes, cf1);
    assert(bigk2.map(cf2) =~= classes) by {
        assert forall|c: Set<crate::types::MatchV>| #[trigger] bigk2.map(cf2).contains(c) implies
        classes.contains(c) by {
            let k2 = choose|k2: crate::types::MatchV| bigk2.contains(k2) && #[trigger] cf2(k2) == c;
            assert(lk2.contains_key(k2));
            assert(lk1.contains_key(k2));
            assert(cf1(k2) == cf2(k2));
            let k1 = lk1[k2];
            assert(bigk1.contains(k1)) by {
                assert(cl1.contains_key(k1));
            }
            assert(crate::merge::cluster_of(lk1, cl1, k2).contains(k1)) by {
                crate::merge::lemma_cluster_of_bounds(lk1, cl1, k1);
            }
            crate::merge::lemma_cluster_of_member(lk1, cl1, k2, k1);
            assert(cf1(k1) == c);
            assert(bigk1.map(cf1).contains(c));
        }
        assert forall|c: Set<crate::types::MatchV>| #[trigger] classes.contains(c) implies
        bigk2.map(cf2).contains(c) by {
            let k1 = choose|k1: crate::types::MatchV| bigk1.contains(k1) && #[trigger] cf1(k1) == c;
            assert(lk1.contains_key(k1));
            assert(lk2.contains_key(k1));
            assert(cf1(k1) == cf2(k1));
            let k2 = lk2[k1];
            assert(bigk2.contains(k2)) by {
                assert(cl2.contains_key(k2));
            }
            assert(crate::merge::cluster_of(lk2, cl2, k1).contains(k2)) by {
                crate::merge::lemma_cluster_of_bounds(lk2, cl2, k2);
            }
            crate::merge::lemma_cluster_of_member(lk2, cl2, k1, k2);
            assert(cf2(k2) == c);
            assert(bigk2.map(cf2).contains(c));
        }
    }
    vstd::set_lib::lemma_map_size(bigk2, bigk2.map(cf2), cf2);
    assert(cls1.len() == cls2.len());
    assert(r1.matches@.len() == r2.matches@.len());

    // record by record: the matching cluster in the other run carries the
    // very same set of matches
    assert forall|u1: int| 0 <= u1 < r1.matches@.len() implies #[trigger] root_has_match(
        r2.matches@,
        r1.matches@[u1],
    ) by {
        crate::merge::lemma_cluster_entry_shape(t1, lk1, u1);
        let k1v = cls1[u1].0@;
        let all1 = seq![cls1[u1].0] + cls1[u1].1@;
        let c = crate::merge::cluster_of(lk1, cl1, k1v);
        let k2v = lk2[k1v];
        assert(lk2.contains_key(k1v));
        assert(cl2.contains_key(k2v));
        let u2 = choose|u2: int| 0 <= u2 < cls2.len() && cls2[u2].0@ == k2v;
        crate::merge::lemma_cluster_entry_shape(t2, lk2, u2);
        let all2 = seq![cls2[u2].0] + cls2[u2].1@;
        assert(crate::merge::cluster_of(lk2, cl2, k2v) == crate::merge::cluster_of(
            lk2,
            cl2,
            k1v,
        )) by {
            assert(crate::merge::cluster_of(lk2, cl2, k1v).contains(k2v)) by {
                crate::merge::lemma_cluster_of_bounds(lk2, cl2, k2v);
            }
            crate::merge::lemma_cluster_of_member(lk2, cl2, k1v, k2v);
        }
        assert(crate::merge::cluster_of(lk2, cl2, k1v) == c);
        assert(crate::merge::members_view(all2).to_set() == c);
        assert(json_match_ok(r1.matches@[u1], all1));
        assert(json_match_ok(r2.matches@[u2], all2));
        lemma_records_of_same_set_eq(r1.matches@[u1], r2.matches@[u2], all1, all2);
        assert(json_match_eq(r1.matches@[u1], r2.matches@[u2]));
    }
}

} // verus!
