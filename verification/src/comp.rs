//! The pairwise scan: comparing two positioned files line by line, growing
//! each confirmed seed into the longest matching block, and emitting every
//! block pair that clears the configured thresholds.
//!
//! The scan's course — where it anchors, how far a block extends, how the
//! cursors skip — is itself the specification: `spec_scan_outer` walks the
//! primary file, `spec_scan_inner` the secondary, and the executable scan
//! returns exactly the pairs those functions describe.

use vstd::prelude::*;
use vstd::string::StrSliceExecFns;

use crate::cli::Cli;
use crate::distance::{edit_distance, levenshtein_distance};
use crate::types::{CompFile, Match, MatchV};

verus! {

/// The line comparison relation picked at configuration time: strict
/// equality, or Levenshtein distance within a threshold.
#[derive(Clone, Copy)]
pub enum ComparisonFn {
    Equality,
    Levenshtein { threshold: usize },
}

/// What the chosen comparison relation says of two lines.
pub open spec fn line_matches(c: ComparisonFn, x: Seq<char>, y: Seq<char>) -> bool {
    match c {
        ComparisonFn::Equality => x == y,
        ComparisonFn::Levenshtein { threshold } => edit_distance(x, y) <= threshold,
    }
}

/// A line's length in bytes, as the anchoring threshold measures it.
pub open spec fn line_byte_len(s: Seq<char>) -> usize {
    vstd::utf8::encode_utf8(s).len() as usize
}

impl ComparisonFn {
    /// Whether two lines are considered the same.
    pub fn compare(&self, x: &String, y: &String) -> (r: bool)
        ensures
            r == line_matches(*self, x@, y@),
    {
        match self {
            ComparisonFn::Equality => *x == *y,
            ComparisonFn::Levenshtein { threshold } => {
                levenshtein_distance(x.as_str(), y.as_str(), *threshold) <= *threshold
            },
        }
    }
}

/// The comparison relation the configuration selects.
pub open spec fn spec_comparator(args: Cli) -> ComparisonFn {
    if args.lev_threshold == 0 {
        ComparisonFn::Equality
    } else {
        ComparisonFn::Levenshtein { threshold: args.lev_threshold }
    }
}

/// Create a comparison function based on the given threshold.
///
/// If the threshold is 0, we use string comparison. If not, we use Levenshtein distance.
pub fn comparison_lambda(args: &Cli) -> (c: ComparisonFn)
    ensures
        c == spec_comparator(*args),
{
    let threshold = args.lev_threshold;
    if threshold == 0 {
        ComparisonFn::Equality
    } else {
        ComparisonFn::Levenshtein { threshold }
    }
}

/// Whether the block extension halts at offset `k`: the second region would
/// run into itself, a file ends, or the lines no longer match.
pub open spec fn block_scan_stops(
    c: ComparisonFn,
    l1: Seq<String>,
    l2: Seq<String>,
    same: bool,
    s1: int,
    s2: int,
    k: int,
) -> bool {
    ||| (same && s1 + k == s2)
    ||| s1 + k >= l1.len()
    ||| s2 + k >= l2.len()
    ||| !line_matches(c, l1[s1 + k]@, l2[s2 + k]@)
}

/// The first offset at or past `k` where the extension halts: the length of
/// the maximal block, when entered at `k == 1` with matching start lines.
pub open spec fn spec_block_len(
    c: ComparisonFn,
    l1: Seq<String>,
    l2: Seq<String>,
    same: bool,
    s1: int,
    s2: int,
    k: int,
) -> int
    decreases l1.len() - s1 - k,
{
    if block_scan_stops(c, l1, l2, same, s1, s2, k) {
        k
    } else {
        spec_block_len(c, l1, l2, same, s1, s2, k + 1)
    }
}

/// The block never runs past either file's end.
proof fn lemma_block_len_bounds(
    c: ComparisonFn,
    l1: Seq<String>,
    l2: Seq<String>,
    same: bool,
    s1: int,
    s2: int,
    k: int,
)
    requires
        1 <= k,
        0 <= s1,
        0 <= s2,
        s1 + k <= l1.len(),
        s2 + k <= l2.len(),
    ensures
        k <= spec_block_len(c, l1, l2, same, s1, s2, k),
        s1 + spec_block_len(c, l1, l2, same, s1, s2, k) <= l1.len(),
        s2 + spec_block_len(c, l1, l2, same, s1, s2, k) <= l2.len(),
    decreases l1.len() - s1 - k,
{
    if !block_scan_stops(c, l1, l2, same, s1, s2, k) {
        lemma_block_len_bounds(c, l1, l2, same, s1, s2, k + 1);
    }
}

/// Find block length of the matching code block.
///
/// Stops comparison when we reach the end of the file, or if the files are the same and the
/// original index hits the occurrance index. This stops code blocks from "eating" the other code
/// block (i.e. no nested overlapping blocks that are similar).
pub fn get_max_block_size(comp: &ComparisonFn, f1: &CompFile, f2: &CompFile) -> (r: usize)
    requires
        f1.start < f1.lines@.len(),
        f2.start < f2.lines@.len(),
    ensures
        r as int == spec_block_len(
            *comp,
            f1.lines@,
            f2.lines@,
            f1.file@ == f2.file@,
            f1.start as int,
            f2.start as int,
            1,
        ),
        1 <= r,
        f1.start + r <= f1.lines@.len(),
        f2.start + r <= f2.lines@.len(),
{
    proof {
        lemma_block_len_bounds(
            *comp,
            f1.lines@,
            f2.lines@,
            f1.file@ == f2.file@,
            f1.start as int,
            f2.start as int,
            1,
        );
    }
    let ghost target = spec_block_len(
        *comp,
        f1.lines@,
        f2.lines@,
        f1.file@ == f2.file@,
        f1.start as int,
        f2.start as int,
        1,
    );
    let same_file = f1.file == f2.file;
    let n1 = f1.lines.len();
    let n2 = f2.lines.len();
    let mut block_length: usize = 1;

    loop
        invariant
            1 <= block_length,
            n1 == f1.lines@.len(),
            n2 == f2.lines@.len(),
            f1.start + block_length <= n1,
            f2.start + block_length <= n2,
            same_file == (f1.file@ == f2.file@),
            1 <= target,
            f1.start + target <= f1.lines@.len(),
            f2.start + target <= f2.lines@.len(),
            target == spec_block_len(
                *comp,
                f1.lines@,
                f2.lines@,
                same_file,
                f1.start as int,
                f2.start as int,
                block_length as int,
            ),
            target == spec_block_len(
                *comp,
                f1.lines@,
                f2.lines@,
                f1.file@ == f2.file@,
                f1.start as int,
                f2.start as int,
                1,
            ),
        decreases f1.lines@.len() - (f1.start + block_length),
    {
        let ghost stop_here = block_scan_stops(
            *comp,
            f1.lines@,
            f2.lines@,
            same_file,
            f1.start as int,
            f2.start as int,
            block_length as int,
        );
        let i1 = f1.start + block_length;
        let i2 = f2.start + block_length;

        if same_file && i1 == f2.start {
            proof {
                assert(stop_here);
            }
            return block_length;
        }

        if i1 >= n1 || i2 >= n2 {
            proof {
                assert(stop_here);
            }
            return block_length;
        }

        if comp.compare(&f1.lines[i1], &f2.lines[i2]) {
            proof {
                assert(!block_scan_stops(
                    *comp,
                    f1.lines@,
                    f2.lines@,
                    same_file,
                    f1.start as int,
                    f2.start as int,
                    block_length as int,
                ));
            }
            block_length = block_length + 1;
        } else {
            proof {
                assert(stop_here);
            }
            return block_length;
        }
    }
}

/// The values of a list of emitted match pairs.
pub open spec fn pairs_view(s: Seq<(Match, Match)>) -> Seq<(MatchV, MatchV)> {
    s.map_values(|p: (Match, Match)| (p.0@, p.1@))
}

/// One anchor line's sweep over the secondary file, from cursor `j` on:
/// the pairs emitted, and the longest block length seen (at least 1).
pub open spec fn spec_scan_inner(
    c: ComparisonFn,
    file1: Seq<char>,
    file2: Seq<char>,
    l1: Seq<String>,
    l2: Seq<String>,
    bt: int,
    i: int,
    j: int,
) -> (Seq<(MatchV, MatchV)>, int)
    decreases l2.len() - j,
{
    if j < 0 || j >= l2.len() {
        (Seq::<(MatchV, MatchV)>::empty(), 1)
    } else if line_matches(c, l1[i]@, l2[j]@) {
        let bl = spec_block_len(c, l1, l2, file1 == file2, i, j, 1);
        let step = if bl < 1 {
            1
        } else {
            bl
        };
        let jn = if j + step > l2.len() {
            l2.len() as int
        } else {
            j + step
        };
        let rest = spec_scan_inner(c, file1, file2, l1, l2, bt, i, jn);
        if bl < bt {
            rest
        } else {
            (
                seq![
                    (
                        MatchV { file: file1, line: i + 1, size: bl },
                        MatchV { file: file2, line: j + 1, size: bl },
                    ),
                ] + rest.0,
                if bl > rest.1 {
                    bl
                } else {
                    rest.1
                },
            )
        }
    } else {
        spec_scan_inner(c, file1, file2, l1, l2, bt, i, j + 1)
    }
}

/// The longest length tracked by the inner sweep is never below 1.
proof fn lemma_scan_inner_max(
    c: ComparisonFn,
    file1: Seq<char>,
    file2: Seq<char>,
    l1: Seq<String>,
    l2: Seq<String>,
    bt: int,
    i: int,
    j: int,
)
    ensures
        spec_scan_inner(c, file1, file2, l1, l2, bt, i, j).1 >= 1,
    decreases l2.len() - j,
{
    if j < 0 || j >= l2.len() {
    } else if line_matches(c, l1[i]@, l2[j]@) {
        let bl = spec_block_len(c, l1, l2, file1 == file2, i, j, 1);
        let step = if bl < 1 {
            1
        } else {
            bl
        };
        let jn = if j + step > l2.len() {
            l2.len() as int
        } else {
            j + step
        };
        lemma_scan_inner_max(c, file1, file2, l1, l2, bt, i, jn);
    } else {
        lemma_scan_inner_max(c, file1, file2, l1, l2, bt, i, j + 1);
    }
}

/// The whole scan of a file pair, from primary cursor `i` on: anchor on each
/// long-enough line, sweep the secondary file, and skip past the longest
/// block found before anchoring again.
pub open spec fn spec_scan_outer(
    c: ComparisonFn,
    file1: Seq<char>,
    file2: Seq<char>,
    l1: Seq<String>,
    l2: Seq<String>,
    lt: int,
    bt: int,
    i: int,
) -> Seq<(MatchV, MatchV)>
    decreases l1.len() - i,
{
    if i < 0 || i >= l1.len() {
        Seq::<(MatchV, MatchV)>::empty()
    } else if line_byte_len(l1[i]@) < lt {
        spec_scan_outer(c, file1, file2, l1, l2, lt, bt, i + 1)
    } else {
        let j0 = if file1 == file2 {
            i + 1
        } else {
            0
        };
        let inner = spec_scan_inner(c, file1, file2, l1, l2, bt, i, j0);
        let step = if inner.1 < 1 {
            1
        } else {
            inner.1
        };
        let inext = if i + step > l1.len() {
            l1.len() as int
        } else {
            i + step
        };
        inner.0 + spec_scan_outer(c, file1, file2, l1, l2, lt, bt, inext)
    }
}

/// What is true of every pair the scan emits: the matches name the scanned
/// files, share a size of at least the block threshold, lie within their
/// files (lines are 1-based), anchor on a line of at least the length
/// threshold, agree line by line under the comparison relation, and, within
/// one file, the first region ends before the second begins.
pub open spec fn emitted_pair_ok(
    c: ComparisonFn,
    file1: Seq<char>,
    file2: Seq<char>,
    l1: Seq<String>,
    l2: Seq<String>,
    lt: int,
    bt: int,
    p: (MatchV, MatchV),
) -> bool {
    &&& p.0.file == file1
    &&& p.1.file == file2
    &&& p.0.size == p.1.size
    &&& 1 <= p.0.size
    &&& bt <= p.0.size
    &&& 1 <= p.0.line && p.0.line + p.0.size <= l1.len() + 1
    &&& 1 <= p.1.line && p.1.line + p.1.size <= l2.len() + 1
    &&& line_byte_len(l1[p.0.line - 1]@) >= lt
    &&& forall|k: int|
        0 <= k < p.0.size ==> #[trigger] line_matches(
            c,
            l1[p.0.line - 1 + k]@,
            l2[p.1.line - 1 + k]@,
        )
    &&& (file1 == file2 ==> p.0.line + p.0.size <= p.1.line)
    &&& p.0 != p.1
}

/// Between the entry offset and the halting offset, every pair of lines
/// matches.
proof fn lemma_block_len_matches(
    c: ComparisonFn,
    l1: Seq<String>,
    l2: Seq<String>,
    same: bool,
    s1: int,
    s2: int,
    k: int,
)
    requires
        1 <= k,
        0 <= s1,
        0 <= s2,
        s1 + k <= l1.len(),
        s2 + k <= l2.len(),
    ensures
        forall|t: int|
            #![trigger l1[s1 + t]]
            k <= t < spec_block_len(c, l1, l2, same, s1, s2, k) ==> line_matches(
                c,
                l1[s1 + t]@,
                l2[s2 + t]@,
            ) && !(same && s1 + t == s2),
    decreases l1.len() - s1 - k,
{
    if !block_scan_stops(c, l1, l2, same, s1, s2, k) {
        lemma_block_len_bounds(c, l1, l2, same, s1, s2, k + 1);
        lemma_block_len_matches(c, l1, l2, same, s1, s2, k + 1);
    }
}

/// Every pair of the inner sweep is in order.
proof fn lemma_scan_inner_sound(
    c: ComparisonFn,
    file1: Seq<char>,
    file2: Seq<char>,
    l1: Seq<String>,
    l2: Seq<String>,
    lt: int,
    bt: int,
    i: int,
    j: int,
)
    requires
        0 <= i < l1.len(),
        0 <= j,
        line_byte_len(l1[i]@) >= lt,
        file1 == file2 ==> l1 == l2 && i < j,
    ensures
        forall|t: int|
            0 <= t < spec_scan_inner(c, file1, file2, l1, l2, bt, i, j).0.len()
                ==> emitted_pair_ok(
                c,
                file1,
                file2,
                l1,
                l2,
                lt,
                bt,
                #[trigger] spec_scan_inner(c, file1, file2, l1, l2, bt, i, j).0[t],
            ),
    decreases l2.len() - j,
{
    if j < 0 || j >= l2.len() {
    } else if line_matches(c, l1[i]@, l2[j]@) {
        let bl = spec_block_len(c, l1, l2, file1 == file2, i, j, 1);
        lemma_block_len_bounds(c, l1, l2, file1 == file2, i, j, 1);
        lemma_block_len_matches(c, l1, l2, file1 == file2, i, j, 1);
        let step = if bl < 1 {
            1
        } else {
            bl
        };
        let jn = if j + step > l2.len() {
            l2.len() as int
        } else {
            j + step
        };
        lemma_scan_inner_sound(c, file1, file2, l1, l2, lt, bt, i, jn);
        let rest = spec_scan_inner(c, file1, file2, l1, l2, bt, i, jn);
        if bl < bt {
            let full = spec_scan_inner(c, file1, file2, l1, l2, bt, i, j);
            assert(full.0 == rest.0);
            assert forall|t: int| 0 <= t < full.0.len() implies emitted_pair_ok(
                c,
                file1,
                file2,
                l1,
                l2,
                lt,
                bt,
                #[trigger] full.0[t],
            ) by {
                assert(full.0[t] == rest.0[t]);
            }
        } else {
            let pv = (
                MatchV { file: file1, line: i + 1, size: bl },
                MatchV { file: file2, line: j + 1, size: bl },
            );
            assert(emitted_pair_ok(c, file1, file2, l1, l2, lt, bt, pv)) by {
                assert(i + bl <= l1.len());
                assert(j + bl <= l2.len());
                assert forall|k: int|
                    #![trigger l1[i + k]]
                    0 <= k < bl implies line_matches(c, l1[i + k]@, l2[j + k]@) by {
                    if k >= 1 {
                        assert(line_matches(c, l1[i + k]@, l2[j + k]@));
                    }
                }
                if file1 == file2 {
                    // the extension halts before the second region's start
                    assert(i + bl <= j) by {
                        if i + bl > j {
                            let t = j - i;
                            assert(1 <= t < bl);
                            assert(l1[i + t]@ == l1[i + t]@);
                            assert(!(true && i + t == j));
                            assert(false);
                        }
                    }
                }
                assert(pv.0 != pv.1) by {
                    if file1 == file2 {
                        assert(pv.0.line < pv.1.line);
                    } else {
                        assert(pv.0.file != pv.1.file);
                    }
                }
            }
            let full = spec_scan_inner(c, file1, file2, l1, l2, bt, i, j);
            assert(full.0 == seq![pv] + rest.0);
            assert forall|t: int| 0 <= t < full.0.len() implies emitted_pair_ok(
                c,
                file1,
                file2,
                l1,
                l2,
                lt,
                bt,
                #[trigger] full.0[t],
            ) by {
                if t == 0 {
                    assert(full.0[0] == pv);
                } else {
                    assert(full.0[t] == rest.0[t - 1]);
                }
            }
        }
    } else {
        lemma_scan_inner_sound(c, file1, file2, l1, l2, lt, bt, i, j + 1);
        let full = spec_scan_inner(c, file1, file2, l1, l2, bt, i, j);
        let rest = spec_scan_inner(c, file1, file2, l1, l2, bt, i, j + 1);
        assert(full.0 == rest.0);
        assert forall|t: int| 0 <= t < full.0.len() implies emitted_pair_ok(
            c,
            file1,
            file2,
            l1,
            l2,
            lt,
            bt,
            #[trigger] full.0[t],
        ) by {
            assert(full.0[t] == rest.0[t]);
        }
    }
}

/// Every pair the whole scan emits is in order.
pub proof fn lemma_scan_outer_sound(
    c: ComparisonFn,
    file1: Seq<char>,
    file2: Seq<char>,
    l1: Seq<String>,
    l2: Seq<String>,
    lt: int,
    bt: int,
    i: int,
)
    requires
        file1 == file2 ==> l1 == l2,
    ensures
        forall|t: int|
            0 <= t < spec_scan_outer(c, file1, file2, l1, l2, lt, bt, i).len()
                ==> emitted_pair_ok(
                c,
                file1,
                file2,
                l1,
                l2,
                lt,
                bt,
                #[trigger] spec_scan_outer(c, file1, file2, l1, l2, lt, bt, i)[t],
            ),
    decreases l1.len() - i,
{
    if i < 0 || i >= l1.len() {
    } else if line_byte_len(l1[i]@) < lt {
        lemma_scan_outer_sound(c, file1, file2, l1, l2, lt, bt, i + 1);
        let full = spec_scan_outer(c, file1, file2, l1, l2, lt, bt, i);
        let rest = spec_scan_outer(c, file1, file2, l1, l2, lt, bt, i + 1);
        assert(full == rest);
        assert forall|t: int| 0 <= t < full.len() implies emitted_pair_ok(
            c,
            file1,
            file2,
            l1,
            l2,
            lt,
            bt,
            #[trigger] full[t],
        ) by {
            assert(full[t] == rest[t]);
        }
    } else {
        let j0 = if file1 == file2 {
            i + 1
        } else {
            0
        };
        let inner = spec_scan_inner(c, file1, file2, l1, l2, bt, i, j0);
        lemma_scan_inner_sound(c, file1, file2, l1, l2, lt, bt, i, j0);
        let step = if inner.1 < 1 {
            1
        } else {
            inner.1
        };
        let inext = if i + step > l1.len() {
            l1.len() as int
        } else {
            i + step
        };
        lemma_scan_outer_sound(c, file1, file2, l1, l2, lt, bt, inext);
        let full = spec_scan_outer(c, file1, file2, l1, l2, lt, bt, i);
        let rest = spec_scan_outer(c, file1, file2, l1, l2, lt, bt, inext);
        assert(full == inner.0 + rest);
        assert forall|t: int| 0 <= t < full.len() implies emitted_pair_ok(
            c,
            file1,
            file2,
            l1,
            l2,
            lt,
            bt,
            #[trigger] full[t],
        ) by {
            if t < inner.0.len() {
                assert(full[t] == inner.0[t]);
            } else {
                assert(full[t] == rest[t - inner.0.len()]);
            }
        }
    }
}

/// Scan a pair of positioned files and collect every match pair the
/// configured thresholds admit, exactly as `spec_scan_outer` lays the
/// course out.
pub fn get_matches_from_2_files(
    args: &Cli,
    comp: &ComparisonFn,
    files: (CompFile, CompFile),
) -> (r: Vec<(Match, Match)>)
    requires
        files.0.file@ == files.1.file@ ==> files.0.lines@ == files.1.lines@,
    ensures
        pairs_view(r@) == spec_scan_outer(
            *comp,
            files.0.file@,
            files.1.file@,
            files.0.lines@,
            files.1.lines@,
            args.line_threshold as int,
            args.block_threshold as int,
            0,
        ),
{
    let (mut f1, mut f2) = files;
    let ghost file1 = f1.file@;
    let ghost file2 = f2.file@;
    let ghost l1 = f1.lines@;
    let ghost l2 = f2.lines@;
    let ghost lt = args.line_threshold as int;
    let ghost bt = args.block_threshold as int;
    let ghost cc = *comp;

    f1.start = 0;
    let same_file = f1.file == f2.file;
    let mut out: Vec<(Match, Match)> = Vec::new();

    while f1.start < f1.lines.len()
        invariant
            f1.file@ == file1,
            f2.file@ == file2,
            f1.lines@ == l1,
            f2.lines@ == l2,
            lt == args.line_threshold as int,
            bt == args.block_threshold as int,
            cc == *comp,
            same_file == (file1 == file2),
            file1 == file2 ==> l1 == l2,
            f1.start <= l1.len(),
            spec_scan_outer(cc, file1, file2, l1, l2, lt, bt, 0) == pairs_view(out@)
                + spec_scan_outer(cc, file1, file2, l1, l2, lt, bt, f1.start as int),
        decreases l1.len() - f1.start,
    {
        let ghost i = f1.start as int;

        // Don't consider line lengths below the threshold
        if f1.current_line().as_str().len() < args.line_threshold {
            proof {
                assert(line_byte_len(l1[i]@) < lt);
                assert(spec_scan_outer(cc, file1, file2, l1, l2, lt, bt, i) == spec_scan_outer(
                    cc,
                    file1,
                    file2,
                    l1,
                    l2,
                    lt,
                    bt,
                    i + 1,
                ));
            }
            f1.start = f1.start + 1;
        } else {
            f2.start = if same_file {
                f1.start + 1
            } else {
                0
            };
            let mut max_block_length: usize = 1;
            let ghost j0 = f2.start as int;
            let ghost inner_full = spec_scan_inner(cc, file1, file2, l1, l2, bt, i, j0);
            let ghost base_out = out@;
            proof {
                lemma_scan_inner_max(cc, file1, file2, l1, l2, bt, i, j0);
                assert(out@.skip(base_out.len() as int) =~= Seq::<(Match, Match)>::empty());
                assert(pairs_view(Seq::<(Match, Match)>::empty()) =~= Seq::<(
                    MatchV,
                    MatchV,
                )>::empty());
                assert(out@.take(base_out.len() as int) =~= base_out);
            }

            while f2.start < f2.lines.len()
                invariant
                    f1.file@ == file1,
                    f2.file@ == file2,
                    f1.lines@ == l1,
                    f2.lines@ == l2,
                    bt == args.block_threshold as int,
                    cc == *comp,
                    same_file == (file1 == file2),
                    file1 == file2 ==> l1 == l2,
                    f1.start as int == i,
                    0 <= i < l1.len(),
                    l1.len() <= usize::MAX,
                    f2.start <= l2.len(),
                    1 <= max_block_length,
                    max_block_length == 1 || i + max_block_length <= l1.len(),
                    out@.len() >= base_out.len(),
                    out@.take(base_out.len() as int) == base_out,
                    inner_full.0 == pairs_view(out@.skip(base_out.len() as int)) + spec_scan_inner(
                        cc,
                        file1,
                        file2,
                        l1,
                        l2,
                        bt,
                        i,
                        f2.start as int,
                    ).0,
                    inner_full.1 == (if max_block_length as int > spec_scan_inner(
                        cc,
                        file1,
                        file2,
                        l1,
                        l2,
                        bt,
                        i,
                        f2.start as int,
                    ).1 {
                        max_block_length as int
                    } else {
                        spec_scan_inner(cc, file1, file2, l1, l2, bt, i, f2.start as int).1
                    }),
                decreases l2.len() - f2.start,
            {
                let ghost j = f2.start as int;
                let ghost cur = spec_scan_inner(cc, file1, file2, l1, l2, bt, i, j);

                if comp.compare(f1.current_line(), f2.current_line()) {
                    let block_length = get_max_block_size(comp, &f1, &f2);
                    let ghost bl = block_length as int;
                    proof {
                        assert(bl == spec_block_len(cc, l1, l2, file1 == file2, i, j, 1));
                    }

                    if block_length < args.block_threshold {
                        proof {
                            assert(cur == spec_scan_inner(cc, file1, file2, l1, l2, bt, i, j + bl));
                        }
                        f2.start = f2.start + block_length;
                    } else {
                        let matches = Match::from_compfiles(&f1, &f2, block_length);
                        let ghost rest = spec_scan_inner(cc, file1, file2, l1, l2, bt, i, j + bl);
                        let ghost pv = (
                            MatchV { file: file1, line: i + 1, size: bl },
                            MatchV { file: file2, line: j + 1, size: bl },
                        );
                        proof {
                            assert(cur.0 == seq![pv] + rest.0);
                            assert(matches.0@ == pv.0);
                            assert(matches.1@ == pv.1);
                        }
                        let ghost out_pre = out@;
                        out.push(matches);
                        proof {
                            assert(out@.take(base_out.len() as int) =~= base_out);
                            assert(out@.skip(base_out.len() as int) =~= out_pre.skip(
                                base_out.len() as int,
                            ).push(matches));
                            assert(pairs_view(out@.skip(base_out.len() as int)) =~= pairs_view(
                                out_pre.skip(base_out.len() as int),
                            ).push(pv));
                            assert(inner_full.0 =~= pairs_view(out@.skip(base_out.len() as int))
                                + rest.0);
                        }
                        f2.start = f2.start + block_length;
                        max_block_length = if block_length > max_block_length {
                            block_length
                        } else {
                            max_block_length
                        };
                    }
                } else {
                    proof {
                        assert(cur == spec_scan_inner(cc, file1, file2, l1, l2, bt, i, j + 1));
                    }
                    f2.start = f2.start + 1;
                }
            }

            proof {
                assert(spec_scan_inner(cc, file1, file2, l1, l2, bt, i, f2.start as int).0
                    =~= Seq::<(MatchV, MatchV)>::empty());
                assert(inner_full.0 =~= pairs_view(out@.skip(base_out.len() as int)));
                assert(inner_full.1 == max_block_length as int);
                assert(spec_scan_outer(cc, file1, file2, l1, l2, lt, bt, i) == inner_full.0
                    + spec_scan_outer(
                    cc,
                    file1,
                    file2,
                    l1,
                    l2,
                    lt,
                    bt,
                    i + max_block_length as int,
                ));
                assert(out@ =~= base_out + out@.skip(base_out.len() as int));
                assert(pairs_view(out@) =~= pairs_view(base_out) + pairs_view(
                    out@.skip(base_out.len() as int),
                ));
            }
            f1.start = f1.start + max_block_length;
        }
    }

    proof {
        assert(spec_scan_outer(cc, file1, file2, l1, l2, lt, bt, f1.start as int) =~= Seq::<(
            MatchV,
            MatchV,
        )>::empty());
        assert(pairs_view(out@) =~= pairs_view(out@) + Seq::<(MatchV, MatchV)>::empty());
    }
    out
}

} // verus!
