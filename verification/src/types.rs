//! The engine's data model: a positioned file under comparison, a match (one
//! occurrence of a block of lines), and the per-run cache of loaded files.
//!
//! Callers hand the library plain values: a file is named by its path string,
//! its contents are the ordered, pre-trimmed lines. The mathematical face of
//! a `Match` is `MatchV`, a triple of path, 1-based starting line and block
//! size, and every contract speaks in terms of it.

use vstd::prelude::*;

verus! {

/// A structure to easily move parameters from one place to another.
#[derive(Debug)]
pub struct CompFile {
    pub file: String,
    pub lines: Vec<String>,
    pub start: usize,
}

/// A matching block.
///
/// Points to a single block of lines in some file.
#[derive(Debug, Hash)]
pub struct Match {
    pub file: String,
    pub line: usize,
    pub size: usize,
}

/// The mathematical value of a `Match`: which file, which 1-based first
/// line, how many lines.
#[verifier::ext_equal]
pub ghost struct MatchV {
    pub file: Seq<char>,
    pub line: int,
    pub size: int,
}

impl View for Match {
    type V = MatchV;

    open spec fn view(&self) -> MatchV {
        MatchV { file: self.file@, line: self.line as int, size: self.size as int }
    }
}

impl Clone for Match {
    fn clone(&self) -> (res: Self)
        ensures
            res == *self,
    {
        Match { file: self.file.clone(), line: self.line, size: self.size }
    }
}

impl PartialEq for Match {
    fn eq(&self, other: &Self) -> (r: bool) {
        if self.file == other.file && self.line == other.line && self.size == other.size {
            proof {
                assert(self@ =~= other@);
            }
            true
        } else {
            false
        }
    }
}

impl vstd::std_specs::cmp::PartialEqSpecImpl for Match {
    open spec fn obeys_eq_spec() -> bool {
        true
    }

    open spec fn eq_spec(&self, other: &Self) -> bool {
        self@ == other@
    }
}

impl Eq for Match {

}

impl Match {
    /// The pair of matches that one confirmed block of `block_length` lines
    /// at the two files' current positions stands for; lines are 1-based.
    pub fn from_compfiles(f1: &CompFile, f2: &CompFile, block_length: usize) -> (r: (Match, Match))
        requires
            f1.start < usize::MAX,
            f2.start < usize::MAX,
        ensures
            r.0.file == f1.file && r.0.line == f1.start + 1 && r.0.size == block_length,
            r.1.file == f2.file && r.1.line == f2.start + 1 && r.1.size == block_length,
    {
        (
            Match { file: f1.file.clone(), line: f1.start + 1, size: block_length },
            Match { file: f2.file.clone(), line: f2.start + 1, size: block_length },
        )
    }
}

/// The per-run cache of loaded files: path to trimmed lines, each path at
/// most once. Whoever reads the files fills it; the engine only looks up.
pub struct FileCache {
    pub entries: Vec<(String, Vec<String>)>,
}

impl View for FileCache {
    type V = Map<Seq<char>, Seq<String>>;

    open spec fn view(&self) -> Map<Seq<char>, Seq<String>> {
        cache_map(self.entries@)
    }
}

/// The map an association list stands for; a repeated key would take the
/// later entry, but a well-formed cache never repeats one.
pub open spec fn cache_map(entries: Seq<(String, Vec<String>)>) -> Map<Seq<char>, Seq<String>>
    decreases entries.len(),
{
    if entries.len() == 0 {
        Map::empty()
    } else {
        cache_map(entries.drop_last()).insert(entries.last().0@, entries.last().1@)
    }
}

proof fn lemma_cache_map_props(entries: Seq<(String, Vec<String>)>)
    ensures
        forall|k: Seq<char>|
            cache_map(entries).contains_key(k) <==> exists|i: int|
                0 <= i < entries.len() && entries[i].0@ == k,
        forall|i: int|
            #![trigger entries[i]]
            0 <= i < entries.len() && (forall|j: int| i < j < entries.len() ==> entries[j].0@
                != entries[i].0@) ==> cache_map(entries).contains_key(entries[i].0@) && cache_map(
                entries,
            )[entries[i].0@] == entries[i].1@,
    decreases entries.len(),
{
    if entries.len() > 0 {
        let pre = entries.drop_last();
        lemma_cache_map_props(pre);
        assert forall|k: Seq<char>| cache_map(entries).contains_key(k) implies exists|i: int|
            0 <= i < entries.len() && entries[i].0@ == k by {
            if k == entries.last().0@ {
                assert(entries[entries.len() - 1].0@ == k);
            } else {
                assert(cache_map(pre).contains_key(k));
                let i = choose|i: int| 0 <= i < pre.len() && pre[i].0@ == k;
                assert(pre[i] == entries[i]);
                assert(entries[i].0@ == k);
            }
        }
        assert forall|i: int| 0 <= i < entries.len() implies cache_map(entries).contains_key(
            entries[i].0@,
        ) by {
            if i < entries.len() - 1 {
                assert(pre[i] == entries[i]);
                assert(0 <= i < pre.len() && pre[i].0@ == entries[i].0@);
                assert(cache_map(pre).contains_key(entries[i].0@));
            }
        }
        assert forall|i: int|
            #![trigger entries[i]]
            0 <= i < entries.len() && (forall|j: int| i < j < entries.len() ==> entries[j].0@
                != entries[i].0@) implies cache_map(entries).contains_key(entries[i].0@)
            && cache_map(entries)[entries[i].0@] == entries[i].1@ by {
            if i < entries.len() - 1 {
                assert(pre[i] == entries[i]);
                assert forall|j: int| i < j < pre.len() implies pre[j].0@ != pre[i].0@ by {
                    assert(pre[j] == entries[j]);
                }
                assert(cache_map(pre)[pre[i].0@] == pre[i].1@);
                assert(entries[entries.len() - 1].0@ != entries[i].0@);
            }
        }
    }
}

impl FileCache {
    /// A fresh, empty cache.
    pub fn new() -> (c: FileCache)
        ensures
            c@ == Map::<Seq<char>, Seq<String>>::empty(),
            c.entries@.len() == 0,
    {
        FileCache { entries: Vec::new() }
    }

    /// No path occurs twice.
    pub open spec fn wf(&self) -> bool {
        forall|i: int, j: int|
            0 <= i < j < self.entries@.len() ==> self.entries@[i].0@ != self.entries@[j].0@
    }

    /// Look a path up.
    pub fn get<'a>(&'a self, file: &String) -> (r: Option<&'a Vec<String>>)
        requires
            self.wf(),
        ensures
            match r {
                Option::Some(lines) => self@.contains_key(file@) && self@[file@] == lines@,
                Option::None => !self@.contains_key(file@),
            },
    {
        proof {
            lemma_cache_map_props(self.entries@);
        }
        let n = self.entries.len();
        let mut i: usize = 0;
        while i < n
            invariant
                i <= n,
                n == self.entries@.len(),
                self.wf(),
                cache_map(self.entries@) == self@,
                forall|j: int| 0 <= j < i ==> self.entries@[j].0@ != file@,
                forall|k: Seq<char>|
                    cache_map(self.entries@).contains_key(k) <==> exists|ii: int|
                        0 <= ii < self.entries@.len() && self.entries@[ii].0@ == k,
                forall|ii: int|
                    #![trigger self.entries@[ii]]
                    0 <= ii < self.entries@.len() && (forall|j: int|
                        ii < j < self.entries@.len() ==> self.entries@[j].0@
                            != self.entries@[ii].0@) ==> cache_map(self.entries@).contains_key(
                        self.entries@[ii].0@,
                    ) && cache_map(self.entries@)[self.entries@[ii].0@] == self.entries@[ii].1@,
            decreases n - i,
        {
            if self.entries[i].0 == *file {
                return Some(&self.entries[i].1);
            }
            i = i + 1;
        }
        None
    }

    /// Record the lines read for a path not seen before.
    pub fn insert(&mut self, file: String, lines: Vec<String>)
        requires
            old(self).wf(),
            !old(self)@.contains_key(file@),
        ensures
            final(self).wf(),
            final(self)@ == old(self)@.insert(file@, lines@),
    {
        proof {
            lemma_cache_map_props(self.entries@);
        }
        self.entries.push((file, lines));
        proof {
            assert(self.entries@.drop_last() =~= old(self).entries@);
        }
    }
}

/// Clone a file's line list; the clone holds the very same line values.
fn clone_lines(v: &Vec<String>) -> (r: Vec<String>)
    ensures
        r@ == v@,
{
    let r = v.clone();
    proof {
        assert forall|i: int| 0 <= i < v@.len() implies r@[i] == v@[i] by {
            assert(vstd::pervasive::cloned::<String>(v@[i], r@[i]));
        }
        assert(r@ =~= v@);
    }
    r
}

impl CompFile {
    /// The line the cursor stands on.
    pub fn current_line(&self) -> (r: &String)
        requires
            self.start < self.lines@.len(),
        ensures
            *r == self.lines@[self.start as int],
    {
        &self.lines[self.start]
    }

    /// Both files of a pair, as positioned views over the cache's lines,
    /// cursors at the top; `None` when either file is not in the cache
    /// (its read failed, and the pair is skipped).
    pub fn from_files(f1: &String, f2: &String, cache: &FileCache) -> (r: Option<
        (CompFile, CompFile),
    >)
        requires
            cache.wf(),
        ensures
            match r {
                Option::Some(pair) => {
                    &&& cache@.contains_key(f1@)
                    &&& cache@.contains_key(f2@)
                    &&& pair.0.file == *f1
                    &&& pair.0.lines@ == cache@[f1@]
                    &&& pair.0.start == 0
                    &&& pair.1.file == *f2
                    &&& pair.1.lines@ == cache@[f2@]
                    &&& pair.1.start == 0
                },
                Option::None => !cache@.contains_key(f1@) || !cache@.contains_key(f2@),
            },
    {
        match (cache.get(f1), cache.get(f2)) {
            (Some(lines1), Some(lines2)) => Some(
                (
                    CompFile { file: f1.clone(), lines: clone_lines(lines1), start: 0 },
                    CompFile { file: f2.clone(), lines: clone_lines(lines2), start: 0 },
                ),
            ),
            _ => None,
        }
    }
}

} // verus!
