use vstd::prelude::*;

use crate::artifact::ArtifactTag;
use crate::rule::{join_path, path_join};
use crate::text::{joined, owned};

verus! {

#[derive(Debug)]
pub enum CacheError {
    Io(String),
    NotFound(String),
}

impl CacheError {
    /// The message that describes the error.
    pub open spec fn message(&self) -> Seq<char> {
        match self {
            CacheError::Io(msg) => "cache I/O error: "@ + msg@,
            CacheError::NotFound(id) => "not found in cache: "@ + id@,
        }
    }

    /// The message that describes the error.
    pub fn to_string(&self) -> (res: String)
        ensures
            res@ == self.message(),
    {
        match self {
            CacheError::Io(msg) => joined(owned("cache I/O error: "), msg.as_str()),
            CacheError::NotFound(id) => joined(owned("not found in cache: "), id.as_str()),
        }
    }
}

/// Where the outputs of rules are kept between runs. Users implement it;
/// nothing here is claimed of what an implementation does.
pub trait ArtifactStore {
    /// Whether outputs of the rule made from these sources are available.
    fn is_fresh(&self, rule_checksum: &str, source_checksum: &str) -> Result<bool, CacheError>;

    /// Keeps the outputs that the rule made from these sources.
    fn store_artifacts(&mut self, rule_checksum: &str, source_checksum: &str, from: &[ArtifactTag]) -> Result<(), CacheError>;

    /// Puts the kept outputs of the rule in place.
    fn ensure_artifacts(&self, rule_checksum: &str, source_checksum: &str, into: &[ArtifactTag]) -> Result<(), CacheError>;
}

/// The rules that started the last recorded run, with their sources. Users
/// implement it; of an implementation it is only claimed that an answer
/// about a rule and its sources is one of its `answers` to that question.
pub trait PrimordialLedger {
    /// Whether `seen` is an answer that the ledger may give when asked about
    /// the rule with these sources. Unless an implementation says more, any
    /// answer may be given.
    closed spec fn answers(&self, rule_checksum: Seq<char>, source_checksum: Seq<char>, seen: bool) -> bool {
        true
    }

    /// Whether the rule, with these sources, started the last recorded run.
    fn was_rule_in_last_run(&self, rule_checksum: &str, source_checksum: &str) -> (res: bool)
        ensures
            self.answers(rule_checksum@, source_checksum@, res);

    /// Notes the rule for the run in progress.
    fn record_rule(&mut self, rule_checksum: &str, source_checksum: &str);

    /// Makes the noted rules those of the last recorded run.
    fn flush(&mut self) -> Result<(), CacheError>;
}

/// What the executor needs of a cache.
pub trait Cache: ArtifactStore + PrimordialLedger {}

impl<T: ArtifactStore + PrimordialLedger> Cache for T {}

/// The key under which a rule and its sources are noted: the two checksums
/// joined by an underscore.
pub open spec fn ledger_key(rule_checksum: Seq<char>, source_checksum: Seq<char>) -> Seq<char> {
    rule_checksum + "_"@ + source_checksum
}

/// A cache kept in a directory of the local disk. This part holds the
/// directory and the rules noted for the run in progress; the disk work is
/// done around it.
pub struct LocalCache {
    root: String,
    recorded: Vec<String>,
}

impl LocalCache {
    /// The directory of the cache.
    pub closed spec fn root_dir(&self) -> Seq<char> {
        self.root@
    }

    /// The keys noted for the run in progress, in the order they were noted.
    pub closed spec fn noted(&self) -> Seq<Seq<char>> {
        self.recorded@.map_values(|k: String| k@)
    }

    /// A cache in the directory `root`, with nothing noted.
    pub fn new(root: String) -> (res: LocalCache)
        ensures
            res.root_dir() == root@,
            res.noted() == Seq::<Seq<char>>::empty(),
    {
        let res = LocalCache { root, recorded: Vec::new() };
        assert(res.noted() =~= Seq::<Seq<char>>::empty());
        res
    }

    /// The directory that holds the outputs of the rule made from these sources.
    pub fn outputs_dir(&self, rule_checksum: &str, source_checksum: &str) -> (res: String)
        ensures
            res@ == path_join(path_join(self.root_dir(), rule_checksum@), source_checksum@),
    {
        let d = join_path(self.root.as_str(), rule_checksum);
        join_path(d.as_str(), source_checksum)
    }

    /// The directory that holds the keys of the last recorded run.
    pub fn last_run_dir(&self) -> (res: String)
        ensures
            res@ == path_join(self.root_dir(), "last_run"@),
    {
        join_path(self.root.as_str(), "last_run")
    }

    /// The key under which the rule and its sources are noted.
    pub fn key(rule_checksum: &str, source_checksum: &str) -> (res: String)
        ensures
            res@ == ledger_key(rule_checksum@, source_checksum@),
    {
        let k = joined(owned(rule_checksum), "_");
        joined(k, source_checksum)
    }

    /// Notes the rule, with these sources, for the run in progress.
    pub fn record_rule(&mut self, rule_checksum: &str, source_checksum: &str)
        ensures
            final(self).root_dir() == old(self).root_dir(),
            final(self).noted() == old(self).noted().push(ledger_key(rule_checksum@, source_checksum@)),
    {
        let k = Self::key(rule_checksum, source_checksum);
        self.recorded.push(k);
        assert(self.noted() =~= old(self).noted().push(ledger_key(rule_checksum@, source_checksum@)));
    }

    /// The keys noted for the run in progress.
    pub fn recorded(&self) -> (res: Vec<String>)
        ensures
            res@.map_values(|k: String| k@) == self.noted(),
    {
        let mut res: Vec<String> = Vec::new();
        let mut i: usize = 0;
        while i < self.recorded.len()
            invariant
                i <= self.recorded@.len(),
                res@.len() == i,
                forall|j: int| 0 <= j < i ==> res@[j]@ == self.recorded@[j]@,
            decreases self.recorded@.len() - i,
        {
            res.push(self.recorded[i].clone());
            i = i + 1;
        }
        assert(res@.map_values(|k: String| k@) =~= self.noted());
        res
    }

    /// Forgets the noted keys, once they are written down.
    pub fn clear_recorded(&mut self)
        ensures
            final(self).root_dir() == old(self).root_dir(),
            final(self).noted() == Seq::<Seq<char>>::empty(),
    {
        self.recorded.clear();
        assert(self.noted() =~= Seq::<Seq<char>>::empty());
    }
}

/// The path under which outputs are gathered before they take the place of
/// `outputs_dir`: the same path followed by `=`.
pub fn tmp_marker_path(outputs_dir: &str) -> (res: String)
    ensures
        res@ == outputs_dir@ + "="@,
{
    joined(owned(outputs_dir), "=")
}

} // verus!
