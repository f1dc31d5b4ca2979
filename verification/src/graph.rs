use vstd::prelude::*;

use crate::artifact::{opt_text, texts, Artifact, ArtifactTag};
use crate::procedure::{ProcedureId, Registry};
use crate::rule::{
    framed_digest, join_path, lemma_text_le_total_ordering, path_join, rule_digest, sorted_texts, tag_texts, text_order,
    Rule, RuleView,
};
use crate::text::{joined, owned, same_text};

verus! {

broadcast use {
    vstd::seq_lib::group_seq_properties,
    vstd::seq_lib::group_to_multiset_ensures,
    vstd::multiset::group_multiset_axioms,
};

// ---------------------------------------------------------------------------
// The graph as a sequence of rules
// ---------------------------------------------------------------------------

/// The checksums of the rules, in the order they were added.
pub open spec fn rule_ids(g: Seq<RuleView>) -> Seq<Seq<char>> {
    g.map_values(|r: RuleView| r.id)
}

/// The checksum of the rule that writes the tag `t`: the last rule that
/// lists it among its outputs.
pub open spec fn creator_of(g: Seq<RuleView>, t: Seq<char>) -> Option<Seq<char>>
    decreases g.len(),
{
    if g.len() == 0 {
        None
    } else if g.last().outs.contains(t) {
        Some(g.last().id)
    } else {
        creator_of(g.drop_last(), t)
    }
}

/// `n` copies of `x`.
pub open spec fn repeat(x: Seq<char>, n: nat) -> Seq<Seq<char>> {
    Seq::new(n, |_i: int| x)
}

/// The checksums of the rules that read the tag `t`, in the order the rules
/// were added, each as many times as the rule lists `t` among its inputs.
pub open spec fn consumers_of(g: Seq<RuleView>, t: Seq<char>) -> Seq<Seq<char>>
    decreases g.len(),
{
    if g.len() == 0 {
        Seq::empty()
    } else {
        consumers_of(g.drop_last(), t) + repeat(g.last().id, g.last().ins.to_multiset().count(t))
    }
}

/// The rules' checksums are distinct, each is the digest of its rule, and no
/// tag is an output of two rules.
pub open spec fn well_formed_rules(g: Seq<RuleView>) -> bool {
    &&& forall|i: int, j: int| 0 <= i < j < g.len() ==> g[i].id != g[j].id
    &&& forall|i: int| 0 <= i < g.len() ==> #[trigger] g[i].id == rule_digest(g[i].proc, g[i].ins, g[i].outs)
        || g[i].id == framed_digest(g[i].proc, g[i].ins, g[i].outs)
    &&& forall|i: int, j: int, t: Seq<char>|
        0 <= i < g.len() && 0 <= j < g.len() && i != j && #[trigger] g[i].outs.contains(t)
            ==> !#[trigger] g[j].outs.contains(t)
}

/// The tags adjoined to a directory.
pub open spec fn joined_tags(dir: Seq<char>, names: Seq<Seq<char>>) -> Seq<Seq<char>> {
    names.map_values(|n: Seq<char>| path_join(dir, n))
}

/// Whether the rule lists the tag `t`, among its inputs or its outputs.
pub open spec fn lists(r: RuleView, t: Seq<char>) -> bool {
    r.ins.contains(t) || r.outs.contains(t)
}

/// Whether a rule of `g` lists the tag `t`.
pub open spec fn names_tag(g: Seq<RuleView>, t: Seq<char>) -> bool {
    exists|i: int| 0 <= i < g.len() && #[trigger] lists(g[i], t)
}

/// What an artifact records agrees with the rules.
pub open spec fn artifact_matches(g: Seq<RuleView>, a: Artifact) -> bool {
    &&& opt_text(a.creator) == creator_of(g, a.tag.0@)
    &&& texts(a.consumers@) == consumers_of(g, a.tag.0@)
}

pub(crate) proof fn lemma_creator_some(g: Seq<RuleView>, t: Seq<char>)
    ensures
        creator_of(g, t) is Some <==> exists|i: int| 0 <= i < g.len() && #[trigger] g[i].outs.contains(t),
        creator_of(g, t) matches Some(id) ==> exists|i: int| 0 <= i < g.len() && g[i].outs.contains(t) && g[i].id == id,
    decreases g.len(),
{
    if g.len() > 0 {
        lemma_creator_some(g.drop_last(), t);
        if creator_of(g.drop_last(), t) is Some {
            let i = choose|i: int| 0 <= i < g.drop_last().len() && #[trigger] g.drop_last()[i].outs.contains(t);
            assert(g[i].outs.contains(t));
        }
        if exists|i: int| 0 <= i < g.len() && #[trigger] g[i].outs.contains(t) {
            let i = choose|i: int| 0 <= i < g.len() && #[trigger] g[i].outs.contains(t);
            if i < g.len() - 1 {
                assert(g.drop_last()[i].outs.contains(t));
            }
        }
        if creator_of(g, t) is Some && !g.last().outs.contains(t) {
            let id = creator_of(g, t)->0;
            let i = choose|i: int| 0 <= i < g.drop_last().len() && g.drop_last()[i].outs.contains(t) && g.drop_last()[i].id == id;
            assert(g[i].outs.contains(t) && g[i].id == id);
        }
    }
}

/// In a well-formed graph the creator of a tag is the one rule that writes it.
pub proof fn lemma_creator_is_writer(g: Seq<RuleView>, i: int, t: Seq<char>)
    requires
        well_formed_rules(g),
        0 <= i < g.len(),
        g[i].outs.contains(t),
    ensures
        creator_of(g, t) == Some(g[i].id),
{
    lemma_creator_some(g, t);
    let id = creator_of(g, t)->0;
    let j = choose|j: int| 0 <= j < g.len() && g[j].outs.contains(t) && g[j].id == id;
    if j != i {
        assert(g[i].outs.contains(t));
        assert(!g[j].outs.contains(t));
    }
}

/// Once a rule is added, each of its outputs has it as its writer, so no
/// other rule can claim them.
pub proof fn lemma_added_rule_writes_outputs(g: Seq<RuleView>, rv: RuleView, t: Seq<char>)
    requires
        rv.outs.contains(t),
    ensures
        creator_of(g.push(rv), t) == Some(rv.id),
{
    assert(g.push(rv).last() == rv);
}

// ---------------------------------------------------------------------------
// Errors
// ---------------------------------------------------------------------------

#[derive(Debug)]
pub enum AddRuleError {
    DuplicateOutput(ArtifactTag),
    DuplicateRule(String),
    NoInputs,
    NoOutputs,
    ProcedureNotFound(String),
}

impl AddRuleError {
    /// The message that describes the error.
    pub open spec fn message(&self) -> Seq<char> {
        match self {
            AddRuleError::DuplicateOutput(tag) => "artifact ("@ + tag.0@ + ") was registered twice as an output"@,
            AddRuleError::DuplicateRule(checksum) => "rule ["@ + checksum@ + "] already exists with the same data"@,
            AddRuleError::NoInputs => "no inputs provided"@,
            AddRuleError::NoOutputs => "no outputs provided"@,
            AddRuleError::ProcedureNotFound(id) => "procedure not found: "@ + id@,
        }
    }

    /// The message that describes the error.
    pub fn to_string(&self) -> (res: String)
        ensures
            res@ == self.message(),
    {
        match self {
            AddRuleError::DuplicateOutput(tag) => {
                let s = joined(owned("artifact ("), tag.0.as_str());
                joined(s, ") was registered twice as an output")
            }
            AddRuleError::DuplicateRule(checksum) => {
                let s = joined(owned("rule ["), checksum.as_str());
                joined(s, "] already exists with the same data")
            }
            AddRuleError::NoInputs => owned("no inputs provided"),
            AddRuleError::NoOutputs => owned("no outputs provided"),
            AddRuleError::ProcedureNotFound(id) => joined(owned("procedure not found: "), id.as_str()),
        }
    }
}

// ---------------------------------------------------------------------------
// The graph
// ---------------------------------------------------------------------------

/// Rules and the artifacts that link them.
pub struct Graph {
    pub(crate) rules: Vec<Rule>,
    pub(crate) artifacts: Vec<Artifact>,
}

impl Default for Graph {
    fn default() -> (res: Graph)
        ensures
            res.wf(),
            res.model() == Seq::<RuleView>::empty(),
    {
        Graph::new()
    }
}

/// The position of the artifact with tag `t`, if any.
pub(crate) fn find_artifact(artifacts: &Vec<Artifact>, t: &str) -> (res: Option<usize>)
    ensures
        match res {
            Some(i) => i < artifacts@.len() && artifacts@[i as int].tag.0@ == t@,
            None => forall|k: int| 0 <= k < artifacts@.len() ==> artifacts@[k].tag.0@ != t@,
        },
{
    let mut i: usize = 0;
    while i < artifacts.len()
        invariant
            i <= artifacts@.len(),
            forall|k: int| 0 <= k < i ==> artifacts@[k].tag.0@ != t@,
        decreases artifacts@.len() - i,
    {
        if same_text(artifacts[i].tag.0.as_str(), t) {
            return Some(i);
        }
        i = i + 1;
    }
    None
}

/// Each name adjoined to the directory, as a tag.
fn join_tags(dir: &String, names: &Vec<String>) -> (res: Vec<ArtifactTag>)
    ensures
        tag_texts(res@) == joined_tags(dir@, texts(names@)),
{
    let mut res: Vec<ArtifactTag> = Vec::new();
    let mut i: usize = 0;
    while i < names.len()
        invariant
            i <= names@.len(),
            res@.len() == i,
            forall|j: int| 0 <= j < i ==> #[trigger] res@[j].0@ == path_join(dir@, names@[j]@),
        decreases names@.len() - i,
    {
        res.push(ArtifactTag(join_path(dir.as_str(), names[i].as_str())));
        i = i + 1;
    }
    assert(tag_texts(res@) =~= joined_tags(dir@, texts(names@)));
    res
}

impl Graph {
    /// The rules, in the order they were added.
    pub open(crate) spec fn model(&self) -> Seq<RuleView> {
        self.rules@.map_values(|r: Rule| r.view())
    }

    /// Whether an artifact records the tag `t`.
    pub open(crate) spec fn has_artifact(&self, t: Seq<char>) -> bool {
        has_tag(self.artifacts@, t)
    }

    /// The tags of the artifact records.
    pub open(crate) spec fn record_tags(&self) -> Set<Seq<char>> {
        Set::new(|t: Seq<char>| self.has_artifact(t))
    }

    /// The rules are well formed, and the artifacts record, once each, exactly
    /// the tags that the rules name and what the rules say of each.
    pub open(crate) spec fn wf(&self) -> bool {
        &&& well_formed_rules(self.model())
        &&& forall|i: int| 0 <= i < self.artifacts@.len() ==> names_tag(self.model(), #[trigger] self.artifacts@[i].tag.0@)
        &&& forall|i: int, j: int|
            0 <= i < j < self.artifacts@.len() ==> self.artifacts@[i].tag.0@ != self.artifacts@[j].tag.0@
        &&& forall|i: int| 0 <= i < self.artifacts@.len() ==> #[trigger] artifact_matches(self.model(), self.artifacts@[i])
        &&& forall|i: int, t: Seq<char>|
            0 <= i < self.model().len() && #[trigger] self.model()[i].ins.contains(t) ==> self.has_artifact(t)
        &&& forall|i: int, t: Seq<char>|
            0 <= i < self.model().len() && #[trigger] self.model()[i].outs.contains(t) ==> self.has_artifact(t)
    }

    /// The rules of a graph built by `new` and `add_rule` have distinct
    /// checksums, each the digest of its rule, and no tag has two writers.
    pub proof fn lemma_rules_well_formed(&self)
        requires
            self.wf(),
        ensures
            well_formed_rules(self.model()),
    {
    }

    /// In a well-formed graph, the artifact records are those of the tags
    /// that the rules name.
    pub proof fn lemma_records_are_named_tags(&self)
        requires
            self.wf(),
        ensures
            self.record_tags() == Set::new(|t: Seq<char>| names_tag(self.model(), t)),
    {
        assert forall|t: Seq<char>| self.record_tags().contains(t) <==> names_tag(self.model(), t) by {
            if self.has_artifact(t) {
                let k = choose|k: int| 0 <= k < self.artifacts@.len() && #[trigger] self.artifacts@[k].tag.0@ == t;
                assert(names_tag(self.model(), self.artifacts@[k].tag.0@));
            }
            if names_tag(self.model(), t) {
                let g = self.model();
                let i = choose|i: int| 0 <= i < g.len() && #[trigger] lists(g[i], t);
                if g[i].ins.contains(t) {
                    assert(self.has_artifact(t));
                } else {
                    assert(self.has_artifact(t));
                }
            }
        }
        assert(self.record_tags() =~= Set::new(|t: Seq<char>| names_tag(self.model(), t)));
    }

    /// An empty graph: no rules and no artifact records.
    pub fn new() -> (res: Graph)
        ensures
            res.wf(),
            res.model() == Seq::<RuleView>::empty(),
            res.record_tags() == Set::<Seq<char>>::empty(),
    {
        let g = Graph { rules: Vec::new(), artifacts: Vec::new() };
        assert(g.model() =~= Seq::<RuleView>::empty());
        assert(g.record_tags() =~= Set::<Seq<char>>::empty());
        g
    }

    /// The rule at position `i`, in the order the rules were added.
    pub fn rule_at(&self, i: usize) -> (res: &Rule)
        requires
            i < self.model().len(),
        ensures
            res.view() == self.model()[i as int],
    {
        &self.rules[i]
    }

    /// The number of rules.
    pub fn rule_count(&self) -> (res: usize)
        ensures
            res == self.model().len(),
    {
        self.rules.len()
    }

    /// The position of the rule whose checksum is `id`, if any.
    pub(crate) fn find_rule(&self, id: &str) -> (res: Option<usize>)
        ensures
            match res {
                Some(i) => i < self.model().len() && self.model()[i as int].id == id@,
                None => !rule_ids(self.model()).contains(id@),
            },
    {
        let mut i: usize = 0;
        while i < self.rules.len()
            invariant
                i <= self.rules@.len(),
                forall|k: int| 0 <= k < i ==> self.model()[k].id != id@,
            decreases self.rules@.len() - i,
        {
            if same_text(self.rules[i].checksum.as_str(), id) {
                return Some(i);
            }
            i = i + 1;
        }
        proof {
            if rule_ids(self.model()).contains(id@) {
                let k = rule_ids(self.model()).index_of(id@);
                assert(self.model()[k].id == id@);
            }
        }
        None
    }

    /// Adds a rule of the procedure `proc_id` that reads the `inputs` of
    /// `input_dir` and writes the `outputs` of `output_dir`, and returns its
    /// checksum. Refused, with the graph unchanged: without inputs, without
    /// outputs, when the registry has no such procedure, and when an output
    /// is already written by a rule of the graph (the first such output is
    /// named). A rule of the graph with the same data would write the same
    /// outputs, so a rule that already bears the checksum has other data:
    /// the new rule is then named by its checksum in the framed form, and
    /// refused only when that name is taken too.
    #[verifier::rlimit(40)]
    pub fn add_rule<F>(
        &mut self,
        inputs: Vec<String>,
        outputs: Vec<String>,
        input_dir: String,
        output_dir: String,
        proc_id: ProcedureId,
        registry: &Registry<F>,
    ) -> (res: Result<String, AddRuleError>)
        requires
            old(self).wf(),
            registry.wf(),
        ensures
            final(self).wf(),
            res is Err ==> *final(self) == *old(self),
            res matches Ok(s) ==> s@.len() == 32,
            ({
                let g = old(self).model();
                let ins = joined_tags(input_dir@, texts(inputs@));
                let outs = joined_tags(output_dir@, texts(outputs@));
                let id = rule_digest(proc_id.0@, sorted_texts(ins), sorted_texts(outs));
                let alt = framed_digest(proc_id.0@, sorted_texts(ins), sorted_texts(outs));
                let nid = if rule_ids(g).contains(id) { alt } else { id };
                if inputs@.len() == 0 {
                    res matches Err(AddRuleError::NoInputs)
                } else if outputs@.len() == 0 {
                    res matches Err(AddRuleError::NoOutputs)
                } else if !registry.view().dom().contains(proc_id.0@) {
                    res matches Err(AddRuleError::ProcedureNotFound(s)) && s@ == proc_id.0@
                } else if exists|k: int| 0 <= k < outs.len() && creator_of(g, #[trigger] outs[k]) is Some {
                    res matches Err(AddRuleError::DuplicateOutput(t)) && exists|k: int|
                        0 <= k < outs.len() && t.0@ == outs[k] && creator_of(g, outs[k]) is Some
                            && forall|j: int| 0 <= j < k ==> creator_of(g, #[trigger] outs[j]) is None
                } else if rule_ids(g).contains(id) && rule_ids(g).contains(alt) {
                    res matches Err(AddRuleError::DuplicateRule(s)) && s@ == alt
                } else {
                    res matches Ok(s) && s@ == nid && final(self).model() == g.push(
                        RuleView { id: nid, proc: proc_id.0@, ins: sorted_texts(ins), outs: sorted_texts(outs) },
                    )
                }
            }),
    {
        if inputs.len() == 0 {
            return Err(AddRuleError::NoInputs);
        }
        if outputs.len() == 0 {
            return Err(AddRuleError::NoOutputs);
        }
        if !registry.contains(proc_id.0.as_str()) {
            return Err(AddRuleError::ProcedureNotFound(proc_id.0.clone()));
        }
        let ghost g = self.model();
        let ghost orig = self.artifacts@;
        let input_tags = join_tags(&input_dir, &inputs);
        let output_tags = join_tags(&output_dir, &outputs);
        let ghost ins = tag_texts(input_tags@);
        let ghost outs = tag_texts(output_tags@);

        match self.claimed_output(&output_tags) {
            Some(k) => {
                let d = output_tags[k].duplicate();
                proof {
                    assert(outs == joined_tags(output_dir@, texts(outputs@)));
                    assert(outs[k as int] == output_tags@[k as int].0@);
                    assert(creator_of(g, outs[k as int]) is Some);
                    assert(d.0@ == outs[k as int]);
                }
                return Err(AddRuleError::DuplicateOutput(d));
            }
            None => {}
        }

        let mut rule = Rule::new(proc_id, input_tags, output_tags);
        let mut checksum = rule.checksum();
        assert(checksum@.len() == 32);
        match self.find_rule(checksum.as_str()) {
            Some(i) => {
                // A rule with other data already has this name (the same
                // data would have claimed the same outputs): the framed
                // form names this one.
                proof { assert(rule_ids(g)[i as int] == checksum@); }
                checksum = rule.reframe();
                match self.find_rule(checksum.as_str()) {
                    Some(j) => {
                        proof { assert(rule_ids(g)[j as int] == checksum@); }
                        return Err(AddRuleError::DuplicateRule(checksum));
                    }
                    None => {}
                }
            }
            None => {}
        }
        let ghost rv = rule.view();
        proof {
            lemma_text_le_total_ordering();
            ins.lemma_sort_by_ensures(text_order());
            outs.lemma_sort_by_ensures(text_order());
            assert forall|t: Seq<char>| #[trigger] rv.outs.contains(t) implies outs.contains(t) by {
                assert(rv.outs.to_multiset().count(t) > 0);
            }
            assert(rv.id == checksum@);
            assert forall|i: int| 0 <= i < self.artifacts@.len() implies
                #[trigger] artifact_agrees(g, Seq::<Seq<char>>::empty(), Seq::<Seq<char>>::empty(), checksum@, self.artifacts@[i]) by {
                let a = self.artifacts@[i];
                assert(artifact_matches(g, a));
                assert(Seq::<Seq<char>>::empty().to_multiset().count(a.tag.0@) == 0);
                assert(!Seq::<Seq<char>>::empty().contains(a.tag.0@));
                assert(repeat(checksum@, 0) =~= Seq::<Seq<char>>::empty());
                assert(consumers_of(g, a.tag.0@) + repeat(checksum@, 0) =~= consumers_of(g, a.tag.0@));
            }
        }
        link_inputs(&mut self.artifacts, &rule.input_tags, &checksum, Ghost(g));
        let ghost mid = self.artifacts@;
        link_outputs(&mut self.artifacts, &rule.output_tags, &checksum, Ghost(g), Ghost(rv.ins));
        self.rules.push(rule);
        proof {
            let g2 = self.model();
            assert(g2 =~= g.push(rv));
            lemma_records_named(g, rv, orig, mid, self.artifacts@);
            assert(g2.drop_last() =~= g);
            assert(rv.id == rule_digest(rv.proc, rv.ins, rv.outs) || rv.id == framed_digest(rv.proc, rv.ins, rv.outs));
            assert(!rule_ids(g).contains(rv.id));
            assert forall|i: int, j: int| 0 <= i < j < g2.len() implies g2[i].id != g2[j].id by {
                if j == g.len() {
                    assert(rule_ids(g)[i] == g[i].id);
                }
            }
            assert(forall|i: int| 0 <= i < g2.len() ==> #[trigger] g2[i].id == rule_digest(g2[i].proc, g2[i].ins, g2[i].outs)
                || g2[i].id == framed_digest(g2[i].proc, g2[i].ins, g2[i].outs));
            assert(artifacts_cover(self.artifacts@, g));
            assert forall|i: int| 0 <= i < self.artifacts@.len() implies #[trigger] artifact_matches(g2, self.artifacts@[i]) by {
                assert(artifact_agrees(g, rv.ins, rv.outs, rv.id, self.artifacts@[i]));
            }
            assert forall|i: int, j: int, t: Seq<char>|
                0 <= i < g2.len() && 0 <= j < g2.len() && i != j && #[trigger] g2[i].outs.contains(t)
                    implies !#[trigger] g2[j].outs.contains(t) by {
                if i == g.len() || j == g.len() {
                    let o = if i == g.len() { j } else { i };
                    if rv.outs.contains(t) && g[o].outs.contains(t) {
                        let q = outs.index_of(t);
                        lemma_creator_some(g, t);
                        assert(creator_of(g, outs[q]) is None);
                    }
                }
            }
            assert forall|i: int, t: Seq<char>| 0 <= i < g2.len() && #[trigger] g2[i].ins.contains(t)
                implies self.has_artifact(t) by {
                if i == g.len() {
                    let j = rv.ins.index_of(t);
                    assert(has_tag(self.artifacts@, rv.ins[j]));
                } else {
                    assert(has_tag(self.artifacts@, t));
                }
            }
            assert forall|i: int, t: Seq<char>| 0 <= i < g2.len() && #[trigger] g2[i].outs.contains(t)
                implies self.has_artifact(t) by {
                if i == g.len() {
                    let j = rv.outs.index_of(t);
                    assert(has_tag(self.artifacts@, rv.outs[j]));
                } else {
                    assert(has_tag(self.artifacts@, t));
                }
            }
            assert(well_formed_rules(g2));
        }
        Ok(checksum)
    }

    /// The position of the first of the tags that a rule of the graph writes.
    fn claimed_output(&self, tags: &Vec<ArtifactTag>) -> (res: Option<usize>)
        requires
            self.wf(),
        ensures
            match res {
                Some(k) => k < tags@.len() && creator_of(self.model(), tags@[k as int].0@) is Some
                    && forall|j: int| 0 <= j < k ==> creator_of(self.model(), #[trigger] tag_texts(tags@)[j]) is None,
                None => forall|j: int| 0 <= j < tags@.len() ==> creator_of(self.model(), #[trigger] tag_texts(tags@)[j]) is None,
            },
    {
        let ghost g = self.model();
        let mut k: usize = 0;
        while k < tags.len()
            invariant
                self.wf(),
                g == self.model(),
                k <= tags@.len(),
                forall|j: int| 0 <= j < k ==> creator_of(g, #[trigger] tag_texts(tags@)[j]) is None,
            decreases tags@.len() - k,
        {
            let ghost t = tags@[k as int].0@;
            match find_artifact(&self.artifacts, tags[k].0.as_str()) {
                Some(i) => {
                    proof { assert(artifact_matches(g, self.artifacts@[i as int])); }
                    if self.artifacts[i].creator.is_some() {
                        return Some(k);
                    }
                }
                None => {
                    proof {
                        lemma_creator_some(g, t);
                        if creator_of(g, t) is Some {
                            let r = choose|r: int| 0 <= r < g.len() && #[trigger] g[r].outs.contains(t);
                            assert(self.has_artifact(t));
                        }
                    }
                }
            }
            k = k + 1;
        }
        None
    }
}


/// Whether an artifact records the tag `t`.
pub open spec fn has_tag(arts: Seq<Artifact>, t: Seq<char>) -> bool {
    exists|k: int| 0 <= k < arts.len() && #[trigger] arts[k].tag.0@ == t
}

/// What an artifact records once a rule with checksum `id`, inputs `ins` and
/// outputs `outs` is linked into the graph `g`.
pub open spec fn artifact_agrees(g: Seq<RuleView>, ins: Seq<Seq<char>>, outs: Seq<Seq<char>>, id: Seq<char>, a: Artifact) -> bool {
    &&& opt_text(a.creator) == if outs.contains(a.tag.0@) { Some(id) } else { creator_of(g, a.tag.0@) }
    &&& texts(a.consumers@) == consumers_of(g, a.tag.0@) + repeat(id, ins.to_multiset().count(a.tag.0@))
}

/// Distinct tags, and every tag of the graph recorded.
pub open spec fn artifacts_cover(arts: Seq<Artifact>, g: Seq<RuleView>) -> bool {
    &&& forall|i: int, j: int| 0 <= i < j < arts.len() ==> arts[i].tag.0@ != arts[j].tag.0@
    &&& forall|i: int, t: Seq<char>| 0 <= i < g.len() && #[trigger] g[i].ins.contains(t) ==> has_tag(arts, t)
    &&& forall|i: int, t: Seq<char>| 0 <= i < g.len() && #[trigger] g[i].outs.contains(t) ==> has_tag(arts, t)
}

/// The position of the artifact with tag `t`, made if there is none yet.
fn artifact_slot(artifacts: &mut Vec<Artifact>, tag: &ArtifactTag, Ghost(g): Ghost<Seq<RuleView>>, Ghost(ins): Ghost<Seq<Seq<char>>>, Ghost(outs): Ghost<Seq<Seq<char>>>, Ghost(id): Ghost<Seq<char>>) -> (i: usize)
    requires
        artifacts_cover(old(artifacts)@, g),
        forall|j: int| 0 <= j < old(artifacts)@.len() ==> #[trigger] artifact_agrees(g, ins, outs, id, old(artifacts)@[j]),
        forall|t: Seq<char>| #[trigger] ins.contains(t) ==> has_tag(old(artifacts)@, t),
        forall|t: Seq<char>| #[trigger] outs.contains(t) ==> has_tag(old(artifacts)@, t),
    ensures
        i < final(artifacts)@.len(),
        final(artifacts)@[i as int].tag.0@ == tag.0@,
        artifacts_cover(final(artifacts)@, g),
        forall|j: int| 0 <= j < final(artifacts)@.len() ==> #[trigger] artifact_agrees(g, ins, outs, id, final(artifacts)@[j]),
        forall|t: Seq<char>| has_tag(old(artifacts)@, t) ==> has_tag(final(artifacts)@, t),
        forall|j: int| 0 <= j < final(artifacts)@.len() ==> has_tag(old(artifacts)@, #[trigger] final(artifacts)@[j].tag.0@)
            || final(artifacts)@[j].tag.0@ == tag.0@,
{
    match find_artifact(artifacts, tag.0.as_str()) {
        Some(i) => {
            proof {
                assert forall|j: int| 0 <= j < artifacts@.len() implies has_tag(artifacts@, #[trigger] artifacts@[j].tag.0@) by {}
            }
            i
        }
        None => {
            let ghost t = tag.0@;
            proof {
                lemma_creator_some(g, t);
                if creator_of(g, t) is Some {
                    let r = choose|r: int| 0 <= r < g.len() && #[trigger] g[r].outs.contains(t);
                    assert(has_tag(old(artifacts)@, t));
                }
                if exists|r: int| 0 <= r < g.len() && #[trigger] g[r].ins.contains(t) {
                    let r = choose|r: int| 0 <= r < g.len() && #[trigger] g[r].ins.contains(t);
                    assert(has_tag(old(artifacts)@, t));
                }
                lemma_consumers_absent(g, t);
                assert(repeat(id, 0) =~= Seq::<Seq<char>>::empty());
            }
            let ghost before = artifacts@;
            artifacts.push(Artifact::new(tag.duplicate()));
            proof {
                assert(texts(artifacts@.last().consumers@) =~= Seq::<Seq<char>>::empty());
                assert forall|t2: Seq<char>| has_tag(before, t2) implies has_tag(artifacts@, t2) by {
                    let q = choose|q: int| 0 <= q < before.len() && #[trigger] before[q].tag.0@ == t2;
                    assert(artifacts@[q] == before[q]);
                }
                assert(artifact_agrees(g, ins, outs, id, artifacts@.last()));
                assert forall|j: int| 0 <= j < artifacts@.len() implies has_tag(before, #[trigger] artifacts@[j].tag.0@)
                    || artifacts@[j].tag.0@ == tag.0@ by {
                    if j < before.len() {
                        assert(before[j] == artifacts@[j]);
                    }
                }
            }
            artifacts.len() - 1
        }
    }
}

/// Records the rule `id` as a reader of each of the tags, once per listing.
fn link_inputs(artifacts: &mut Vec<Artifact>, tags: &Vec<ArtifactTag>, id: &String, Ghost(g): Ghost<Seq<RuleView>>)
    requires
        artifacts_cover(old(artifacts)@, g),
        forall|j: int| 0 <= j < old(artifacts)@.len() ==> #[trigger] artifact_agrees(g, Seq::empty(), Seq::empty(), id@, old(artifacts)@[j]),
    ensures
        artifacts_cover(final(artifacts)@, g),
        forall|j: int| 0 <= j < final(artifacts)@.len() ==> #[trigger] artifact_agrees(g, tag_texts(tags@), Seq::empty(), id@, final(artifacts)@[j]),
        forall|t: Seq<char>| #[trigger] tag_texts(tags@).contains(t) ==> has_tag(final(artifacts)@, t),
        forall|j: int| 0 <= j < final(artifacts)@.len() ==> has_tag(old(artifacts)@, #[trigger] final(artifacts)@[j].tag.0@)
            || tag_texts(tags@).contains(final(artifacts)@[j].tag.0@),
{
    let ghost orig = artifacts@;
    let ghost ins = tag_texts(tags@);
    assert(ins.subrange(0, 0) =~= Seq::<Seq<char>>::empty());
    let mut k: usize = 0;
    while k < tags.len()
        invariant
            k <= tags@.len(),
            ins == tag_texts(tags@),
            artifacts_cover(artifacts@, g),
            forall|j: int| 0 <= j < artifacts@.len() ==> #[trigger] artifact_agrees(g, ins.subrange(0, k as int), Seq::empty(), id@, artifacts@[j]),
            forall|t: Seq<char>| #[trigger] ins.subrange(0, k as int).contains(t) ==> has_tag(artifacts@, t),
            forall|j: int| 0 <= j < artifacts@.len() ==> has_tag(orig, #[trigger] artifacts@[j].tag.0@)
                || ins.contains(artifacts@[j].tag.0@),
        decreases tags@.len() - k,
    {
        let ghost t = ins[k as int];
        let ghost pre = ins.subrange(0, k as int);
        let ghost start = artifacts@;
        let i = artifact_slot(artifacts, &tags[k], Ghost(g), Ghost(pre), Ghost(Seq::empty()), Ghost(id@));
        let ghost before = artifacts@;
        add_consumer(artifacts, i, id.clone());
        proof {
            let post = ins.subrange(0, k + 1);
            assert(post =~= pre.push(t));
            assert(post.to_multiset() =~= pre.to_multiset().insert(t));
            assert forall|m: int| 0 <= m < artifacts@.len() implies
                #[trigger] artifact_agrees(g, post, Seq::empty(), id@, artifacts@[m]) by {
                let a = artifacts@[m];
                let x = a.tag.0@;
                assert(artifact_agrees(g, pre, Seq::empty(), id@, before[m]));
                let n = pre.to_multiset().count(x);
                if m == i {
                    assert(post.to_multiset().count(x) == n + 1);
                    assert(repeat(id@, n + 1) =~= repeat(id@, n).push(id@));
                    assert(texts(a.consumers@) =~= texts(before[m].consumers@).push(id@));
                } else {
                    assert(x != t);
                    assert(post.to_multiset().count(x) == n);
                }
            }
            assert forall|t2: Seq<char>| has_tag(before, t2) implies has_tag(artifacts@, t2) by {
                let q = choose|q: int| 0 <= q < before.len() && #[trigger] before[q].tag.0@ == t2;
                assert(artifacts@[q].tag == before[q].tag);
            }
            assert(has_tag(artifacts@, t)) by {
                assert(artifacts@[i as int].tag.0@ == t);
            }
            assert forall|t2: Seq<char>| #[trigger] post.contains(t2) implies has_tag(artifacts@, t2) by {
                if t2 != t {
                    let q = post.index_of(t2);
                    assert(pre[q] == t2);
                    assert(pre.contains(t2));
                }
            }
            assert(ins[k as int] == t);
            assert forall|j: int| 0 <= j < artifacts@.len() implies has_tag(orig, #[trigger] artifacts@[j].tag.0@)
                || ins.contains(artifacts@[j].tag.0@) by {
                assert(artifacts@[j].tag == before[j].tag);
                if has_tag(start, before[j].tag.0@) {
                    let q = choose|q: int| 0 <= q < start.len() && #[trigger] start[q].tag.0@ == before[j].tag.0@;
                    assert(has_tag(orig, start[q].tag.0@) || ins.contains(start[q].tag.0@));
                }
            }
        }
        k = k + 1;
    }
    proof { assert(ins.subrange(0, k as int) =~= ins); }
}

/// Records the rule `id` as the writer of each of the tags.
fn link_outputs(artifacts: &mut Vec<Artifact>, tags: &Vec<ArtifactTag>, id: &String, Ghost(g): Ghost<Seq<RuleView>>, Ghost(ins): Ghost<Seq<Seq<char>>>)
    requires
        artifacts_cover(old(artifacts)@, g),
        forall|j: int| 0 <= j < old(artifacts)@.len() ==> #[trigger] artifact_agrees(g, ins, Seq::empty(), id@, old(artifacts)@[j]),
        forall|t: Seq<char>| #[trigger] ins.contains(t) ==> has_tag(old(artifacts)@, t),
    ensures
        artifacts_cover(final(artifacts)@, g),
        forall|j: int| 0 <= j < final(artifacts)@.len() ==> #[trigger] artifact_agrees(g, ins, tag_texts(tags@), id@, final(artifacts)@[j]),
        forall|t: Seq<char>| #[trigger] ins.contains(t) ==> has_tag(final(artifacts)@, t),
        forall|t: Seq<char>| #[trigger] tag_texts(tags@).contains(t) ==> has_tag(final(artifacts)@, t),
        forall|j: int| 0 <= j < final(artifacts)@.len() ==> has_tag(old(artifacts)@, #[trigger] final(artifacts)@[j].tag.0@)
            || tag_texts(tags@).contains(final(artifacts)@[j].tag.0@),
{
    let ghost orig = artifacts@;
    let ghost outs = tag_texts(tags@);
    assert(outs.subrange(0, 0) =~= Seq::<Seq<char>>::empty());
    let mut k: usize = 0;
    while k < tags.len()
        invariant
            k <= tags@.len(),
            outs == tag_texts(tags@),
            artifacts_cover(artifacts@, g),
            forall|j: int| 0 <= j < artifacts@.len() ==> #[trigger] artifact_agrees(g, ins, outs.subrange(0, k as int), id@, artifacts@[j]),
            forall|t: Seq<char>| #[trigger] ins.contains(t) ==> has_tag(artifacts@, t),
            forall|t: Seq<char>| #[trigger] outs.subrange(0, k as int).contains(t) ==> has_tag(artifacts@, t),
            forall|j: int| 0 <= j < artifacts@.len() ==> has_tag(orig, #[trigger] artifacts@[j].tag.0@)
                || outs.contains(artifacts@[j].tag.0@),
        decreases tags@.len() - k,
    {
        let ghost t = outs[k as int];
        let ghost pre = outs.subrange(0, k as int);
        let ghost start = artifacts@;
        let i = artifact_slot(artifacts, &tags[k], Ghost(g), Ghost(ins), Ghost(pre), Ghost(id@));
        let ghost before = artifacts@;
        set_creator(artifacts, i, id.clone());
        proof {
            let post = outs.subrange(0, k + 1);
            assert(post =~= pre.push(t));
            assert forall|m: int| 0 <= m < artifacts@.len() implies
                #[trigger] artifact_agrees(g, ins, post, id@, artifacts@[m]) by {
                let a = artifacts@[m];
                let x = a.tag.0@;
                assert(artifact_agrees(g, ins, pre, id@, before[m]));
                if m != i {
                    assert(x != t);
                    if post.contains(x) {
                        let q = post.index_of(x);
                        assert(pre[q] == x);
                    }
                    assert(post.contains(x) == pre.contains(x));
                } else {
                    assert(post[k as int] == x);
                }
            }
            assert forall|t2: Seq<char>| has_tag(before, t2) implies has_tag(artifacts@, t2) by {
                let q = choose|q: int| 0 <= q < before.len() && #[trigger] before[q].tag.0@ == t2;
                assert(artifacts@[q].tag == before[q].tag);
            }
            assert(has_tag(artifacts@, t)) by {
                assert(artifacts@[i as int].tag.0@ == t);
            }
            assert forall|t2: Seq<char>| #[trigger] post.contains(t2) implies has_tag(artifacts@, t2) by {
                if t2 != t {
                    let q = post.index_of(t2);
                    assert(pre[q] == t2);
                    assert(pre.contains(t2));
                }
            }
            assert(outs[k as int] == t);
            assert forall|j: int| 0 <= j < artifacts@.len() implies has_tag(orig, #[trigger] artifacts@[j].tag.0@)
                || outs.contains(artifacts@[j].tag.0@) by {
                assert(artifacts@[j].tag == before[j].tag);
                if has_tag(start, before[j].tag.0@) {
                    let q = choose|q: int| 0 <= q < start.len() && #[trigger] start[q].tag.0@ == before[j].tag.0@;
                    assert(has_tag(orig, start[q].tag.0@) || outs.contains(start[q].tag.0@));
                }
            }
        }
        k = k + 1;
    }
    proof { assert(outs.subrange(0, k as int) =~= outs); }
}

/// Records one more reading of the artifact at `i` by the rule `id`.
fn add_consumer(artifacts: &mut Vec<Artifact>, i: usize, id: String)
    requires
        i < old(artifacts)@.len(),
    ensures
        final(artifacts)@.len() == old(artifacts)@.len(),
        forall|m: int| 0 <= m < final(artifacts)@.len() && m != i ==> final(artifacts)@[m] == old(artifacts)@[m],
        final(artifacts)@[i as int].tag == old(artifacts)@[i as int].tag,
        final(artifacts)@[i as int].creator == old(artifacts)@[i as int].creator,
        final(artifacts)@[i as int].consumers@ == old(artifacts)@[i as int].consumers@.push(id),
{
    artifacts[i].consumers.push(id);
}

/// Records the rule `id` as the writer of the artifact at `i`.
fn set_creator(artifacts: &mut Vec<Artifact>, i: usize, id: String)
    requires
        i < old(artifacts)@.len(),
    ensures
        final(artifacts)@.len() == old(artifacts)@.len(),
        forall|m: int| 0 <= m < final(artifacts)@.len() && m != i ==> final(artifacts)@[m] == old(artifacts)@[m],
        final(artifacts)@[i as int].tag == old(artifacts)@[i as int].tag,
        final(artifacts)@[i as int].creator == Some(id),
        final(artifacts)@[i as int].consumers == old(artifacts)@[i as int].consumers,
{
    artifacts[i].creator = Some(id);
}

/// After a rule is linked, every record names a tag of the rules.
proof fn lemma_records_named(g: Seq<RuleView>, rv: RuleView, orig: Seq<Artifact>, mid: Seq<Artifact>, fin: Seq<Artifact>)
    requires
        forall|r: int| 0 <= r < orig.len() ==> names_tag(g, #[trigger] orig[r].tag.0@),
        forall|q: int| 0 <= q < mid.len() ==> has_tag(orig, #[trigger] mid[q].tag.0@) || rv.ins.contains(mid[q].tag.0@),
        forall|j: int| 0 <= j < fin.len() ==> has_tag(mid, #[trigger] fin[j].tag.0@) || rv.outs.contains(fin[j].tag.0@),
    ensures
        forall|j: int| 0 <= j < fin.len() ==> names_tag(g.push(rv), #[trigger] fin[j].tag.0@),
{
    let g2 = g.push(rv);
    assert forall|j: int| 0 <= j < fin.len() implies names_tag(g2, #[trigger] fin[j].tag.0@) by {
        let t = fin[j].tag.0@;
        if has_tag(mid, t) {
            let q = choose|q: int| 0 <= q < mid.len() && #[trigger] mid[q].tag.0@ == t;
            if has_tag(orig, t) {
                let r = choose|r: int| 0 <= r < orig.len() && #[trigger] orig[r].tag.0@ == t;
                assert(names_tag(g, orig[r].tag.0@));
                let i = choose|i: int| 0 <= i < g.len() && #[trigger] lists(g[i], t);
                assert(g2[i] == g[i]);
                assert(lists(g2[i], t));
            } else {
                assert(mid[q].tag.0@ == t);
                assert(lists(g2[g.len() as int], t));
            }
        } else {
            assert(lists(g2[g.len() as int], t));
        }
    }
}

proof fn lemma_consumers_absent(g: Seq<RuleView>, t: Seq<char>)
    requires
        forall|r: int| 0 <= r < g.len() ==> !(#[trigger] g[r].ins.contains(t)),
    ensures
        consumers_of(g, t) == Seq::<Seq<char>>::empty(),
    decreases g.len(),
{
    if g.len() > 0 {
        assert forall|r: int| 0 <= r < g.drop_last().len() implies !(#[trigger] g.drop_last()[r].ins.contains(t)) by {
            assert(g.drop_last()[r] == g[r]);
        }
        lemma_consumers_absent(g.drop_last(), t);
        assert(!g.last().ins.contains(t));
        assert(g.last().ins.to_multiset().count(t) == 0);
        assert(repeat(g.last().id, 0) =~= Seq::<Seq<char>>::empty());
        assert(consumers_of(g, t) =~= Seq::<Seq<char>>::empty());
    }
}

} // verus!
