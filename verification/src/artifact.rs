use vstd::prelude::*;

verus! {

/// The name of an artifact: the path of a file that a rule reads or writes.
#[derive(Debug, Clone, PartialEq, Eq, PartialOrd, Ord, Hash)]
pub struct ArtifactTag(pub String);

impl ArtifactTag {
    /// The characters of the tag.
    pub open spec fn text(&self) -> Seq<char> {
        self.0@
    }

    /// A copy of the tag that holds the same characters.
    pub fn duplicate(&self) -> (res: ArtifactTag)
        ensures
            res.text() == self.text(),
    {
        ArtifactTag(self.0.clone())
    }
}

/// What a graph knows of one artifact: the rules that read it and the rule
/// that writes it, each named by its checksum.
pub struct Artifact {
    pub tag: ArtifactTag,
    pub consumers: Vec<String>,
    pub creator: Option<String>,
}

/// The characters of each string of a sequence.
pub open spec fn texts(s: Seq<String>) -> Seq<Seq<char>> {
    s.map_values(|x: String| x@)
}

/// The characters of an optional string.
pub open spec fn opt_text(o: Option<String>) -> Option<Seq<char>> {
    match o {
        Some(s) => Some(s@),
        None => None,
    }
}

impl Artifact {
    /// An artifact that no rule reads or writes yet.
    pub(crate) fn new(tag: ArtifactTag) -> (res: Artifact)
        ensures
            res.tag == tag,
            res.creator is None,
            res.consumers@.len() == 0,
    {
        Artifact { tag, creator: None, consumers: Vec::new() }
    }

    /// The checksum of the rule that writes this artifact, if any.
    pub(crate) fn creator_rule(&self) -> (res: Option<String>)
        ensures
            opt_text(res) == opt_text(self.creator),
    {
        match &self.creator {
            Some(c) => Some(c.clone()),
            None => None,
        }
    }

    /// The checksums of the rules that read this artifact, once per reading.
    pub(crate) fn consumer_rules(&self) -> (res: Vec<String>)
        ensures
            texts(res@) == texts(self.consumers@),
    {
        let mut res: Vec<String> = Vec::new();
        let mut i: usize = 0;
        while i < self.consumers.len()
            invariant
                i <= self.consumers@.len(),
                res@.len() == i,
                forall|j: int| 0 <= j < i ==> res@[j]@ == self.consumers@[j]@,
            decreases self.consumers@.len() - i,
        {
            res.push(self.consumers[i].clone());
            i = i + 1;
        }
        assert(texts(res@) =~= texts(self.consumers@));
        res
    }
}

} // verus!
