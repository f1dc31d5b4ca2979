use vstd::prelude::*;
use vstd::relations::*;
use vstd::utf8::*;

use md5::Digest;

use crate::artifact::ArtifactTag;
use crate::procedure::{made_by, Procedure, ProcedureError, ProcedureId, Registry};
use crate::text::{decimal, decimal_text, joined, owned};

verus! {

broadcast use vstd::seq_lib::group_seq_properties;

// ---------------------------------------------------------------------------
// Outside computations
// ---------------------------------------------------------------------------

/// The MD5 digest of a byte sequence.
pub uninterp spec fn md5_digest(data: Seq<u8>) -> Seq<u8>;

/// The path that Unix path rules make of `name` adjoined to `dir`: an
/// absolute `name` replaces `dir`; otherwise `name` follows `dir`, with a
/// `/` between them unless `dir` is empty or already ends with one.
pub open spec fn path_join(dir: Seq<char>, name: Seq<char>) -> Seq<char> {
    if name.len() > 0 && name[0] == '/' {
        name
    } else if dir.len() == 0 || dir.last() == '/' {
        dir + name
    } else {
        dir + seq!['/'] + name
    }
}

/// `md5::Md5::digest`: the MD5 digest of `data`, which the `md-5` crate
/// documents as a 16-byte output. Claimed: the result is `md5_digest(data)`
/// and holds 16 bytes; nothing is claimed of what the digest is otherwise.
#[verifier::external_body]
fn md5(data: &[u8]) -> (res: Vec<u8>)
    ensures
        res@ == md5_digest(data@),
        res@.len() == 16,
{
    md5::Md5::digest(data).to_vec()
}

/// The lowercase hexadecimal digit of a value below 16.
pub open spec fn hex_digit(v: u8) -> char {
    if v < 10 {
        (v + 48) as char
    } else {
        (v + 87) as char
    }
}

/// Each byte as two lowercase hexadecimal digits, high half first.
pub open spec fn hex_lower(data: Seq<u8>) -> Seq<char>
    decreases data.len(),
{
    if data.len() == 0 {
        Seq::empty()
    } else {
        hex_lower(data.drop_last()) + seq![hex_digit(data.last() / 16), hex_digit(data.last() % 16)]
    }
}

proof fn lemma_hex_lower_len(data: Seq<u8>)
    ensures
        hex_lower(data).len() == 2 * data.len(),
    decreases data.len(),
{
    if data.len() > 0 {
        lemma_hex_lower_len(data.drop_last());
    }
}

/// `hex::encode`: the crate documents that it encodes the bytes as a string
/// of lowercase hexadecimal digits, two per byte, high half first.
/// Claimed: the result is `hex_lower(data)`.
#[verifier::external_body]
fn hex_encode(data: &[u8]) -> (res: String)
    ensures
        res@ == hex_lower(data@),
{
    hex::encode(data)
}

/// `std::path::Path::join`, read back as text: as `PathBuf::push`
/// documents it, an absolute `name` replaces `dir`, and otherwise a
/// separator is added if needed before `name`. Claimed: the result is
/// `path_join(dir, name)`, the Unix form of that rule (the separator `/`,
/// an absolute path one that starts with it), which is the platform this
/// library is built for; on Windows the claim would not hold.
#[verifier::external_body]
pub(crate) fn join_path(dir: &str, name: &str) -> (res: String)
    ensures
        res@ == path_join(dir@, name@),
{
    std::path::Path::new(dir).join(name).to_string_lossy().into_owned()
}

// ---------------------------------------------------------------------------
// Order of tags
// ---------------------------------------------------------------------------

/// Lexicographic order of byte sequences, a proper prefix first.
pub open spec fn bytes_le(a: Seq<u8>, b: Seq<u8>) -> bool
    decreases a.len(),
{
    if a.len() == 0 {
        true
    } else if b.len() == 0 {
        false
    } else if a[0] != b[0] {
        a[0] < b[0]
    } else {
        bytes_le(a.drop_first(), b.drop_first())
    }
}

/// The order of strings: that of their UTF-8 bytes.
pub open spec fn text_le(a: Seq<char>, b: Seq<char>) -> bool {
    bytes_le(encode_utf8(a), encode_utf8(b))
}

proof fn lemma_bytes_le_total(a: Seq<u8>, b: Seq<u8>)
    ensures
        bytes_le(a, b) || bytes_le(b, a),
        bytes_le(a, b) && bytes_le(b, a) ==> a == b,
    decreases a.len(),
{
    if a.len() > 0 && b.len() > 0 && a[0] == b[0] {
        lemma_bytes_le_total(a.drop_first(), b.drop_first());
        if bytes_le(a, b) && bytes_le(b, a) {
            assert(a =~= seq![a[0]] + a.drop_first());
            assert(b =~= seq![b[0]] + b.drop_first());
        }
    }
}

proof fn lemma_bytes_le_trans(a: Seq<u8>, b: Seq<u8>, c: Seq<u8>)
    requires
        bytes_le(a, b),
        bytes_le(b, c),
    ensures
        bytes_le(a, c),
    decreases a.len(),
{
    if a.len() > 0 && b.len() > 0 && c.len() > 0 && a[0] == b[0] && b[0] == c[0] {
        lemma_bytes_le_trans(a.drop_first(), b.drop_first(), c.drop_first());
    }
}

/// The order of strings is a total order.
pub proof fn lemma_text_le_total_ordering()
    ensures
        total_ordering(text_order()),
{
    broadcast use encode_utf8_decode_utf8;
    let leq = text_order();
    assert forall|a: Seq<char>| #[trigger] leq(a, a) by {
        lemma_bytes_le_total(encode_utf8(a), encode_utf8(a));
    }
    assert forall|a: Seq<char>, b: Seq<char>| #[trigger] leq(a, b) && #[trigger] leq(b, a) implies a == b by {
        lemma_bytes_le_total(encode_utf8(a), encode_utf8(b));
        assert(decode_utf8(encode_utf8(a)) == a);
        assert(decode_utf8(encode_utf8(b)) == b);
    }
    assert forall|a: Seq<char>, b: Seq<char>, c: Seq<char>| #[trigger] leq(a, b) && #[trigger] leq(b, c) implies leq(a, c) by {
        lemma_bytes_le_trans(encode_utf8(a), encode_utf8(b), encode_utf8(c));
    }
    assert forall|a: Seq<char>, b: Seq<char>| #[trigger] leq(a, b) || leq(b, a) by {
        lemma_bytes_le_total(encode_utf8(a), encode_utf8(b));
    }
}

/// Whether `a` comes no later than `b` in the order of tags.
fn tag_le(a: &ArtifactTag, b: &ArtifactTag) -> (res: bool)
    ensures
        res == text_le(a.0@, b.0@),
{
    let x = a.0.as_str().as_bytes();
    let y = b.0.as_str().as_bytes();
    let mut i: usize = 0;
    while i < x.len() && i < y.len() && x[i] == y[i]
        invariant
            i <= x@.len(),
            i <= y@.len(),
            bytes_le(x@, y@) == bytes_le(x@.skip(i as int), y@.skip(i as int)),
        decreases x@.len() - i,
    {
        assert(x@.skip(i as int).drop_first() =~= x@.skip(i + 1));
        assert(y@.skip(i as int).drop_first() =~= y@.skip(i + 1));
        i = i + 1;
    }
    assert(x@.skip(0) =~= x@);
    if i == x.len() {
        true
    } else if i == y.len() {
        false
    } else {
        x[i] < y[i]
    }
}

// ---------------------------------------------------------------------------
// Rules
// ---------------------------------------------------------------------------

/// The characters of each tag of a sequence.
pub open spec fn tag_texts(s: Seq<ArtifactTag>) -> Seq<Seq<char>> {
    s.map_values(|t: ArtifactTag| t.0@)
}

/// The order of tags as a relation.
pub open spec fn text_order() -> spec_fn(Seq<char>, Seq<char>) -> bool {
    |a: Seq<char>, b: Seq<char>| text_le(a, b)
}

/// The tags in their canonical order.
pub open spec fn sorted_texts(s: Seq<Seq<char>>) -> Seq<Seq<char>> {
    s.sort_by(text_order())
}

/// The UTF-8 bytes of the tags, one after another.
pub open spec fn plain_bytes(tags: Seq<Seq<char>>) -> Seq<u8>
    decreases tags.len(),
{
    if tags.len() == 0 {
        Seq::empty()
    } else {
        plain_bytes(tags.drop_last()) + encode_utf8(tags.last())
    }
}

/// A byte string prefixed by its length: the decimal digits of the length,
/// a colon, then the bytes.
pub open spec fn field(b: Seq<u8>) -> Seq<u8> {
    encode_utf8(decimal(b.len())) + seq![58u8] + b
}

/// The UTF-8 bytes of the tags, each as a field, one after another.
pub open spec fn tags_bytes(tags: Seq<Seq<char>>) -> Seq<u8>
    decreases tags.len(),
{
    if tags.len() == 0 {
        Seq::empty()
    } else {
        tags_bytes(tags.drop_last()) + field(encode_utf8(tags.last()))
    }
}

/// A list of tags: the decimal digits of their number, a colon, then the
/// tags as fields.
pub open spec fn list_bytes(tags: Seq<Seq<char>>) -> Seq<u8> {
    encode_utf8(decimal(tags.len())) + seq![58u8] + tags_bytes(tags)
}

/// The checksum that names a rule: the hexadecimal MD5 digest of its input
/// tags, then its output tags, then its procedure's name, one after another.
pub open spec fn rule_digest(proc: Seq<char>, ins: Seq<Seq<char>>, outs: Seq<Seq<char>>) -> Seq<char> {
    hex_lower(md5_digest(plain_bytes(ins) + plain_bytes(outs) + encode_utf8(proc)))
}

/// The checksum that names a rule whose `rule_digest` is already the name of
/// a rule with other data: the hexadecimal MD5 digest of the list of its
/// input tags, then the list of its output tags, then its procedure's name,
/// where counts and lengths keep apart data that the bare concatenation
/// runs together.
pub open spec fn framed_digest(proc: Seq<char>, ins: Seq<Seq<char>>, outs: Seq<Seq<char>>) -> Seq<char> {
    hex_lower(md5_digest(list_bytes(ins) + list_bytes(outs) + encode_utf8(proc)))
}

/// The checksum of the contents of a rule's inputs.
pub open spec fn sources_digest(contents: Seq<Seq<u8>>) -> Seq<char> {
    hex_lower(md5_digest(contents.fold_left(Seq::<u8>::empty(), |acc: Seq<u8>, c: Seq<u8>| acc + c)))
}

/// The source checksum of no contents is the hexadecimal MD5 digest of
/// nothing.
pub proof fn lemma_sources_digest_empty()
    ensures
        sources_digest(Seq::empty()) == hex_lower(md5_digest(Seq::empty())),
{
}

/// The source checksum of one content is the hexadecimal MD5 digest of that
/// content.
pub proof fn lemma_sources_digest_single(x: Seq<u8>)
    ensures
        sources_digest(seq![x]) == hex_lower(md5_digest(x)),
{
    let f = |acc: Seq<u8>, c: Seq<u8>| acc + c;
    let s = seq![x];
    assert(s.drop_last() =~= Seq::<Seq<u8>>::empty());
    assert(s.fold_left(Seq::<u8>::empty(), f) == f(s.drop_last().fold_left(Seq::<u8>::empty(), f), s.last()));
    assert(Seq::<u8>::empty() + x =~= x);
}

/// Every content counts, in order, and only the bytes one after another
/// matter: two contents in a row give the checksum of their concatenation,
/// whatever contents come before them.
pub proof fn lemma_sources_digest_merge(c: Seq<Seq<u8>>, x: Seq<u8>, y: Seq<u8>)
    ensures
        sources_digest(c.push(x).push(y)) == sources_digest(c.push(x + y)),
{
    let f = |acc: Seq<u8>, c: Seq<u8>| acc + c;
    let e = Seq::<u8>::empty();
    let a = c.push(x).push(y);
    let b = c.push(x + y);
    assert(a.drop_last() =~= c.push(x));
    assert(c.push(x).drop_last() =~= c);
    assert(b.drop_last() =~= c);
    assert(a.fold_left(e, f) == f(c.push(x).fold_left(e, f), y));
    assert(c.push(x).fold_left(e, f) == f(c.fold_left(e, f), x));
    assert(b.fold_left(e, f) == f(c.fold_left(e, f), x + y));
    assert((c.fold_left(e, f) + x) + y =~= c.fold_left(e, f) + (x + y));
}

/// The checksum of a rule depends on the tags it lists, not on the order in
/// which they were given.
pub proof fn lemma_digest_ignores_order(
    proc: Seq<char>,
    ins1: Seq<Seq<char>>,
    ins2: Seq<Seq<char>>,
    outs1: Seq<Seq<char>>,
    outs2: Seq<Seq<char>>,
)
    requires
        ins1.to_multiset() == ins2.to_multiset(),
        outs1.to_multiset() == outs2.to_multiset(),
    ensures
        rule_digest(proc, sorted_texts(ins1), sorted_texts(outs1)) == rule_digest(proc, sorted_texts(ins2), sorted_texts(outs2)),
        framed_digest(proc, sorted_texts(ins1), sorted_texts(outs1)) == framed_digest(proc, sorted_texts(ins2), sorted_texts(outs2)),
{
    lemma_text_le_total_ordering();
    ins1.lemma_sort_by_ensures(text_order());
    ins2.lemma_sort_by_ensures(text_order());
    outs1.lemma_sort_by_ensures(text_order());
    outs2.lemma_sort_by_ensures(text_order());
    vstd::seq_lib::lemma_sorted_unique(sorted_texts(ins1), sorted_texts(ins2), text_order());
    vstd::seq_lib::lemma_sorted_unique(sorted_texts(outs1), sorted_texts(outs2), text_order());
}

#[derive(Debug)]
pub enum RuleError {
    Procedure(ProcedureError),
    SourceReadFailed(String, String),
}

impl RuleError {
    /// The message that describes the error.
    pub open spec fn message(&self) -> Seq<char> {
        match self {
            RuleError::Procedure(e) => e.message(),
            RuleError::SourceReadFailed(tag, msg) => "could not open artifact ("@ + tag@ + ") for reading: "@ + msg@,
        }
    }

    /// The message that describes the error.
    pub fn to_string(&self) -> (res: String)
        ensures
            res@ == self.message(),
    {
        match self {
            RuleError::Procedure(e) => e.to_string(),
            RuleError::SourceReadFailed(tag, msg) => {
                let s = joined(owned("could not open artifact ("), tag.as_str());
                let s = joined(s, ") for reading: ");
                joined(s, msg.as_str())
            }
        }
    }
}

/// What a graph holds of one rule: its checksum, its procedure's name and
/// its input and output tags in canonical order.
pub struct RuleView {
    pub id: Seq<char>,
    pub proc: Seq<char>,
    pub ins: Seq<Seq<char>>,
    pub outs: Seq<Seq<char>>,
}

/// A step of the build: a procedure that makes the output artifacts from the
/// input artifacts. Its tags are kept in canonical order.
pub struct Rule {
    pub(crate) proc_id: ProcedureId,
    pub(crate) input_tags: Vec<ArtifactTag>,
    pub(crate) output_tags: Vec<ArtifactTag>,
    pub(crate) checksum: String,
}

impl Rule {
    /// The input tags, as text.
    pub open(crate) spec fn ins(&self) -> Seq<Seq<char>> {
        tag_texts(self.input_tags@)
    }

    /// The output tags, as text.
    pub open(crate) spec fn outs(&self) -> Seq<Seq<char>> {
        tag_texts(self.output_tags@)
    }

    /// The name of the rule's procedure.
    pub open(crate) spec fn proc(&self) -> Seq<char> {
        self.proc_id.0@
    }

    /// The checksum that the rule holds (empty until it is first computed).
    pub open(crate) spec fn id(&self) -> Seq<char> {
        self.checksum@
    }

    /// The rule as a graph holds it.
    pub open(crate) spec fn view(&self) -> RuleView {
        RuleView { id: self.id(), proc: self.proc(), ins: self.ins(), outs: self.outs() }
    }

    /// The checksum that the rule's procedure and tags give.
    pub open spec fn digest(&self) -> Seq<char> {
        rule_digest(self.proc(), self.ins(), self.outs())
    }

    /// The checksum that the rule's procedure and tags give in the framed
    /// form.
    pub open spec fn framed(&self) -> Seq<char> {
        framed_digest(self.proc(), self.ins(), self.outs())
    }

    pub fn input_tags(&self) -> (res: &[ArtifactTag])
        ensures
            tag_texts(res@) == self.ins(),
    {
        self.input_tags.as_slice()
    }

    pub fn output_tags(&self) -> (res: &[ArtifactTag])
        ensures
            tag_texts(res@) == self.outs(),
    {
        self.output_tags.as_slice()
    }

    /// The rule's checksum, as the graph named it.
    pub fn checksum_text(&self) -> (res: &str)
        ensures
            res@ == self.id(),
    {
        self.checksum.as_str()
    }

    /// A rule of the procedure `proc_id` over the given tags, each list put in
    /// canonical order. Its checksum is not computed yet.
    pub(crate) fn new(proc_id: ProcedureId, input_tags: Vec<ArtifactTag>, output_tags: Vec<ArtifactTag>) -> (res: Rule)
        ensures
            res.proc_id == proc_id,
            res.ins() == sorted_texts(tag_texts(input_tags@)),
            res.outs() == sorted_texts(tag_texts(output_tags@)),
            res.id().len() == 0,
    {
        let input_tags = sort_tags(input_tags);
        let output_tags = sort_tags(output_tags);
        Rule { proc_id, input_tags, output_tags, checksum: String::new() }
    }

    /// The rule's checksum, computed on first use and kept.
    pub(crate) fn checksum(&mut self) -> (res: String)
        ensures
            final(self).proc_id == old(self).proc_id,
            final(self).input_tags == old(self).input_tags,
            final(self).output_tags == old(self).output_tags,
            old(self).id().len() > 0 ==> res@ == old(self).id(),
            old(self).id().len() == 0 ==> res@ == old(self).digest(),
            final(self).id() == res@,
            old(self).id().len() == 0 ==> res@.len() == 32,
    {
        if !self.checksum.as_str().is_empty() {
            return self.checksum.clone();
        }
        let mut data: Vec<u8> = Vec::new();
        append_plain(&mut data, &self.input_tags);
        append_plain(&mut data, &self.output_tags);
        append_bytes(&mut data, self.proc_id.0.as_str().as_bytes());
        let digest = md5(data.as_slice());
        let sum = hex_encode(digest.as_slice());
        proof { lemma_hex_lower_len(digest@); }
        self.checksum = sum.clone();
        sum
    }

    /// Names the rule by its checksum in the framed form, in place of any
    /// checksum it had.
    pub(crate) fn reframe(&mut self) -> (res: String)
        ensures
            final(self).proc_id == old(self).proc_id,
            final(self).input_tags == old(self).input_tags,
            final(self).output_tags == old(self).output_tags,
            res@ == old(self).framed(),
            final(self).id() == res@,
            res@.len() == 32,
    {
        let mut data: Vec<u8> = Vec::new();
        append_tags(&mut data, &self.input_tags);
        append_tags(&mut data, &self.output_tags);
        append_bytes(&mut data, self.proc_id.0.as_str().as_bytes());
        let digest = md5(data.as_slice());
        let sum = hex_encode(digest.as_slice());
        proof { lemma_hex_lower_len(digest@); }
        self.checksum = sum.clone();
        sum
    }

    /// A rule with the same procedure, tags and checksum.
    pub(crate) fn copy(&self) -> (res: Rule)
        ensures
            res.proc() == self.proc(),
            res.ins() == self.ins(),
            res.outs() == self.outs(),
            res.id() == self.id(),
    {
        Rule {
            proc_id: ProcedureId(self.proc_id.0.clone()),
            input_tags: copy_tags(&self.input_tags),
            output_tags: copy_tags(&self.output_tags),
            checksum: self.checksum.clone(),
        }
    }

    /// Runs the rule: a new procedure from the factory that the registry
    /// holds under the rule's procedure name works on a copy of the rule,
    /// with the same procedure name, tags in the same order, and checksum.
    /// Fails when no procedure has that name, and otherwise with what the
    /// procedure reports, if it fails.
    pub fn execute<P: Procedure, F: Fn() -> P>(&self, registry: &Registry<F>) -> (res: Result<(), RuleError>)
        requires
            registry.wf(),
            registry.callable(),
        ensures
            !registry.view().dom().contains(self.proc()) ==>
                (res matches Err(RuleError::Procedure(ProcedureError::NotFound(s))) && s@ == self.proc()),
            res is Err ==> res matches Err(RuleError::Procedure(_)),
            registry.view().dom().contains(self.proc()) ==> exists|p: P, w: Rule, r: Result<(), ProcedureError>| {
                &&& made_by(registry.view()[self.proc()], p)
                &&& #[trigger] p.outcome(w, r)
                &&& w.proc() == self.proc()
                &&& w.ins() == self.ins()
                &&& w.outs() == self.outs()
                &&& w.id() == self.id()
                &&& res == match r {
                    Ok(()) => Ok::<(), RuleError>(()),
                    Err(e) => Err(RuleError::Procedure(e)),
                }
            },
    {
        let mut proc = match registry.create(self.proc_id.0.as_str()) {
            Ok(p) => p,
            Err(e) => return Err(RuleError::Procedure(e)),
        };
        let ghost p0 = proc;
        let mut work = self.copy();
        let ghost w0 = work;
        let r = proc.exec(&mut work);
        proof {
            assert(p0.outcome(w0, r));
        }
        match r {
            Ok(()) => Ok(()),
            Err(e) => Err(RuleError::Procedure(e)),
        }
    }
}

/// The checksum of the contents of a rule's inputs, read in the order of its
/// input tags: the hexadecimal MD5 digest of the contents one after another.
pub fn source_checksum(contents: &Vec<Vec<u8>>) -> (res: String)
    ensures
        res@ == sources_digest(contents@.map_values(|c: Vec<u8>| c@)),
{
    let ghost cs = contents@.map_values(|c: Vec<u8>| c@);
    let mut data: Vec<u8> = Vec::new();
    let mut i: usize = 0;
    while i < contents.len()
        invariant
            i <= contents@.len(),
            cs == contents@.map_values(|c: Vec<u8>| c@),
            data@ == cs.subrange(0, i as int).fold_left(Seq::<u8>::empty(), |acc: Seq<u8>, c: Seq<u8>| acc + c),
        decreases contents@.len() - i,
    {
        append_bytes(&mut data, contents[i].as_slice());
        proof {
            let f = |acc: Seq<u8>, c: Seq<u8>| acc + c;
            assert(cs.subrange(0, i + 1).drop_last() =~= cs.subrange(0, i as int));
        }
        i = i + 1;
    }
    assert(cs.subrange(0, i as int) =~= cs);
    let digest = md5(data.as_slice());
    hex_encode(digest.as_slice())
}

fn append_bytes(data: &mut Vec<u8>, bytes: &[u8])
    ensures
        final(data)@ == old(data)@ + bytes@,
{
    let ghost start = data@;
    let mut i: usize = 0;
    while i < bytes.len()
        invariant
            i <= bytes@.len(),
            data@ == start + bytes@.subrange(0, i as int),
        decreases bytes@.len() - i,
    {
        data.push(bytes[i]);
        assert(bytes@.subrange(0, i + 1) =~= bytes@.subrange(0, i as int).push(bytes@[i as int]));
        i = i + 1;
    }
    assert(bytes@.subrange(0, i as int) =~= bytes@);
}

/// Appends the decimal digits of `n` and a colon.
fn append_count(data: &mut Vec<u8>, n: usize)
    ensures
        final(data)@ == old(data)@ + encode_utf8(decimal(n as nat)) + seq![58u8],
{
    let digits = decimal_text(n);
    append_bytes(data, digits.as_str().as_bytes());
    let ghost mid = data@;
    data.push(58u8);
    assert(data@ =~= mid + seq![58u8]);
}

fn append_plain(data: &mut Vec<u8>, tags: &Vec<ArtifactTag>)
    ensures
        final(data)@ == old(data)@ + plain_bytes(tag_texts(tags@)),
{
    let ghost start = data@;
    let ghost tt = tag_texts(tags@);
    let mut i: usize = 0;
    while i < tags.len()
        invariant
            i <= tags@.len(),
            tt == tag_texts(tags@),
            data@ == start + plain_bytes(tt.subrange(0, i as int)),
        decreases tags@.len() - i,
    {
        append_bytes(data, tags[i].0.as_str().as_bytes());
        assert(tt.subrange(0, i + 1).drop_last() =~= tt.subrange(0, i as int));
        i = i + 1;
    }
    assert(tt.subrange(0, i as int) =~= tt);
}

fn append_tags(data: &mut Vec<u8>, tags: &Vec<ArtifactTag>)
    ensures
        final(data)@ == old(data)@ + list_bytes(tag_texts(tags@)),
{
    let ghost start = data@;
    let ghost tt = tag_texts(tags@);
    append_count(data, tags.len());
    let ghost head = data@;
    assert(tags_bytes(tt.subrange(0, 0)) =~= Seq::<u8>::empty());
    let mut i: usize = 0;
    while i < tags.len()
        invariant
            i <= tags@.len(),
            tt == tag_texts(tags@),
            head == start + encode_utf8(decimal(tt.len())) + seq![58u8],
            data@ == head + tags_bytes(tt.subrange(0, i as int)),
        decreases tags@.len() - i,
    {
        let ghost before = data@;
        let bytes = tags[i].0.as_str().as_bytes();
        append_count(data, bytes.len());
        append_bytes(data, bytes);
        assert(tt.subrange(0, i + 1).drop_last() =~= tt.subrange(0, i as int));
        assert(tt.subrange(0, i + 1).last() == tags@[i as int].0@);
        assert(data@ =~= head + tags_bytes(tt.subrange(0, i + 1)));
        i = i + 1;
    }
    assert(tt.subrange(0, i as int) =~= tt);
    assert(data@ =~= start + list_bytes(tt));
}

fn copy_tags(tags: &Vec<ArtifactTag>) -> (res: Vec<ArtifactTag>)
    ensures
        tag_texts(res@) == tag_texts(tags@),
{
    let mut res: Vec<ArtifactTag> = Vec::new();
    let mut i: usize = 0;
    while i < tags.len()
        invariant
            i <= tags@.len(),
            res@.len() == i,
            forall|j: int| 0 <= j < i ==> res@[j].0@ == tags@[j].0@,
        decreases tags@.len() - i,
    {
        res.push(tags[i].duplicate());
        i = i + 1;
    }
    assert(tag_texts(res@) =~= tag_texts(tags@));
    res
}

proof fn lemma_insert_multiset<A>(s: Seq<A>, i: int, x: A)
    requires
        0 <= i <= s.len(),
    ensures
        s.insert(i, x).to_multiset() =~= s.to_multiset().insert(x),
{
    broadcast use vstd::seq_lib::group_to_multiset_ensures;
    let l = s.subrange(0, i);
    let r = s.subrange(i, s.len() as int);
    assert(s =~= l + r);
    assert(s.insert(i, x) =~= l.push(x) + r);
    vstd::seq_lib::lemma_multiset_commutative(l, r);
    vstd::seq_lib::lemma_multiset_commutative(l.push(x), r);
}

/// The tags in canonical order.
fn sort_tags(tags: Vec<ArtifactTag>) -> (res: Vec<ArtifactTag>)
    ensures
        tag_texts(res@) == sorted_texts(tag_texts(tags@)),
{
    broadcast use vstd::seq_lib::group_to_multiset_ensures;
    let ghost leq = text_order();
    proof { lemma_text_le_total_ordering(); }
    let ghost input = tag_texts(tags@);
    let mut res: Vec<ArtifactTag> = Vec::new();
    let mut k: usize = 0;
    while k < tags.len()
        invariant
            k <= tags@.len(),
            input == tag_texts(tags@),
            leq == text_order(),
            total_ordering(leq),
            sorted_by(tag_texts(res@), leq),
            tag_texts(res@).to_multiset() == input.subrange(0, k as int).to_multiset(),
        decreases tags@.len() - k,
    {
        let x = &tags[k];
        let mut j: usize = 0;
        while j < res.len() && tag_le(&res[j], x)
            invariant
                j <= res@.len(),
                leq == text_order(),
                forall|m: int| 0 <= m < j ==> text_le(#[trigger] res@[m].0@, x.0@),
            decreases res@.len() - j,
        {
            j = j + 1;
        }
        let ghost before = tag_texts(res@);
        proof {
            if j < res@.len() {
                assert(before[j as int] == res@[j as int].0@);
                assert(!text_le(before[j as int], x.0@));
                assert(leq(before[j as int], x.0@) || leq(x.0@, before[j as int]));
                assert(leq(x.0@, before[j as int]));
            }
            assert forall|m: int| 0 <= m < j implies leq(#[trigger] before[m], x.0@) by {
                assert(before[m] == res@[m].0@);
            }
        }
        res.insert(j, x.duplicate());
        proof {
            let after = tag_texts(res@);
            assert(after =~= before.insert(j as int, x.0@));
            lemma_insert_multiset(before, j as int, x.0@);
            assert(input.subrange(0, k + 1) =~= input.subrange(0, k as int).push(input[k as int]));
            assert forall|a: int, b: int| 0 <= a < b < after.len() implies leq(after[a], after[b]) by {
                if a < j && b == j {
                } else if a == j && b > j {
                    if b - 1 > j {
                        assert(leq(before[j as int], before[b - 1]));
                    }
                } else if a < j && b > j {
                    assert(leq(before[a], before[b - 1]));
                } else if b < j {
                    assert(leq(before[a], before[b]));
                } else {
                    assert(leq(before[a - 1], before[b - 1]));
                }
            }
        }
        k = k + 1;
    }
    proof {
        assert(input.subrange(0, k as int) =~= input);
        input.lemma_sort_by_ensures(leq);
        vstd::seq_lib::lemma_sorted_unique(tag_texts(res@), input.sort_by(leq), leq);
    }
    res
}

} // verus!
