use vstd::prelude::*;

use crate::procedure::ProcedureError;
use crate::rule::{tag_texts, Rule};
use crate::text::{decimal, decimal_text, joined, owned};

verus! {

/// The message of a copy whose input and output counts differ.
pub open spec fn unequal_message(ins: nat, outs: nat) -> Seq<char> {
    "received unequal amount of input and output artifacts: "@ + decimal(ins) + " and "@ + decimal(outs)
}

/// The procedure that copies each input of a rule to the output at the same
/// position. This part decides what to copy; the copying is done around it.
pub struct Copy;

impl Copy {
    /// The pairs of paths to copy, input first, in order; refused when the
    /// rule has not as many inputs as outputs.
    pub fn copies(rule: &Rule) -> (res: Result<Vec<(String, String)>, ProcedureError>)
        ensures
            match res {
                Ok(v) => rule.ins().len() == rule.outs().len() && v@.len() == rule.ins().len()
                    && forall|i: int| 0 <= i < v@.len() ==> #[trigger] v@[i].0@ == rule.ins()[i] && v@[i].1@ == rule.outs()[i],
                Err(e) => rule.ins().len() != rule.outs().len()
                    && (e matches ProcedureError::ExecFailed(m) && m@ == unequal_message(rule.ins().len(), rule.outs().len())),
            },
    {
        let ins = rule.input_tags();
        let outs = rule.output_tags();
        if ins.len() != outs.len() {
            let m = joined(owned("received unequal amount of input and output artifacts: "), decimal_text(ins.len()).as_str());
            let m = joined(m, " and ");
            let m = joined(m, decimal_text(outs.len()).as_str());
            return Err(ProcedureError::ExecFailed(m));
        }
        let mut v: Vec<(String, String)> = Vec::new();
        let mut i: usize = 0;
        while i < ins.len()
            invariant
                ins@.len() == outs@.len(),
                tag_texts(ins@) == rule.ins(),
                tag_texts(outs@) == rule.outs(),
                i <= ins@.len(),
                v@.len() == i,
                forall|j: int| 0 <= j < i ==> #[trigger] v@[j].0@ == rule.ins()[j] && v@[j].1@ == rule.outs()[j],
            decreases ins@.len() - i,
        {
            let pair = (ins[i].0.clone(), outs[i].0.clone());
            proof {
                assert(tag_texts(ins@)[i as int] == ins@[i as int].0@);
                assert(tag_texts(outs@)[i as int] == outs@[i as int].0@);
            }
            v.push(pair);
            i = i + 1;
        }
        Ok(v)
    }
}

} // verus!
