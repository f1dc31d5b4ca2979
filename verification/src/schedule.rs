use vstd::prelude::*;

use crate::graph::{consumers_of, creator_of, lemma_creator_is_writer, repeat, rule_ids, well_formed_rules};
use crate::artifact::texts;
use crate::resolver::{
    enqueue, enqueue_by, is_primordial, kahn, kahn_plan, kept, lemma_named, primordial_ids, primordial_upto, ready,
    keep_for, resolved, rule_named, Plan, PlanningError,
};
use crate::rule::RuleView;

verus! {

broadcast use {
    vstd::seq_lib::group_seq_properties,
    vstd::seq_lib::group_to_multiset_ensures,
    vstd::multiset::group_multiset_axioms,
};

// ---------------------------------------------------------------------------
// What a schedule is
// ---------------------------------------------------------------------------

/// The writers of the inputs of the rule `r` are all among `p`.
pub open spec fn inputs_ready(g: Seq<RuleView>, r: RuleView, p: Seq<Seq<char>>) -> bool {
    forall|t: Seq<char>| #[trigger] r.ins.contains(t) ==> match creator_of(g, t) {
        None => true,
        Some(w) => p.contains(w),
    }
}

/// Each entry of `p` is the checksum of a rule of `g` that comes after the
/// writers of its inputs.
pub open spec fn respects_deps(g: Seq<RuleView>, p: Seq<Seq<char>>) -> bool {
    forall|i: int| 0 <= i < p.len() ==> rule_ids(g).contains(#[trigger] p[i])
        && inputs_ready(g, rule_named(g, p[i]), p.subrange(0, i))
}

/// `p` runs every rule of `g` exactly once, each after the writers of its inputs.
pub open spec fn is_schedule(g: Seq<RuleView>, p: Seq<Seq<char>>) -> bool {
    &&& p.to_multiset() == rule_ids(g).to_multiset()
    &&& respects_deps(g, p)
}

/// The rules of `g` can be run in some order, each after the writers of its
/// inputs: no rule depends on itself through the tags.
pub open spec fn has_schedule(g: Seq<RuleView>) -> bool {
    exists|p: Seq<Seq<char>>| is_schedule(g, p)
}


// ---------------------------------------------------------------------------
// What a step of Kahn's algorithm adds to the queue
// ---------------------------------------------------------------------------

/// The queue grows at its end by readers of `o` that are ready, not planned
/// and not queued before, each once; every ready reader ends up planned or
/// queued.
proof fn lemma_enqueue_by(g: Seq<RuleView>, o: Seq<char>, cons: Seq<Seq<char>>, p: Seq<Seq<char>>, q: Seq<Seq<char>>)
    ensures
        q.len() <= enqueue_by(g, o, cons, p, q).len(),
        enqueue_by(g, o, cons, p, q).subrange(0, q.len() as int) == q,
        forall|i: int| q.len() <= i < enqueue_by(g, o, cons, p, q).len() ==> {
            let x = #[trigger] enqueue_by(g, o, cons, p, q)[i];
            cons.contains(x) && ready(g, rule_named(g, x), o, p) && !p.contains(x)
        },
        (p + q).no_duplicates() ==> (p + enqueue_by(g, o, cons, p, q)).no_duplicates(),
        forall|x: Seq<char>| #[trigger] cons.contains(x) && ready(g, rule_named(g, x), o, p)
            ==> p.contains(x) || enqueue_by(g, o, cons, p, q).contains(x),
    decreases cons.len(),
{
    if cons.len() == 0 {
        assert(q.subrange(0, q.len() as int) =~= q);
    } else {
        let init = cons.drop_last();
        lemma_enqueue_by(g, o, init, p, q);
        let q1 = enqueue_by(g, o, init, p, q);
        let x = cons.last();
        let res = enqueue_by(g, o, cons, p, q);
        let pushed = ready(g, rule_named(g, x), o, p) && !p.contains(x) && !q1.contains(x);
        assert(res == if pushed { q1.push(x) } else { q1 });
        assert forall|i: int| 0 <= i < q1.len() implies res[i] == q1[i] by {}
        assert(res.subrange(0, q.len() as int) =~= q) by {
            assert forall|i: int| 0 <= i < q.len() implies res[i] == q[i] by {
                assert(q1.subrange(0, q.len() as int)[i] == q[i]);
            }
        }
        assert forall|i: int| q.len() <= i < res.len() implies {
            let y = #[trigger] res[i];
            cons.contains(y) && ready(g, rule_named(g, y), o, p) && !p.contains(y)
        } by {
            if i < q1.len() {
                let y = q1[i];
                assert(init.contains(y));
                let j = init.index_of(y);
                assert(cons[j] == y);
            } else {
                assert(cons[cons.len() - 1] == x);
            }
        }
        if (p + q).no_duplicates() && pushed {
            assert(p + res =~= (p + q1).push(x));
            assert forall|a: int, b: int| 0 <= a < (p + res).len() && 0 <= b < (p + res).len() && a != b
                implies (p + res)[a] != (p + res)[b] by {
                if a == (p + q1).len() || b == (p + q1).len() {
                    let c = if a == (p + q1).len() { b } else { a };
                    if c < p.len() {
                        assert((p + res)[c] == p[c]);
                    } else {
                        assert((p + res)[c] == q1[c - p.len()]);
                    }
                } else {
                    assert((p + res)[a] == (p + q1)[a]);
                    assert((p + res)[b] == (p + q1)[b]);
                }
            }
        }
        assert forall|y: Seq<char>| #[trigger] cons.contains(y) && ready(g, rule_named(g, y), o, p)
            implies p.contains(y) || res.contains(y) by {
            if y == x {
                if q1.contains(y) {
                    let j = q1.index_of(y);
                    assert(res[j] == y);
                } else if pushed {
                    assert(res[q1.len() as int] == y);
                }
            } else {
                let j = cons.index_of(y);
                assert(init[j] == y);
                assert(init.contains(y));
                if q1.contains(y) {
                    let m = q1.index_of(y);
                    assert(res[m] == y);
                }
            }
        }
    }
}

/// What `lemma_enqueue_by` says, over all the outputs of a planned rule.
pub(crate) proof fn lemma_enqueue(g: Seq<RuleView>, outs: Seq<Seq<char>>, p: Seq<Seq<char>>, q: Seq<Seq<char>>)
    ensures
        q.len() <= enqueue(g, outs, p, q).len(),
        enqueue(g, outs, p, q).subrange(0, q.len() as int) == q,
        forall|i: int| q.len() <= i < enqueue(g, outs, p, q).len() ==> {
            let x = #[trigger] enqueue(g, outs, p, q)[i];
            !p.contains(x) && exists|k: int| 0 <= k < outs.len() && consumers_of(g, #[trigger] outs[k]).contains(x)
                && ready(g, rule_named(g, x), outs[k], p)
        },
        (p + q).no_duplicates() ==> (p + enqueue(g, outs, p, q)).no_duplicates(),
        forall|k: int, x: Seq<char>| 0 <= k < outs.len() && #[trigger] consumers_of(g, outs[k]).contains(x)
            && ready(g, rule_named(g, x), outs[k], p) ==> p.contains(x) || enqueue(g, outs, p, q).contains(x),
    decreases outs.len(),
{
    if outs.len() == 0 {
        assert(q.subrange(0, q.len() as int) =~= q);
    } else {
        let init = outs.drop_last();
        let last = outs.last();
        lemma_enqueue(g, init, p, q);
        let qm = enqueue(g, init, p, q);
        lemma_enqueue_by(g, last, consumers_of(g, last), p, qm);
        let res = enqueue(g, outs, p, q);
        assert(res == enqueue_by(g, last, consumers_of(g, last), p, qm));
        assert forall|i: int| 0 <= i < qm.len() implies res[i] == qm[i] by {
            assert(res.subrange(0, qm.len() as int)[i] == qm[i]);
        }
        assert(res.subrange(0, q.len() as int) =~= q) by {
            assert forall|i: int| 0 <= i < q.len() implies res[i] == q[i] by {
                assert(qm.subrange(0, q.len() as int)[i] == q[i]);
            }
        }
        assert forall|i: int| q.len() <= i < res.len() implies {
            let x = #[trigger] res[i];
            !p.contains(x) && exists|k: int| 0 <= k < outs.len() && consumers_of(g, #[trigger] outs[k]).contains(x)
                && ready(g, rule_named(g, x), outs[k], p)
        } by {
            let x = res[i];
            if i < qm.len() {
                assert(qm[i] == x);
                let k = choose|k: int| 0 <= k < init.len() && consumers_of(g, #[trigger] init[k]).contains(x)
                    && ready(g, rule_named(g, x), init[k], p);
                assert(outs[k] == init[k]);
            } else {
                assert(outs[outs.len() - 1] == last);
            }
        }
        assert forall|k: int, x: Seq<char>| 0 <= k < outs.len() && #[trigger] consumers_of(g, outs[k]).contains(x)
            && ready(g, rule_named(g, x), outs[k], p) implies p.contains(x) || res.contains(x) by {
            if k < outs.len() - 1 {
                assert(init[k] == outs[k]);
                if qm.contains(x) {
                    let m = qm.index_of(x);
                    assert(res[m] == x);
                }
            }
        }
    }
}

proof fn lemma_consumers_complete(g: Seq<RuleView>, t: Seq<char>, i: int)
    requires
        0 <= i < g.len(),
        g[i].ins.contains(t),
    ensures
        consumers_of(g, t).contains(g[i].id),
    decreases g.len(),
{
    let rest = consumers_of(g.drop_last(), t);
    let n = g.last().ins.to_multiset().count(t);
    if i == g.len() - 1 {
        assert(n > 0);
        assert(repeat(g.last().id, n)[0] == g[i].id);
        assert(consumers_of(g, t)[rest.len() as int] == g[i].id);
    } else {
        assert(g.drop_last()[i] == g[i]);
        lemma_consumers_complete(g.drop_last(), t, i);
        let j = rest.index_of(g[i].id);
        assert(consumers_of(g, t)[j] == g[i].id);
    }
}

proof fn lemma_same_rule(g: Seq<RuleView>, i: int, j: int)
    requires
        well_formed_rules(g),
        0 <= i < g.len(),
        0 <= j < g.len(),
        g[i].id == g[j].id,
    ensures
        i == j,
{
    if i < j {
        assert(g[i].id != g[j].id);
    } else if j < i {
        assert(g[j].id != g[i].id);
    }
}

// ---------------------------------------------------------------------------
// Invariants of Kahn's algorithm
// ---------------------------------------------------------------------------

/// Every planned rule comes after the writers of its inputs, and every
/// queued rule has the writers of its inputs planned.
pub open spec fn kahn_inv(g: Seq<RuleView>, p: Seq<Seq<char>>, q: Seq<Seq<char>>) -> bool {
    &&& respects_deps(g, p)
    &&& forall|i: int| 0 <= i < q.len() ==> rule_ids(g).contains(#[trigger] q[i])
        && inputs_ready(g, rule_named(g, q[i]), p)
}

/// Every rule whose input writers are planned is planned or queued.
pub open spec fn kahn_covers(g: Seq<RuleView>, p: Seq<Seq<char>>, q: Seq<Seq<char>>) -> bool {
    forall|i: int| 0 <= i < g.len() && inputs_ready(g, #[trigger] g[i], p) ==> (p + q).contains(g[i].id)
}

proof fn lemma_ready_grows(g: Seq<RuleView>, r: RuleView, p: Seq<Seq<char>>, p2: Seq<Seq<char>>)
    requires
        inputs_ready(g, r, p),
        forall|w: Seq<char>| p.contains(w) ==> p2.contains(w),
    ensures
        inputs_ready(g, r, p2),
{
    assert forall|t: Seq<char>| #[trigger] r.ins.contains(t) implies match creator_of(g, t) {
        None => true,
        Some(w) => p2.contains(w),
    } by {
        if let Some(w) = creator_of(g, t) {
            assert(p.contains(w));
        }
    }
}

proof fn lemma_named_id(g: Seq<RuleView>, id: Seq<char>)
    requires
        well_formed_rules(g),
        rule_ids(g).contains(id),
    ensures
        0 <= rule_ids(g).index_of(id) < g.len(),
        rule_named(g, id).id == id,
        rule_named(g, id) == g[rule_ids(g).index_of(id)],
{
    let k = rule_ids(g).index_of(id);
    assert(rule_ids(g)[k] == id);
}


/// A rule made ready through the output `o` of the rule `q0` that has just
/// been planned is a rule of the graph whose input writers are all planned.
proof fn lemma_released_ready(g: Seq<RuleView>, p: Seq<Seq<char>>, q0: Seq<char>, o: Seq<char>, x: Seq<char>)
    requires
        well_formed_rules(g),
        rule_ids(g).contains(q0),
        rule_named(g, q0).outs.contains(o),
        consumers_of(g, o).contains(x),
        ready(g, rule_named(g, x), o, p.push(q0)),
    ensures
        rule_ids(g).contains(x),
        inputs_ready(g, rule_named(g, x), p.push(q0)),
        rule_named(g, x).ins.contains(o),
{
    let p2 = p.push(q0);
    lemma_named_id(g, q0);
    let ri = rule_ids(g).index_of(q0);
    crate::resolver::lemma_consumers_are_rules(g, o, x);
    let i = choose|i: int| 0 <= i < g.len() && g[i].id == x && #[trigger] g[i].ins.contains(o);
    lemma_named(g, i);
    assert(g[ri].outs.contains(o));
    lemma_creator_is_writer(g, ri, o);
    assert(p2.contains(q0)) by {
        assert(p2[p.len() as int] == q0);
    }
    let rx = rule_named(g, x);
    assert forall|t: Seq<char>| #[trigger] rx.ins.contains(t) implies match creator_of(g, t) {
        None => true,
        Some(w) => p2.contains(w),
    } by {
        if t != o {
            assert(ready(g, rx, o, p2));
        }
    }
}

/// The queue after a step of the algorithm.
spec fn next_queue(g: Seq<RuleView>, p: Seq<Seq<char>>, q: Seq<Seq<char>>) -> Seq<Seq<char>> {
    enqueue(g, rule_named(g, q[0]).outs, p.push(q[0]), q.drop_first())
}

proof fn lemma_step_inv(g: Seq<RuleView>, p: Seq<Seq<char>>, q: Seq<Seq<char>>)
    requires
        well_formed_rules(g),
        kahn_inv(g, p, q),
        q.len() > 0,
    ensures
        kahn_inv(g, p.push(q[0]), next_queue(g, p, q)),
        (p + q).no_duplicates() ==> (p.push(q[0]) + next_queue(g, p, q)).no_duplicates(),
        p.push(q[0]) + q.drop_first() == p + q,
        forall|i: int| 0 <= i < q.len() - 1 ==> #[trigger] next_queue(g, p, q)[i] == q[i + 1],
        q.len() - 1 <= next_queue(g, p, q).len(),
{
    let q0 = q[0];
    let p2 = p.push(q0);
    let q1 = q.drop_first();
    let outs = rule_named(g, q0).outs;
    let q2 = next_queue(g, p, q);
    lemma_enqueue(g, outs, p2, q1);
    assert(p2 + q1 =~= p + q);
    assert forall|i: int| 0 <= i < q1.len() implies q2[i] == q1[i] by {
        assert(q2.subrange(0, q1.len() as int)[i] == q1[i]);
    }
    assert(rule_ids(g).contains(q0));
    assert forall|w: Seq<char>| p.contains(w) implies p2.contains(w) by {
        let k = p.index_of(w);
        assert(p2[k] == w);
    }
    assert forall|i: int| 0 <= i < p2.len() implies rule_ids(g).contains(#[trigger] p2[i])
        && inputs_ready(g, rule_named(g, p2[i]), p2.subrange(0, i)) by {
        if i < p.len() {
            assert(p2.subrange(0, i) =~= p.subrange(0, i));
            assert(p2[i] == p[i]);
        } else {
            assert(p2.subrange(0, i) =~= p);
        }
    }
    assert forall|i: int| 0 <= i < q2.len() implies rule_ids(g).contains(#[trigger] q2[i])
        && inputs_ready(g, rule_named(g, q2[i]), p2) by {
        if i < q1.len() {
            assert(q2[i] == q[i + 1]);
            lemma_ready_grows(g, rule_named(g, q[i + 1]), p, p2);
        } else {
            let x = q2[i];
            let k = choose|k: int| 0 <= k < outs.len() && consumers_of(g, #[trigger] outs[k]).contains(x)
                && ready(g, rule_named(g, x), outs[k], p2);
            lemma_released_ready(g, p, q0, outs[k], x);
        }
    }
}

proof fn lemma_kahn_respects(g: Seq<RuleView>, p: Seq<Seq<char>>, q: Seq<Seq<char>>)
    requires
        well_formed_rules(g),
        kahn_inv(g, p, q),
    ensures
        respects_deps(g, kahn(g, p, q)),
    decreases g.len() + 1 - p.len(),
{
    if q.len() > 0 && p.len() <= g.len() {
        lemma_step_inv(g, p, q);
        lemma_kahn_respects(g, p.push(q[0]), next_queue(g, p, q));
    }
}

proof fn lemma_kahn_nodup(g: Seq<RuleView>, p: Seq<Seq<char>>, q: Seq<Seq<char>>)
    requires
        well_formed_rules(g),
        kahn_inv(g, p, q),
        (p + q).no_duplicates(),
    ensures
        kahn(g, p, q).no_duplicates(),
    decreases g.len() + 1 - p.len(),
{
    if q.len() == 0 || p.len() > g.len() {
        assert(p =~= (p + q).subrange(0, p.len() as int));
    } else {
        lemma_step_inv(g, p, q);
        lemma_kahn_nodup(g, p.push(q[0]), next_queue(g, p, q));
    }
}

proof fn lemma_ids_nodup(g: Seq<RuleView>)
    requires
        well_formed_rules(g),
    ensures
        rule_ids(g).no_duplicates(),
{
    assert forall|i: int, j: int| 0 <= i < rule_ids(g).len() && 0 <= j < rule_ids(g).len() && i != j
        implies rule_ids(g)[i] != rule_ids(g)[j] by {
        if i < j {
            assert(g[i].id != g[j].id);
        } else {
            assert(g[j].id != g[i].id);
        }
    }
}

/// A sequence of distinct checksums of rules is no longer than the graph, and
/// when it is as long or holds every checksum, it holds each exactly once.
proof fn lemma_distinct_ids(g: Seq<RuleView>, p: Seq<Seq<char>>)
    requires
        well_formed_rules(g),
        p.no_duplicates(),
        forall|i: int| 0 <= i < p.len() ==> rule_ids(g).contains(#[trigger] p[i]),
    ensures
        p.len() <= g.len(),
        p.len() == g.len() ==> forall|y: Seq<char>| #[trigger] rule_ids(g).contains(y) ==> p.contains(y),
        (forall|y: Seq<char>| #[trigger] rule_ids(g).contains(y) ==> p.contains(y)) ==> p.to_multiset() == rule_ids(g).to_multiset(),
{
    let ids = rule_ids(g);
    lemma_ids_nodup(g);
    p.unique_seq_to_set();
    ids.unique_seq_to_set();
    assert(p.to_set().subset_of(ids.to_set())) by {
        assert forall|x: Seq<char>| p.to_set().contains(x) implies ids.to_set().contains(x) by {
            let k = p.index_of(x);
            assert(rule_ids(g).contains(p[k]));
        }
    }
    vstd::set_lib::lemma_len_subset(p.to_set(), ids.to_set());
    if p.len() == g.len() {
        assert forall|y: Seq<char>| #[trigger] rule_ids(g).contains(y) implies p.contains(y) by {
            if !p.contains(y) {
                assert(p.to_set().subset_of(ids.to_set().remove(y)));
                vstd::set_lib::lemma_len_subset(p.to_set(), ids.to_set().remove(y));
            }
        }
    }
    if forall|y: Seq<char>| #[trigger] rule_ids(g).contains(y) ==> p.contains(y) {
        p.lemma_multiset_has_no_duplicates();
        ids.lemma_multiset_has_no_duplicates();
        assert forall|x: Seq<char>| p.to_multiset().count(x) == ids.to_multiset().count(x) by {
            if p.contains(x) {
                let k = p.index_of(x);
                assert(rule_ids(g).contains(p[k]));
            }
        }
        assert(p.to_multiset() =~= ids.to_multiset());
    }
}


proof fn lemma_kahn_complete(g: Seq<RuleView>, p: Seq<Seq<char>>, q: Seq<Seq<char>>)
    requires
        well_formed_rules(g),
        kahn_inv(g, p, q),
        (p + q).no_duplicates(),
        kahn_covers(g, p, q),
    ensures
        forall|i: int| 0 <= i < g.len() && inputs_ready(g, #[trigger] g[i], kahn(g, p, q)) ==> kahn(g, p, q).contains(g[i].id),
    decreases g.len() + 1 - p.len(),
{
    if q.len() == 0 {
        assert(p + q =~= p);
    } else if p.len() > g.len() {
        assert(p =~= (p + q).subrange(0, p.len() as int));
        assert forall|i: int| 0 <= i < p.len() implies rule_ids(g).contains(#[trigger] p[i]) by {
            assert(respects_deps(g, p));
        }
        lemma_distinct_ids(g, p);
    } else {
        let q0 = q[0];
        let p2 = p.push(q0);
        let q1 = q.drop_first();
        let outs = rule_named(g, q0).outs;
        let q2 = next_queue(g, p, q);
        lemma_step_inv(g, p, q);
        lemma_enqueue(g, outs, p2, q1);
        lemma_named_id(g, q0);
        let ri = rule_ids(g).index_of(q0);
        assert forall|i: int| 0 <= i < g.len() && inputs_ready(g, #[trigger] g[i], p2) implies (p2 + q2).contains(g[i].id) by {
            let id = g[i].id;
            if inputs_ready(g, g[i], p) {
                let k = (p + q).index_of(id);
                if k < p2.len() {
                    assert((p2 + q1)[k] == id);
                    assert((p2 + q2)[k] == id);
                } else {
                    assert((p2 + q1)[k] == q1[k - p2.len()]);
                    assert(q2[k - p2.len()] == q1[k - p2.len()]);
                    assert((p2 + q2)[k] == id);
                }
            } else {
                let t = choose|t: Seq<char>| #[trigger] g[i].ins.contains(t) && !(match creator_of(g, t) {
                    None => true,
                    Some(w) => p.contains(w),
                });
                let w = creator_of(g, t)->0;
                assert(p2.contains(w));
                assert(w == q0) by {
                    if w != q0 {
                        let m = p2.index_of(w);
                        assert(p[m] == w);
                    }
                }
                crate::graph::lemma_creator_some(g, t);
                let j = choose|j: int| 0 <= j < g.len() && g[j].outs.contains(t) && g[j].id == w;
                lemma_same_rule(g, j, ri);
                let k = g[ri].outs.index_of(t);
                lemma_consumers_complete(g, t, i);
                lemma_named(g, i);
                assert(ready(g, rule_named(g, id), outs[k], p2));
                assert(consumers_of(g, outs[k]).contains(id));
                if p2.contains(id) {
                    let m = p2.index_of(id);
                    assert((p2 + q2)[m] == id);
                } else {
                    let m = q2.index_of(id);
                    assert((p2 + q2)[p2.len() + m] == id);
                }
            }
        }
        lemma_kahn_complete(g, p2, q2);
    }
}

// ---------------------------------------------------------------------------
// The queue that planning starts from
// ---------------------------------------------------------------------------

/// `x` is the checksum of a primordial rule among the first `n`.
spec fn from_primordial(g: Seq<RuleView>, n: int, x: Seq<char>) -> bool {
    exists|i: int| 0 <= i < n && g[i].id == x && is_primordial(g, g[i])
}

proof fn lemma_primordial_upto(g: Seq<RuleView>, n: int)
    requires
        well_formed_rules(g),
        0 <= n <= g.len(),
    ensures
        forall|k: int| 0 <= k < primordial_upto(g, n).len() ==> from_primordial(g, n, #[trigger] primordial_upto(g, n)[k]),
        primordial_upto(g, n).no_duplicates(),
        forall|i: int| 0 <= i < n && is_primordial(g, #[trigger] g[i]) ==> primordial_upto(g, n).contains(g[i].id),
    decreases n,
{
    if n > 0 {
        lemma_primordial_upto(g, n - 1);
        let prev = primordial_upto(g, n - 1);
        let cur = primordial_upto(g, n);
        assert forall|k: int| 0 <= k < prev.len() implies from_primordial(g, n, #[trigger] prev[k]) by {
            assert(from_primordial(g, n - 1, prev[k]));
            let i = choose|i: int| 0 <= i < n - 1 && g[i].id == prev[k] && is_primordial(g, g[i]);
            assert(0 <= i < n && g[i].id == prev[k] && is_primordial(g, g[i]));
        }
        if is_primordial(g, g[n - 1]) {
            assert(cur == prev.push(g[n - 1].id));
            assert forall|k: int| 0 <= k < cur.len() implies from_primordial(g, n, #[trigger] cur[k]) by {
                if k < prev.len() {
                    assert(cur[k] == prev[k]);
                    assert(from_primordial(g, n, prev[k]));
                } else {
                    assert(0 <= n - 1 < n && g[n - 1].id == cur[k] && is_primordial(g, g[n - 1]));
                }
            }
            assert forall|a: int, b: int| 0 <= a < cur.len() && 0 <= b < cur.len() && a != b implies cur[a] != cur[b] by {
                if a == prev.len() || b == prev.len() {
                    let o = if a == prev.len() { b } else { a };
                    assert(from_primordial(g, n - 1, prev[o]));
                    let i = choose|i: int| 0 <= i < n - 1 && g[i].id == prev[o] && is_primordial(g, g[i]);
                    assert(g[i].id != g[n - 1].id);
                    assert(cur[o] == prev[o]);
                }
            }
            assert forall|i: int| 0 <= i < n && is_primordial(g, #[trigger] g[i]) implies cur.contains(g[i].id) by {
                if i < n - 1 {
                    let k = prev.index_of(g[i].id);
                    assert(cur[k] == g[i].id);
                } else {
                    assert(cur[prev.len() as int] == g[i].id);
                }
            }
        } else {
            assert(cur == prev);
        }
    }
}

pub(crate) proof fn lemma_kept(prim: Seq<Seq<char>>, keep: Seq<bool>)
    ensures
        forall|x: Seq<char>| #[trigger] kept(prim, keep).contains(x) ==> prim.contains(x),
        prim.no_duplicates() ==> kept(prim, keep).no_duplicates(),
        keep.len() == prim.len() && (forall|k: int| 0 <= k < keep.len() ==> #[trigger] keep[k]) ==> kept(prim, keep) == prim,
    decreases prim.len(),
{
    if prim.len() > 0 && keep.len() > 0 {
        let pi = prim.drop_last();
        let ki = keep.drop_last();
        lemma_kept(pi, ki);
        let rest = kept(pi, ki);
        assert forall|x: Seq<char>| #[trigger] kept(prim, keep).contains(x) implies prim.contains(x) by {
            if rest.contains(x) {
                let k = pi.index_of(x);
                assert(prim[k] == x);
            } else {
                assert(prim[prim.len() - 1] == x);
            }
        }
        if prim.no_duplicates() {
            assert(pi.no_duplicates());
            if keep.last() {
                assert forall|a: int, b: int| 0 <= a < rest.push(prim.last()).len() && 0 <= b < rest.push(prim.last()).len() && a != b
                    implies rest.push(prim.last())[a] != rest.push(prim.last())[b] by {
                    if a == rest.len() || b == rest.len() {
                        let o = if a == rest.len() { b } else { a };
                        if rest[o] == prim.last() {
                            assert(rest.contains(rest[o]));
                            assert(pi.contains(rest[o]));
                            let k = pi.index_of(rest[o]);
                            assert(prim[k] == prim[prim.len() - 1]);
                        }
                    }
                }
            }
        }
        if keep.len() == prim.len() && (forall|k: int| 0 <= k < keep.len() ==> #[trigger] keep[k]) {
            assert forall|k: int| 0 <= k < ki.len() implies #[trigger] ki[k] by {
                assert(keep[k]);
            }
            assert(keep[keep.len() - 1]);
            assert(pi.push(prim.last()) =~= prim);
        }
    }
}

proof fn lemma_start(g: Seq<RuleView>, keep: Seq<bool>)
    requires
        well_formed_rules(g),
    ensures
        kahn_inv(g, Seq::empty(), kept(primordial_ids(g), keep)),
        (Seq::<Seq<char>>::empty() + kept(primordial_ids(g), keep)).no_duplicates(),
        kahn_covers(g, Seq::empty(), primordial_ids(g)),
{
    let prim = primordial_ids(g);
    let seeds = kept(prim, keep);
    let e = Seq::<Seq<char>>::empty();
    lemma_primordial_upto(g, g.len() as int);
    lemma_kept(prim, keep);
    assert(e + seeds =~= seeds);
    assert forall|i: int| 0 <= i < seeds.len() implies rule_ids(g).contains(#[trigger] seeds[i])
        && inputs_ready(g, rule_named(g, seeds[i]), e) by {
        assert(seeds.contains(seeds[i]));
        assert(prim.contains(seeds[i]));
        let k = prim.index_of(seeds[i]);
        assert(prim[k] == seeds[i]);
        assert(from_primordial(g, g.len() as int, prim[k]));
        let j = choose|j: int| 0 <= j < g.len() && g[j].id == prim[k] && is_primordial(g, g[j]);
        lemma_named(g, j);
    }
    assert forall|i: int| 0 <= i < g.len() && inputs_ready(g, #[trigger] g[i], e) implies (e + prim).contains(g[i].id) by {
        assert(e + prim =~= prim);
        assert forall|t: Seq<char>| #[trigger] g[i].ins.contains(t) implies creator_of(g, t) is None by {
            if let Some(w) = creator_of(g, t) {
                assert(!e.contains(w));
            }
        }
        assert(is_primordial(g, g[i]));
    }
}


// ---------------------------------------------------------------------------
// What planning promises
// ---------------------------------------------------------------------------

/// Whatever the ledger reports, the plan runs each rule at most once and
/// puts every rule after the rules that write its inputs.
pub proof fn lemma_plan_respects_deps(g: Seq<RuleView>, keep: Seq<bool>)
    requires
        well_formed_rules(g),
    ensures
        respects_deps(g, kahn_plan(g, kept(primordial_ids(g), keep))),
        kahn_plan(g, kept(primordial_ids(g), keep)).no_duplicates(),
{
    let seeds = kept(primordial_ids(g), keep);
    lemma_start(g, keep);
    lemma_kahn_respects(g, Seq::empty(), seeds);
    lemma_kahn_nodup(g, Seq::empty(), seeds);
}

/// A plan that holds as many rules as the graph runs each rule exactly
/// once, after the rules that write its inputs.
pub proof fn lemma_complete_plan_is_schedule(g: Seq<RuleView>, keep: Seq<bool>)
    requires
        well_formed_rules(g),
        kahn_plan(g, kept(primordial_ids(g), keep)).len() == g.len(),
    ensures
        is_schedule(g, kahn_plan(g, kept(primordial_ids(g), keep))),
{
    let seeds = kept(primordial_ids(g), keep);
    let k = kahn_plan(g, seeds);
    lemma_plan_respects_deps(g, keep);
    assert forall|i: int| 0 <= i < k.len() implies rule_ids(g).contains(#[trigger] k[i]) by {}
    lemma_distinct_ids(g, k);
}

/// Planning from all primordial rules gives a schedule whenever the rules
/// can be scheduled at all.
pub proof fn lemma_full_plan_succeeds(g: Seq<RuleView>)
    requires
        well_formed_rules(g),
        has_schedule(g),
    ensures
        is_schedule(g, kahn_plan(g, primordial_ids(g))),
        kahn_plan(g, primordial_ids(g)).len() == g.len(),
{
    let prim = primordial_ids(g);
    let all = Seq::new(prim.len(), |_i: int| true);
    lemma_kept(prim, all);
    assert(kept(prim, all) == prim);
    lemma_start(g, all);
    let e = Seq::<Seq<char>>::empty();
    let k = kahn_plan(g, prim);
    lemma_kahn_respects(g, e, prim);
    lemma_kahn_nodup(g, e, prim);
    lemma_kahn_complete(g, e, prim);
    let s = choose|s: Seq<Seq<char>>| is_schedule(g, s);
    // every rule of the schedule is planned, by induction along the schedule
    lemma_schedule_prefix_planned(g, s, k, s.len() as int);
    assert forall|i: int| 0 <= i < k.len() implies rule_ids(g).contains(#[trigger] k[i]) by {}
    assert forall|y: Seq<char>| #[trigger] rule_ids(g).contains(y) implies k.contains(y) by {
        assert(rule_ids(g).to_multiset().count(y) > 0);
        assert(s.to_multiset().count(y) > 0);
        let m = s.index_of(y);
        assert(forall|m2: int| 0 <= m2 < s.len() ==> k.contains(#[trigger] s[m2]));
    }
    lemma_distinct_ids(g, k);
    lemma_ids_nodup(g);
    k.unique_seq_to_set();
    rule_ids(g).unique_seq_to_set();
    assert(k.len() == g.len()) by {
        assert(k.to_multiset().len() == rule_ids(g).to_multiset().len());
    }
}

proof fn lemma_schedule_prefix_planned(g: Seq<RuleView>, s: Seq<Seq<char>>, k: Seq<Seq<char>>, j: int)
    requires
        well_formed_rules(g),
        is_schedule(g, s),
        0 <= j <= s.len(),
        forall|i: int| 0 <= i < g.len() && inputs_ready(g, #[trigger] g[i], k) ==> k.contains(g[i].id),
    ensures
        forall|m: int| 0 <= m < j ==> k.contains(#[trigger] s[m]),
    decreases j,
{
    if j > 0 {
        lemma_schedule_prefix_planned(g, s, k, j - 1);
        let x = s[j - 1];
        assert(rule_ids(g).contains(x) && inputs_ready(g, rule_named(g, x), s.subrange(0, j - 1)));
        lemma_named_id(g, x);
        let i = rule_ids(g).index_of(x);
        assert forall|w: Seq<char>| s.subrange(0, j - 1).contains(w) implies k.contains(w) by {
            let m = s.subrange(0, j - 1).index_of(w);
            assert(s[m] == w);
        }
        lemma_ready_grows(g, g[i], s.subrange(0, j - 1), k);
        assert(k.contains(g[i].id));
    }
}

/// Every entry of `s` is a seed or the checksum of a rule that is not
/// primordial.
pub open spec fn seeded_or_derived(g: Seq<RuleView>, s: Seq<Seq<char>>, seeds: Seq<Seq<char>>) -> bool {
    forall|i: int| 0 <= i < s.len() ==> seeds.contains(#[trigger] s[i]) || !is_primordial(g, rule_named(g, s[i]))
}

proof fn lemma_kahn_origin(g: Seq<RuleView>, p: Seq<Seq<char>>, q: Seq<Seq<char>>, seeds: Seq<Seq<char>>)
    requires
        well_formed_rules(g),
        kahn_inv(g, p, q),
        seeded_or_derived(g, p + q, seeds),
    ensures
        seeded_or_derived(g, kahn(g, p, q), seeds),
    decreases g.len() + 1 - p.len(),
{
    if q.len() == 0 || p.len() > g.len() {
        assert forall|i: int| 0 <= i < p.len() implies seeds.contains(#[trigger] p[i])
            || !is_primordial(g, rule_named(g, p[i])) by {
            assert((p + q)[i] == p[i]);
        }
    } else {
        let q0 = q[0];
        let p2 = p.push(q0);
        let q1 = q.drop_first();
        let outs = rule_named(g, q0).outs;
        let q2 = next_queue(g, p, q);
        lemma_step_inv(g, p, q);
        lemma_enqueue(g, outs, p2, q1);
        assert forall|i: int| 0 <= i < (p2 + q2).len() implies seeds.contains(#[trigger] (p2 + q2)[i])
            || !is_primordial(g, rule_named(g, (p2 + q2)[i])) by {
            if i < (p + q).len() {
                if i >= p2.len() {
                    assert(q2[i - p2.len()] == q1[i - p2.len()]);
                }
                assert((p2 + q2)[i] == (p2 + q1)[i]);
            } else {
                let x = (p2 + q2)[i];
                assert(q2[i - p2.len()] == x);
                let kk = choose|kk: int| 0 <= kk < outs.len() && consumers_of(g, #[trigger] outs[kk]).contains(x)
                    && ready(g, rule_named(g, x), outs[kk], p2);
                let o = outs[kk];
                lemma_released_ready(g, p, q0, o, x);
                lemma_named_id(g, q0);
                let ri = rule_ids(g).index_of(q0);
                assert(g[ri].outs.contains(o));
                lemma_creator_is_writer(g, ri, o);
            }
        }
        lemma_kahn_origin(g, p2, q2, seeds);
    }
}

proof fn lemma_kept_excludes(prim: Seq<Seq<char>>, keep: Seq<bool>, k: int)
    requires
        prim.no_duplicates(),
        keep.len() == prim.len(),
        0 <= k < prim.len(),
        !keep[k],
    ensures
        !kept(prim, keep).contains(prim[k]),
    decreases prim.len(),
{
    let pi = prim.drop_last();
    let ki = keep.drop_last();
    lemma_kept(pi, ki);
    if k == prim.len() - 1 {
        if kept(pi, ki).contains(prim[k]) {
            assert(pi.contains(prim[k]));
            let m = pi.index_of(prim[k]);
            assert(prim[m] == prim[k]);
        }
    } else {
        assert(pi[k] == prim[k]);
        lemma_kept_excludes(pi, ki, k);
        if keep.last() {
            assert(prim.last() != prim[k]);
        }
    }
}


/// Whatever the ledger reports: the resolver refuses a graph with the cycle
/// error exactly when its rules cannot be run each after the rules that
/// write its inputs; a plan it returns runs each rule at most once, each
/// after the rules that write its inputs.
pub proof fn lemma_resolve_cycle_iff_no_schedule(g: Seq<RuleView>, keep: Seq<bool>, res: Result<Plan, PlanningError>)
    requires
        well_formed_rules(g),
        resolved(res, g, kept(primordial_ids(g), keep)),
    ensures
        res is Ok <==> has_schedule(g),
        res is Err ==> res matches Err(PlanningError::Cycle),
        res matches Ok(p) ==> respects_deps(g, texts(p.rules@)) && texts(p.rules@).no_duplicates(),
{
    let prim = primordial_ids(g);
    let all = Seq::new(prim.len(), |_i: int| true);
    lemma_kept(prim, all);
    lemma_plan_respects_deps(g, keep);
    if kahn_plan(g, prim).len() == g.len() {
        lemma_complete_plan_is_schedule(g, all);
    } else if has_schedule(g) {
        lemma_full_plan_succeeds(g);
    }
}

/// In full mode: the resolver succeeds exactly when the rules can be run
/// each after the rules that write its inputs, and then its plan runs every
/// rule exactly once in such an order.
pub proof fn lemma_full_resolve(g: Seq<RuleView>, keep: Seq<bool>, res: Result<Plan, PlanningError>)
    requires
        well_formed_rules(g),
        keep.len() == primordial_ids(g).len(),
        forall|k: int| 0 <= k < keep.len() ==> #[trigger] keep[k],
        resolved(res, g, kept(primordial_ids(g), keep)),
    ensures
        res is Ok <==> has_schedule(g),
        res matches Ok(p) ==> is_schedule(g, texts(p.rules@)),
{
    lemma_kept(primordial_ids(g), keep);
    lemma_resolve_cycle_iff_no_schedule(g, keep, res);
    if kahn_plan(g, primordial_ids(g)).len() == g.len() {
        lemma_complete_plan_is_schedule(g, keep);
    }
}

/// In terse mode: a primordial rule that the ledger reports as seen with
/// its sources is not planned, and neither is any rule that reads one of its
/// outputs.
pub proof fn lemma_terse_leaves_out_seen(g: Seq<RuleView>, keep: Seq<bool>, k: int, res: Result<Plan, PlanningError>)
    requires
        well_formed_rules(g),
        keep.len() == primordial_ids(g).len(),
        0 <= k < keep.len(),
        !keep[k],
        resolved(res, g, kept(primordial_ids(g), keep)),
    ensures
        res matches Ok(p) ==> !texts(p.rules@).contains(primordial_ids(g)[k]),
        res matches Ok(p) ==> forall|i: int, t: Seq<char>| 0 <= i < texts(p.rules@).len()
            && #[trigger] rule_named(g, texts(p.rules@)[i]).ins.contains(t)
            ==> creator_of(g, t) != Some(primordial_ids(g)[k]),
{
    let prim = primordial_ids(g);
    let seeds = kept(prim, keep);
    let e = Seq::<Seq<char>>::empty();
    let plan = kahn_plan(g, seeds);
    lemma_primordial_upto(g, g.len() as int);
    lemma_kept_excludes(prim, keep, k);
    lemma_start(g, keep);
    lemma_plan_respects_deps(g, keep);
    assert(e + seeds =~= seeds);
    assert(seeded_or_derived(g, e + seeds, seeds)) by {
        assert forall|i: int| 0 <= i < (e + seeds).len() implies seeds.contains(#[trigger] (e + seeds)[i])
            || !is_primordial(g, rule_named(g, (e + seeds)[i])) by {
            assert((e + seeds)[i] == seeds[i]);
        }
    }
    lemma_kahn_origin(g, e, seeds, seeds);
    assert(from_primordial(g, g.len() as int, prim[k]));
    let j = choose|j: int| 0 <= j < g.len() && g[j].id == prim[k] && is_primordial(g, g[j]);
    lemma_named(g, j);
    assert(!plan.contains(prim[k])) by {
        if plan.contains(prim[k]) {
            let m = plan.index_of(prim[k]);
            assert(seeds.contains(plan[m]) || !is_primordial(g, rule_named(g, plan[m])));
        }
    }
    if res is Ok {
        assert forall|i: int, t: Seq<char>| 0 <= i < plan.len() && #[trigger] rule_named(g, plan[i]).ins.contains(t)
            implies creator_of(g, t) != Some(prim[k]) by {
            assert(inputs_ready(g, rule_named(g, plan[i]), plan.subrange(0, i)));
            if creator_of(g, t) == Some(prim[k]) {
                let m = plan.subrange(0, i).index_of(prim[k]);
                assert(plan[m] == prim[k]);
            }
        }
    }
}

/// Every queued rule ends up planned.
proof fn lemma_kahn_plans_queue(g: Seq<RuleView>, p: Seq<Seq<char>>, q: Seq<Seq<char>>, x: Seq<char>)
    requires
        well_formed_rules(g),
        kahn_inv(g, p, q),
        (p + q).no_duplicates(),
        (p + q).contains(x),
    ensures
        kahn(g, p, q).contains(x),
    decreases g.len() + 1 - p.len(),
{
    if q.len() == 0 {
        assert(p + q =~= p);
    } else if p.len() > g.len() {
        assert(p =~= (p + q).subrange(0, p.len() as int));
        assert forall|i: int| 0 <= i < p.len() implies rule_ids(g).contains(#[trigger] p[i]) by {
            assert(respects_deps(g, p));
        }
        lemma_distinct_ids(g, p);
    } else {
        let p2 = p.push(q[0]);
        let q1 = q.drop_first();
        let q2 = next_queue(g, p, q);
        lemma_step_inv(g, p, q);
        let m = (p + q).index_of(x);
        assert((p2 + q1)[m] == x);
        if m < p2.len() {
            assert((p2 + q2)[m] == x);
        } else {
            assert(q2[m - p2.len()] == q1[m - p2.len()]);
            assert((p2 + q2)[m] == x);
        }
        lemma_kahn_plans_queue(g, p2, q2, x);
    }
}

proof fn lemma_kept_includes(prim: Seq<Seq<char>>, keep: Seq<bool>, k: int)
    requires
        keep.len() == prim.len(),
        0 <= k < prim.len(),
        keep[k],
    ensures
        kept(prim, keep).contains(prim[k]),
    decreases prim.len(),
{
    let pi = prim.drop_last();
    let ki = keep.drop_last();
    if k == prim.len() - 1 {
        let r = kept(pi, ki).push(prim.last());
        assert(r[r.len() - 1] == prim[k]);
    } else {
        assert(pi[k] == prim[k]);
        assert(ki[k] == keep[k]);
        lemma_kept_includes(pi, ki, k);
        let r = kept(pi, ki);
        let m = r.index_of(prim[k]);
        if keep.last() {
            assert(r.push(prim.last())[m] == prim[k]);
        }
    }
}

/// In terse mode, with `answers` the ledger's answers for the primordial
/// rules in order: a primordial rule is planned exactly when the ledger
/// answered that it was not seen with its sources.
pub proof fn lemma_terse_plans_exactly_unseen(g: Seq<RuleView>, answers: Seq<bool>, k: int, res: Result<Plan, PlanningError>)
    requires
        well_formed_rules(g),
        answers.len() == primordial_ids(g).len(),
        0 <= k < answers.len(),
        resolved(res, g, kept(primordial_ids(g), keep_for(false, answers))),
    ensures
        res matches Ok(p) ==> (texts(p.rules@).contains(primordial_ids(g)[k]) <==> !answers[k]),
{
    let prim = primordial_ids(g);
    let keep = keep_for(false, answers);
    let seeds = kept(prim, keep);
    let e = Seq::<Seq<char>>::empty();
    if answers[k] {
        assert(!keep[k]);
        lemma_terse_leaves_out_seen(g, keep, k, res);
    } else {
        assert(keep[k]);
        lemma_kept_includes(prim, keep, k);
        lemma_start(g, keep);
        assert(e + seeds =~= seeds);
        lemma_kahn_plans_queue(g, e, seeds, prim[k]);
    }
}

/// In full mode, every primordial rule is planned, whatever the ledger
/// answered.
pub proof fn lemma_full_plans_every_primordial(g: Seq<RuleView>, answers: Seq<bool>, k: int, res: Result<Plan, PlanningError>)
    requires
        well_formed_rules(g),
        answers.len() == primordial_ids(g).len(),
        0 <= k < answers.len(),
        resolved(res, g, kept(primordial_ids(g), keep_for(true, answers))),
    ensures
        res matches Ok(p) ==> texts(p.rules@).contains(primordial_ids(g)[k]),
{
    let prim = primordial_ids(g);
    let keep = keep_for(true, answers);
    let seeds = kept(prim, keep);
    let e = Seq::<Seq<char>>::empty();
    assert(keep[k]);
    lemma_kept_includes(prim, keep, k);
    lemma_start(g, keep);
    assert(e + seeds =~= seeds);
    lemma_kahn_plans_queue(g, e, seeds, prim[k]);
}

} // verus!
