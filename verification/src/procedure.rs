use vstd::prelude::*;

use crate::rule::Rule;
use crate::text::{joined, owned, same_text};

verus! {

/// The name under which a procedure is registered.
#[derive(Debug, Clone, PartialEq, Eq, Hash)]
pub struct ProcedureId(pub String);

#[derive(Debug)]
pub enum ProcedureError {
    NotFound(String),
    ExecFailed(String),
}

impl ProcedureError {
    /// The message that describes the error.
    pub open spec fn message(&self) -> Seq<char> {
        match self {
            ProcedureError::NotFound(id) => "procedure not found: "@ + id@,
            ProcedureError::ExecFailed(msg) => "execution failed: "@ + msg@,
        }
    }

    /// The message that describes the error.
    pub fn to_string(&self) -> (res: String)
        ensures
            res@ == self.message(),
    {
        match self {
            ProcedureError::NotFound(id) => joined(owned("procedure not found: "), id.as_str()),
            ProcedureError::ExecFailed(msg) => joined(owned("execution failed: "), msg.as_str()),
        }
    }
}

/// The work that a rule performs to make its outputs from its inputs.
/// Users implement it; of an implementation it is only claimed that what a
/// run returns is one of its `outcome`s for the rule it was run on.
pub trait Procedure {
    /// Whether a run of the procedure on `rule` may end with `res`. Unless an
    /// implementation says more, any result may be given.
    closed spec fn outcome(&self, rule: Rule, res: Result<(), ProcedureError>) -> bool {
        true
    }

    fn exec(&mut self, rule: &mut Rule) -> (res: Result<(), ProcedureError>)
        ensures
            old(self).outcome(*old(rule), res);
}

/// Procedure factories by name. A factory is called once per rule execution.
pub struct Registry<F> {
    procedures: Vec<(String, F)>,
}

impl<F> Registry<F> {
    /// The registered names, in registration order.
    pub closed spec fn ids(&self) -> Seq<Seq<char>> {
        self.procedures@.map_values(|p: (String, F)| p.0@)
    }

    /// The factory registered under the name at `i`.
    pub closed spec fn factory_at(&self, i: int) -> F {
        self.procedures@[i].1
    }

    /// Each name is registered at most once.
    pub closed spec fn wf(&self) -> bool {
        forall|i: int, j: int| 0 <= i < j < self.ids().len() ==> self.ids()[i] != self.ids()[j]
    }

    /// The names and the factories registered under them.
    pub open spec fn view(&self) -> Map<Seq<char>, F> {
        Map::new(
            |k: Seq<char>| self.ids().contains(k),
            |k: Seq<char>| self.factory_at(self.ids().index_of(k)),
        )
    }

    /// An empty registry.
    pub fn new() -> (res: Self)
        ensures
            res.wf(),
            res.view() == Map::<Seq<char>, F>::empty(),
    {
        let res = Registry { procedures: Vec::new() };
        assert(res.view() =~= Map::<Seq<char>, F>::empty());
        res
    }

    /// The position of the name `id`, if it is registered.
    fn position(&self, id: &str) -> (res: Option<usize>)
        requires
            self.wf(),
        ensures
            match res {
                Some(i) => i < self.ids().len() && self.ids()[i as int] == id@,
                None => !self.ids().contains(id@),
            },
    {
        let mut i: usize = 0;
        while i < self.procedures.len()
            invariant
                self.wf(),
                i <= self.procedures@.len(),
                forall|j: int| 0 <= j < i ==> self.ids()[j] != id@,
            decreases self.procedures@.len() - i,
        {
            if same_text(self.procedures[i].0.as_str(), id) {
                return Some(i);
            }
            i = i + 1;
        }
        None
    }

    /// Whether a procedure is registered under `id`.
    pub fn contains(&self, id: &str) -> (res: bool)
        requires
            self.wf(),
        ensures
            res == self.view().dom().contains(id@),
    {
        self.position(id).is_some()
    }

    /// Registers `factory` under `id`, in place of any factory registered there before.
    pub fn register(&mut self, id: String, factory: F)
        where
            F: Fn() -> Box<dyn Procedure>,
        requires
            old(self).wf(),
        ensures
            final(self).wf(),
            final(self).view() == old(self).view().insert(id@, factory),
    {
        proof { lemma_view_at(self); }
        match self.position(id.as_str()) {
            Some(i) => {
                let ghost before = *self;
                self.procedures.set(i, (id, factory));
                proof {
                    assert(self.ids() =~= before.ids());
                    assert(self.wf());
                    assert forall|j: int| 0 <= j < self.ids().len() implies j == self.ids().index_of(self.ids()[j]) by {
                        lemma_unique_index(self, j);
                    }
                    assert(self.view() =~= before.view().insert(id@, factory));
                }
            }
            None => {
                let ghost before = *self;
                self.procedures.push((id, factory));
                proof {
                    assert(self.ids() =~= before.ids().push(id@));
                    assert(self.wf());
                    assert forall|j: int| 0 <= j < self.ids().len() implies j == self.ids().index_of(self.ids()[j]) by {
                        lemma_unique_index(self, j);
                    }
                    lemma_unique_index(self, before.ids().len() as int);
                    assert(self.ids()[before.ids().len() as int] == id@);
                    assert forall|k: Seq<char>| #[trigger] before.ids().contains(k) implies
                        before.ids().index_of(k) == self.ids().index_of(k) by {
                        let i = before.ids().index_of(k);
                        lemma_unique_index(&before, i);
                        lemma_unique_index(self, i);
                    }
                    let m = before.view().insert(id@, factory);
                    assert forall|k: Seq<char>| #[trigger] self.view().dom().contains(k) <==> m.dom().contains(k) by {
                        if self.ids().contains(k) && k != id@ {
                            let i = self.ids().index_of(k);
                            assert(before.ids()[i] == k);
                        }
                        if before.ids().contains(k) {
                            let i = before.ids().index_of(k);
                            assert(self.ids()[i] == k);
                        }
                        if k == id@ {
                            assert(self.ids()[before.ids().len() as int] == k);
                        }
                    }
                    assert forall|k: Seq<char>| #[trigger] self.view().dom().contains(k) implies self.view()[k] == m[k] by {
                        if k != id@ {
                            let i = self.ids().index_of(k);
                            assert(before.ids()[i] == k);
                            assert(before.ids().contains(k));
                            assert(self.factory_at(i) == before.factory_at(i));
                        }
                    }
                    assert(self.view() =~= m);
                }
            }
        }
    }
}

impl<F> Default for Registry<F> {
    fn default() -> (res: Self)
        ensures
            res.wf(),
            res.view() == Map::<Seq<char>, F>::empty(),
    {
        Registry::new()
    }
}

/// Once a factory is registered under a name, the registry holds that name,
/// and it is that factory that `create` calls for it.
pub proof fn lemma_registered_is_found<F>(before: Map<Seq<char>, F>, id: Seq<char>, factory: F)
    ensures
        before.insert(id, factory).dom().contains(id),
        before.insert(id, factory)[id] == factory,
        forall|other: Seq<char>| other != id ==> (#[trigger] before.insert(id, factory).dom().contains(other)
            == before.dom().contains(other)),
{
}

proof fn lemma_unique_index<F>(r: &Registry<F>, j: int)
    requires
        r.wf(),
        0 <= j < r.ids().len(),
    ensures
        r.ids().index_of(r.ids()[j]) == j,
{
    let k = r.ids().index_of(r.ids()[j]);
    assert(r.ids().contains(r.ids()[j]));
    if k != j {
        assert(r.ids()[k] == r.ids()[j]);
    }
}

proof fn lemma_view_at<F>(r: &Registry<F>)
    requires
        r.wf(),
    ensures
        forall|j: int| 0 <= j < r.ids().len() ==> #[trigger] r.view()[r.ids()[j]] == r.factory_at(j),
{
    assert forall|j: int| 0 <= j < r.ids().len() implies #[trigger] r.view()[r.ids()[j]] == r.factory_at(j) by {
        lemma_unique_index(r, j);
    }
}

/// `out` is a result that one call of `factory` may give.
pub open spec fn made_by<O, G: Fn() -> O>(factory: G, out: O) -> bool {
    call_ensures(factory, (), out)
}

/// Calls the factory once.
pub(crate) fn call_factory<O, G: Fn() -> O>(factory: &G) -> (res: O)
    requires
        call_requires(*factory, ()),
    ensures
        made_by(*factory, res),
{
    factory()
}

/// After `register(id, factory)`, a procedure that `create(id)` returns is
/// one that `factory` makes, whatever was registered under `id` before.
pub proof fn lemma_create_after_register<P, F: Fn() -> P>(before: Map<Seq<char>, F>, after: Map<Seq<char>, F>, id: Seq<char>, factory: F, p: P)
    requires
        after == before.insert(id, factory),
        after.dom().contains(id) && made_by(after[id], p),
    ensures
        made_by(factory, p),
{
}

/// A boxed procedure runs as the procedure in the box, on the same rule:
/// what a run of the box may end with on a rule is what a run of the
/// procedure inside may end with on that rule.
pub proof fn lemma_boxed_procedure_runs_inner(b: Box<dyn Procedure>, rule: Rule, res: Result<(), ProcedureError>)
    ensures
        b.outcome(rule, res) == (*b).outcome(rule, res),
{
}

/// A boxed procedure works as the procedure in the box.
impl Procedure for Box<dyn Procedure> {
    open spec fn outcome(&self, rule: Rule, res: Result<(), ProcedureError>) -> bool {
        (**self).outcome(rule, res)
    }

    fn exec(&mut self, rule: &mut Rule) -> (res: Result<(), ProcedureError>) {
        (**self).exec(rule)
    }
}

impl<P, F: Fn() -> P> Registry<F> {
    /// Every registered factory can be called.
    pub open spec fn callable(&self) -> bool {
        forall|k: Seq<char>| self.view().dom().contains(k) ==> call_requires(#[trigger] self.view()[k], ())
    }

    /// A new procedure from the factory registered under `id`.
    pub fn create(&self, id: &str) -> (res: Result<P, ProcedureError>)
        requires
            self.wf(),
            self.callable(),
        ensures
            match res {
                Ok(p) => self.view().dom().contains(id@) && made_by(self.view()[id@], p),
                Err(e) => !self.view().dom().contains(id@) && (e matches ProcedureError::NotFound(s) && s@ == id@),
            },
    {
        proof { lemma_view_at(self); }
        match self.position(id) {
            Some(i) => {
                proof {
                    assert(self.view().dom().contains(id@));
                    assert(self.view()[id@] == self.factory_at(i as int));
                    assert(call_requires(self.view()[id@], ()));
                }
                let p = call_factory(&self.procedures[i].1);
                Ok(p)
            }
            None => Err(ProcedureError::NotFound(owned(id))),
        }
    }
}

} // verus!
