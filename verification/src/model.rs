//! A constraint model: decision variables by name, and the constraints
//! over them in the order in which they were stated.

use vstd::prelude::*;
use crate::domain::{DecisionVariable, Domain, DomainView};
use crate::error::ModelError;
use crate::expression::{
    all_equal,
    clone_all,
    lemma_terms_of,
    lemma_terms_of_push,
    terms_of,
    Expression,
    Term,
};
use crate::name::{Name, NameView};
use crate::position::{
    find_first_in,
    first_in,
    lemma_first_in,
    lemma_first_match_some,
    property,
    NodeTest,
};

verus! {

/// Mathematical value of a [`Model`].
pub struct ModelView {
    /// The domain of each declared variable.
    pub variables: Map<NameView, DomainView>,
    /// The constraints, in order.
    pub constraints: Seq<Term>,
}

impl ModelView {
    /// The property of a node of referring to a name that the model does
    /// not declare.
    pub open spec fn undeclared(self) -> spec_fn(Term) -> bool {
        |t: Term| t is Reference && !self.variables.contains_key(t->Reference_0)
    }

    /// Whether a declared variable has an empty or non-canonical domain.
    pub open spec fn has_domain_mismatch(self) -> bool {
        exists|n: NameView| #[trigger]
            self.variables.contains_key(n) && !self.variables[n].canonical()
    }

    /// Whether `r` is a verdict on the model as it enters rewriting. A
    /// model passes when every declared domain is non-empty and canonical
    /// and every reference names a declared variable. A domain that is not
    /// is reported before any reference; of the references, the first one
    /// in pre-order in the first constraint that has one.
    pub open spec fn admits(self, r: Result<(), ModelError>) -> bool {
        match r {
            Ok(_) => {
                &&& !self.has_domain_mismatch()
                &&& first_in(self.constraints, self.undeclared(), 0) is None
            },
            Err(ModelError::DomainMismatch(n)) => {
                &&& self.variables.contains_key(n@)
                &&& !self.variables[n@].canonical()
            },
            Err(ModelError::UndeclaredReference(n)) => {
                &&& !self.has_domain_mismatch()
                &&& first_in(self.constraints, self.undeclared(), 0) matches Some((k, p))
                &&& self.constraints[k].at(p) == Some(Term::Reference(n@))
            },
        }
    }
}

/// The map that a list of declarations stands for; a later declaration of
/// a name overrides an earlier one.
pub open spec fn declared(entries: Seq<(Name, DecisionVariable)>) -> Map<NameView, DomainView>
    decreases entries.len(),
{
    if entries.len() == 0 {
        Map::empty()
    } else {
        declared(entries.drop_last()).insert(entries.last().0@, entries.last().1@)
    }
}

/// Whether the declaration at index `i` is the last one of the name `n`.
pub open spec fn last_declaration(entries: Seq<(Name, DecisionVariable)>, n: NameView, i: int) -> bool {
    &&& 0 <= i < entries.len()
    &&& entries[i].0@ == n
    &&& forall|j: int| i < j < entries.len() ==> (#[trigger] entries[j]).0@ != n
}

/// The map holds a name exactly when the list declares it, with the domain
/// of the last declaration of that name.
pub proof fn lemma_declared(entries: Seq<(Name, DecisionVariable)>, n: NameView)
    ensures
        declared(entries).contains_key(n) <==> exists|i: int|
            0 <= i < entries.len() && (#[trigger] entries[i]).0@ == n,
        forall|i: int| last_declaration(entries, n, i) ==> declared(entries)[n] == entries[i].1@,
    decreases entries.len(),
{
    if entries.len() > 0 {
        let front = entries.drop_last();
        lemma_declared(front, n);
        if declared(entries).contains_key(n) {
            if entries.last().0@ == n {
                assert(entries[entries.len() - 1].0@ == n);
            } else {
                let i = choose|i: int| 0 <= i < front.len() && (#[trigger] front[i]).0@ == n;
                assert(entries[i].0@ == n);
            }
        }
        if exists|i: int| 0 <= i < entries.len() && (#[trigger] entries[i]).0@ == n {
            let i = choose|i: int| 0 <= i < entries.len() && (#[trigger] entries[i]).0@ == n;
            if i < entries.len() - 1 {
                assert(front[i].0@ == n);
            }
        }
        assert forall|i: int| last_declaration(entries, n, i) implies declared(entries)[n]
            == entries[i].1@ by {
            if i < entries.len() - 1 {
                assert(entries[entries.len() - 1].0@ != n);
                assert(last_declaration(front, n, i)) by {
                    assert forall|j: int| i < j < front.len() implies (#[trigger] front[j]).0@
                        != n by {
                        assert(front[j] == entries[j]);
                    }
                }
            }
        }
    }
}

/// A constraint model. The variables are kept as a list of declarations
/// that is searched by `==` on names, whose meaning is proved; the place
/// of a declaration in the list is no part of the value of the model.
#[derive(Debug)]
pub struct Model {
    variables: Vec<(Name, DecisionVariable)>,
    constraints: Vec<Expression>,
}

impl View for Model {
    type V = ModelView;

    closed spec fn view(&self) -> ModelView {
        ModelView { variables: declared(self.variables@), constraints: terms_of(self.constraints@) }
    }
}

/// The node test "a reference to a name that the model does not declare".
pub struct Undeclared<'a> {
    pub model: &'a Model,
}

impl<'a> NodeTest for Undeclared<'a> {
    open spec fn holds(&self, t: Term) -> bool {
        t is Reference && !self.model@.variables.contains_key(t->Reference_0)
    }

    fn test(&self, e: &Expression) -> (r: bool) {
        match e {
            Expression::Reference(name) => self.model.get_variable(name).is_none(),
            _ => false,
        }
    }
}

impl Model {
    /// The model without variables and without constraints.
    pub fn new() -> (m: Model)
        ensures
            m@ == (ModelView { variables: Map::empty(), constraints: Seq::empty() }),
    {
        let m = Model { variables: Vec::new(), constraints: Vec::new() };
        assert(terms_of(m.constraints@) =~= Seq::empty());
        m
    }

    /// Index of the last declaration of `name`, if it is declared.
    fn position_of(&self, name: &Name) -> (r: Option<usize>)
        ensures
            match r {
                Some(i) => last_declaration(self.variables@, name@, i as int),
                None => forall|i: int|
                    0 <= i < self.variables.len() ==> (#[trigger] self.variables[i]).0@ != name@,
            },
    {
        let mut k: usize = self.variables.len();
        while k > 0
            invariant
                k <= self.variables.len(),
                forall|i: int|
                    k <= i < self.variables.len() ==> (#[trigger] self.variables[i]).0@ != name@,
            decreases k,
        {
            k -= 1;
            if self.variables[k].0 == *name {
                return Some(k);
            }
        }
        None
    }

    /// The decision variable declared under `name`, if there is one.
    pub fn get_variable(&self, name: &Name) -> (r: Option<&DecisionVariable>)
        ensures
            match r {
                Some(dv) => self@.variables.contains_key(name@) && self@.variables[name@] == dv@,
                None => !self@.variables.contains_key(name@),
            },
    {
        proof {
            lemma_declared(self.variables@, name@);
        }
        match self.position_of(name) {
            Some(i) => Some(&self.variables[i].1),
            None => None,
        }
    }

    /// The declared names, each once.
    pub fn variable_names(&self) -> (out: Vec<Name>)
        ensures
            forall|n: NameView|
                self@.variables.contains_key(n) <==> exists|i: int|
                    0 <= i < out.len() && (#[trigger] out[i])@ == n,
            forall|i: int, j: int|
                0 <= i < j < out.len() ==> (#[trigger] out[i])@ != (#[trigger] out[j])@,
    {
        let mut out: Vec<Name> = Vec::new();
        let mut k: usize = 0;
        while k < self.variables.len()
            invariant
                k <= self.variables.len(),
                forall|i: int|
                    0 <= i < out.len() ==> exists|j: int|
                        0 <= j < self.variables.len() && (#[trigger] self.variables[j]).0@ == (
                        #[trigger] out[i])@,
                forall|j: int|
                    0 <= j < k ==> exists|i: int|
                        0 <= i < out.len() && (#[trigger] out[i])@ == (
                        #[trigger] self.variables[j]).0@,
                forall|i: int, j: int|
                    0 <= i < j < out.len() ==> (#[trigger] out[i])@ != (#[trigger] out[j])@,
            decreases self.variables.len() - k,
        {
            let name = &self.variables[k].0;
            let mut seen = false;
            let mut i: usize = 0;
            while i < out.len()
                invariant
                    i <= out.len(),
                    k < self.variables.len(),
                    name@ == self.variables[k as int].0@,
                    seen <==> exists|a: int| 0 <= a < i && (#[trigger] out[a])@ == name@,
                decreases out.len() - i,
            {
                if out[i] == *name {
                    seen = true;
                }
                i += 1;
            }
            if !seen {
                let ghost before = out@;
                out.push(name.clone());
                proof {
                    assert forall|a: int| 0 <= a < out.len() implies exists|j: int|
                        0 <= j < self.variables.len() && (#[trigger] self.variables[j]).0@ == (
                        #[trigger] out[a])@ by {
                        if a < before.len() {
                            assert(out[a] == before[a]);
                            let j = choose|j: int|
                                0 <= j < self.variables.len() && (#[trigger] self.variables[j]).0@
                                    == before[a]@;
                            assert(self.variables[j].0@ == out[a]@);
                        } else {
                            assert(self.variables[k as int].0@ == out[a]@);
                        }
                    }
                    assert forall|j: int| 0 <= j < k + 1 implies exists|a: int|
                        0 <= a < out.len() && (#[trigger] out[a])@ == (
                        #[trigger] self.variables[j]).0@ by {
                        if j < k {
                            let a = choose|a: int|
                                0 <= a < before.len() && (#[trigger] before[a])@
                                    == self.variables[j].0@;
                            assert(out[a] == before[a]);
                        } else {
                            assert(out[out.len() - 1]@ == self.variables[j].0@);
                        }
                    }
                    assert forall|a: int, b: int| 0 <= a < b < out.len() implies (
                    #[trigger] out[a])@ != (#[trigger] out[b])@ by {
                        assert(out[a] == before[a]);
                        if b < before.len() {
                            assert(out[b] == before[b]);
                        }
                    }
                }
            } else {
                proof {
                    assert forall|j: int| 0 <= j < k + 1 implies exists|a: int|
                        0 <= a < out.len() && (#[trigger] out[a])@ == (
                        #[trigger] self.variables[j]).0@ by {
                        if j == k {
                            let a = choose|a: int| 0 <= a < out.len() && (#[trigger] out[a])@ == name@;
                            assert(out[a]@ == self.variables[j].0@);
                        }
                    }
                }
            }
            k += 1;
        }
        proof {
            assert forall|n: NameView|
                self@.variables.contains_key(n) <==> exists|i: int|
                    0 <= i < out.len() && (#[trigger] out[i])@ == n by {
                lemma_declared(self.variables@, n);
                if self@.variables.contains_key(n) {
                    let j = choose|j: int|
                        0 <= j < self.variables.len() && (#[trigger] self.variables@[j]).0@ == n;
                    let a = choose|a: int|
                        0 <= a < out.len() && (#[trigger] out[a])@ == self.variables[j].0@;
                    assert(out[a]@ == n);
                }
                if exists|i: int| 0 <= i < out.len() && (#[trigger] out[i])@ == n {
                    let a = choose|i: int| 0 <= i < out.len() && (#[trigger] out[i])@ == n;
                    let j = choose|j: int|
                        0 <= j < self.variables.len() && (#[trigger] self.variables[j]).0@
                            == out[a]@;
                    assert(self.variables@[j].0@ == n);
                }
            }
        }
        out
    }

    /// The constraints, in the order in which they were added.
    pub fn constraints(&self) -> (r: &Vec<Expression>)
        ensures
            terms_of(r@) == self@.constraints,
    {
        &self.constraints
    }

    /// A model with the variables of this one and with `constraints`.
    pub fn with_constraints(&self, constraints: Vec<Expression>) -> (m: Model)
        ensures
            m@ == (ModelView { constraints: terms_of(constraints@), ..self@ }),
    {
        let mut variables: Vec<(Name, DecisionVariable)> = Vec::new();
        let mut k: usize = 0;
        while k < self.variables.len()
            invariant
                k <= self.variables.len(),
                variables.len() == k,
                forall|i: int|
                    0 <= i < k ==> (#[trigger] variables[i]).0@ == self.variables[i].0@
                        && variables[i].1@ == self.variables[i].1@,
            decreases self.variables.len() - k,
        {
            variables.push((self.variables[k].0.clone(), self.variables[k].1.clone()));
            k += 1;
        }
        proof {
            lemma_same_declarations(variables@, self.variables@);
        }
        Model { variables, constraints }
    }

    /// Declares `name` with the decision variable `decision_var`, in place
    /// of an earlier declaration of the same name if there is one.
    pub fn add_variable(&mut self, name: Name, decision_var: DecisionVariable)
        ensures
            final(self)@ == (ModelView {
                variables: old(self)@.variables.insert(name@, decision_var@),
                ..old(self)@
            }),
    {
        let ghost before = self.variables@;
        match self.position_of(&name) {
            Some(i) => {
                self.variables.set(i, (name, decision_var));
                proof {
                    lemma_replaced(before, self.variables@, i as int);
                }
            },
            None => {
                self.variables.push((name, decision_var));
                assert(self.variables@.drop_last() =~= before);
            },
        }
    }

    /// Gives the variable `name` the domain `new_domain`; does nothing
    /// where `name` is not declared.
    pub fn update_domain(&mut self, name: &Name, new_domain: Domain)
        ensures
            final(self)@ == if old(self)@.variables.contains_key(name@) {
                ModelView {
                    variables: old(self)@.variables.insert(name@, new_domain@),
                    ..old(self)@
                }
            } else {
                old(self)@
            },
    {
        if self.get_variable(name).is_some() {
            self.add_variable(name.clone(), DecisionVariable { domain: new_domain });
        }
    }

    /// Appends `expression` to the constraints.
    pub fn add_constraint(&mut self, expression: Expression)
        ensures
            final(self)@ == (ModelView {
                constraints: old(self)@.constraints.push(expression@),
                ..old(self)@
            }),
    {
        proof {
            lemma_terms_of_push(self.constraints@, expression);
        }
        self.constraints.push(expression);
    }

    /// Checks the model as it enters rewriting: every declared domain is
    /// non-empty and canonical, and every reference in a constraint names
    /// a declared variable.
    pub fn validate(&self) -> (r: Result<(), ModelError>)
        ensures
            self@.admits(r),
    {
        let mut k: usize = 0;
        while k < self.variables.len()
            invariant
                k <= self.variables.len(),
                forall|i: int, n: NameView|
                    0 <= i < k && #[trigger] last_declaration(self.variables@, n, i)
                        ==> self.variables[i].1@.canonical(),
            decreases self.variables.len() - k,
        {
            if !self.variables[k].1.domain.is_canonical() {
                let name = &self.variables[k].0;
                match self.position_of(name) {
                    Some(i) => {
                        if i == k {
                            proof {
                                lemma_declared(self.variables@, name@);
                            }
                            return Err(ModelError::DomainMismatch(name.clone()));
                        }
                    },
                    None => {},
                }
            }
            k += 1;
        }
        proof {
            assert forall|n: NameView| #[trigger] self@.variables.contains_key(n) implies self@.variables[n].canonical() by {
                lemma_declared(self.variables@, n);
                lemma_last_index(self.variables@, n);
                let i = last_index(self.variables@, n);
                assert(last_declaration(self.variables@, n, i));
            }
        }
        let test = Undeclared { model: self };
        assert(property(&test) =~= self@.undeclared());
        match find_first_in(&self.constraints, &test) {
            None => Ok(()),
            Some((i, path)) => {
                proof {
                    lemma_terms_of(self.constraints@);
                    lemma_first_in(self@.constraints, self@.undeclared(), 0);
                    lemma_first_match_some(self@.constraints[i as int], self@.undeclared());
                }
                match self.constraints[i].at(&path) {
                    Some(Expression::Reference(name)) => Err(
                        ModelError::UndeclaredReference(name.clone()),
                    ),
                    _ => Ok(()),
                }
            },
        }
    }
}

/// Index of the last declaration of `n`, where there is one.
pub open spec fn last_index(entries: Seq<(Name, DecisionVariable)>, n: NameView) -> int
    decreases entries.len(),
{
    if entries.len() == 0 {
        -1
    } else if entries.last().0@ == n {
        entries.len() - 1
    } else {
        last_index(entries.drop_last(), n)
    }
}

/// A declared name has a last declaration, at `last_index`.
pub proof fn lemma_last_index(entries: Seq<(Name, DecisionVariable)>, n: NameView)
    requires
        exists|i: int| 0 <= i < entries.len() && (#[trigger] entries[i]).0@ == n,
    ensures
        last_declaration(entries, n, last_index(entries, n)),
    decreases entries.len(),
{
    if entries.last().0@ != n {
        let front = entries.drop_last();
        let i = choose|i: int| 0 <= i < entries.len() && (#[trigger] entries[i]).0@ == n;
        assert(front[i].0@ == n);
        lemma_last_index(front, n);
        let k = last_index(front, n);
        assert(entries[k] == front[k]);
        assert forall|j: int| k < j < entries.len() implies (#[trigger] entries[j]).0@ != n by {
            if j < front.len() {
                assert(front[j] == entries[j]);
            }
        }
    }
}

/// Replacing the last declaration of a name by another declaration of the
/// same name overrides the domain of that name and nothing else.
proof fn lemma_replaced(
    before: Seq<(Name, DecisionVariable)>,
    after: Seq<(Name, DecisionVariable)>,
    i: int,
)
    requires
        0 <= i < before.len(),
        after == before.update(i, after[i]),
        last_declaration(before, after[i].0@, i),
    ensures
        declared(after) == declared(before).insert(after[i].0@, after[i].1@),
    decreases before.len(),
{
    let n = after[i].0@;
    if i == before.len() - 1 {
        assert(after.drop_last() =~= before.drop_last());
        assert(declared(after) =~= declared(before).insert(n, after[i].1@));
    } else {
        let bf = before.drop_last();
        let af = after.drop_last();
        assert(af =~= bf.update(i, after[i]));
        assert(af[i] == after[i]);
        assert(last_declaration(bf, n, i)) by {
            assert(bf[i] == before[i]);
            assert forall|j: int| i < j < bf.len() implies (#[trigger] bf[j]).0@ != n by {
                assert(bf[j] == before[j]);
            }
        }
        lemma_replaced(bf, af, i);
        assert(after.last() == before.last());
        assert(before[before.len() - 1].0@ != n);
        assert(declared(after) =~= declared(before).insert(n, after[i].1@));
    }
}

/// Lists that declare the same names with the same domains, index by
/// index, stand for the same map.
proof fn lemma_same_declarations(a: Seq<(Name, DecisionVariable)>, b: Seq<(Name, DecisionVariable)>)
    requires
        a.len() == b.len(),
        forall|i: int|
            0 <= i < a.len() ==> (#[trigger] a[i]).0@ == b[i].0@ && a[i].1@ == b[i].1@,
    ensures
        declared(a) == declared(b),
    decreases a.len(),
{
    if a.len() > 0 {
        lemma_same_declarations(a.drop_last(), b.drop_last());
        assert(a.last() == a[a.len() - 1]);
    }
}

impl Default for Model {
    fn default() -> (m: Model)
        ensures
            m@ == (ModelView { variables: Map::empty(), constraints: Seq::empty() }),
    {
        Model::new()
    }
}

impl Clone for Model {
    fn clone(&self) -> (m: Model)
        ensures
            m@ == self@,
    {
        self.with_constraints(clone_all(&self.constraints))
    }
}

impl Model {
    /// Whether every variable of this model is declared in `other` with
    /// the same domain.
    fn declared_alike_in(&self, other: &Model) -> (r: bool)
        ensures
            r <==> forall|n: NameView| #[trigger]
                self@.variables.contains_key(n) ==> other@.variables.contains_key(n)
                    && other@.variables[n] == self@.variables[n],
    {
        let mut k: usize = 0;
        while k < self.variables.len()
            invariant
                k <= self.variables.len(),
                forall|i: int|
                    0 <= i < k ==> other@.variables.contains_key(
                        (#[trigger] self.variables[i]).0@,
                    ) && other@.variables[self.variables[i].0@] == self@.variables[self.variables[i].0@],
            decreases self.variables.len() - k,
        {
            let name = &self.variables[k].0;
            let same = match (self.get_variable(name), other.get_variable(name)) {
                (Some(a), Some(b)) => *a == *b,
                _ => false,
            };
            if !same {
                proof {
                    lemma_declared(self.variables@, name@);
                    assert(self.variables@[k as int].0@ == name@);
                }
                return false;
            }
            k += 1;
        }
        proof {
            assert forall|n: NameView| #[trigger]
                self@.variables.contains_key(n) implies other@.variables.contains_key(n)
                && other@.variables[n] == self@.variables[n] by {
                lemma_declared(self.variables@, n);
                let i = choose|i: int|
                    0 <= i < self.variables.len() && (#[trigger] self.variables@[i]).0@ == n;
                assert(self.variables[i].0@ == n);
            }
        }
        true
    }
}

impl PartialEq for Model {
    fn eq(&self, other: &Self) -> (b: bool) {
        let same = self.declared_alike_in(other) && other.declared_alike_in(self) && all_equal(
            &self.constraints,
            &other.constraints,
        );
        proof {
            if same {
                assert(self@.variables =~= other@.variables);
            }
        }
        same
    }
}

impl vstd::std_specs::cmp::PartialEqSpecImpl for Model {
    open spec fn obeys_eq_spec() -> bool {
        true
    }

    open spec fn eq_spec(&self, other: &Self) -> bool {
        self@ == other@
    }
}

} // verus!
