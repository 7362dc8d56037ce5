//! The constraint analyzer: a recorder that a circuit is run against once,
//! collecting the witness and the sparse structure of its constraints, and
//! the grouping of that structure into a QAP.
use crate::field::{fr_one, le_value, Fr};
use crate::{SynthesisError, QAP};
use vstd::prelude::*;

verus! {

/// A wire of the circuit. `Public(0)` is the constant one.
#[derive(Clone, Copy, Debug, PartialEq, Eq, Structural)]
pub enum Variable {
    Public(usize),
    Private(usize),
}

/// A sparse linear combination of variables.
#[derive(Clone, Debug)]
pub struct LinearCombination {
    pub terms: Vec<(Variable, Fr)>,
}

impl LinearCombination {
    /// The empty combination.
    pub fn zero() -> (r: LinearCombination)
        ensures
            r.terms@.len() == 0,
    {
        LinearCombination { terms: Vec::new() }
    }

    /// This combination with the term `coeff · var` appended.
    pub fn add_term(self, var: Variable, coeff: Fr) -> (r: LinearCombination)
        ensures
            r.terms@ == self.terms@.push((var, coeff)),
    {
        let mut terms = self.terms;
        terms.push((var, coeff));
        LinearCombination { terms }
    }
}

/// A recorded occurrence: variable, coefficient, constraint index.
pub type Record = (Variable, Fr, usize);

/// The place of a variable in the augmented witness, public ones first.
pub open spec fn global_index(v: Variable, num_public: nat) -> nat {
    match v {
        Variable::Public(i) => i as nat,
        Variable::Private(i) => num_public + i as nat,
    }
}

/// The records of the nonzero terms of `terms` for constraint `j`, in order.
pub open spec fn records_of(terms: Seq<(Variable, Fr)>, j: usize) -> Seq<Record>
    decreases terms.len(),
{
    if terms.len() == 0 {
        Seq::empty()
    } else {
        let rest = records_of(terms.drop_last(), j);
        let (v, c) = terms.last();
        if c.val() != 0 {
            rest.push((v, c, j))
        } else {
            rest
        }
    }
}

/// The column of the variable at global index `g`: the (coefficient,
/// constraint) pairs of the records that name it, in recording order.
pub open spec fn column(recs: Seq<Record>, num_public: nat, g: nat) -> Seq<(Fr, usize)>
    decreases recs.len(),
{
    if recs.len() == 0 {
        Seq::empty()
    } else {
        let rest = column(recs.drop_last(), num_public, g);
        let (v, c, j) = recs.last();
        if global_index(v, num_public) == g {
            rest.push((c, j))
        } else {
            rest
        }
    }
}

/// The indices below `n` whose column is not empty, in increasing order.
pub open spec fn nonempty_columns(cols: Seq<Vec<(Fr, usize)>>, n: nat) -> Seq<usize>
    decreases n,
{
    if n == 0 {
        Seq::empty()
    } else {
        let rest = nonempty_columns(cols, (n - 1) as nat);
        if cols[n - 1]@.len() > 0 {
            rest.push((n - 1) as usize)
        } else {
            rest
        }
    }
}

/// Records a circuit: its variables, its witness values and its constraints.
#[derive(Debug)]
pub struct AnalyzeCircuit {
    input_assignment: Vec<Fr>,
    num_inputs: usize,
    aux_assignment: Vec<Fr>,
    num_aux: usize,
    num_constraints: usize,
    extract_assignments: bool,
    at: Vec<Record>,
    bt: Vec<Record>,
    ct: Vec<Record>,
}

/// A circuit: it allocates its variables and states its constraints on the
/// recorder it is given.
pub trait Circuit {
    fn synthesize(self, cs: &mut AnalyzeCircuit) -> Result<(), SynthesisError>;
}

impl AnalyzeCircuit {
    /// When values are kept there is one per allocated variable.
    #[verifier::type_invariant]
    spec fn values_match(self) -> bool {
        self.extract_assignments ==> self.input_assignment@.len() == self.num_inputs
            && self.aux_assignment@.len() == self.num_aux
    }

    pub closed spec fn spec_num_inputs(&self) -> nat {
        self.num_inputs as nat
    }

    pub closed spec fn spec_num_aux(&self) -> nat {
        self.num_aux as nat
    }

    pub closed spec fn spec_num_constraints(&self) -> nat {
        self.num_constraints as nat
    }

    pub closed spec fn spec_extracting(&self) -> bool {
        self.extract_assignments
    }

    /// Public values recorded so far, in allocation order.
    pub closed spec fn spec_inputs(&self) -> Seq<Fr> {
        self.input_assignment@
    }

    /// Private values recorded so far, in allocation order.
    pub closed spec fn spec_aux(&self) -> Seq<Fr> {
        self.aux_assignment@
    }

    /// Records of the A, B and C sides.
    pub closed spec fn spec_at(&self) -> Seq<Record> {
        self.at@
    }

    pub closed spec fn spec_bt(&self) -> Seq<Record> {
        self.bt@
    }

    pub closed spec fn spec_ct(&self) -> Seq<Record> {
        self.ct@
    }

    /// An empty recorder; with `extract_assignments` it keeps witness values.
    pub fn new(extract_assignments: bool) -> (r: AnalyzeCircuit)
        ensures
            r.spec_num_inputs() == 0,
            r.spec_num_aux() == 0,
            r.spec_num_constraints() == 0,
            r.spec_extracting() == extract_assignments,
            r.spec_inputs().len() == 0,
            r.spec_aux().len() == 0,
            r.spec_at().len() == 0,
            r.spec_bt().len() == 0,
            r.spec_ct().len() == 0,
    {
        AnalyzeCircuit {
            input_assignment: Vec::new(),
            num_inputs: 0,
            aux_assignment: Vec::new(),
            num_aux: 0,
            num_constraints: 0,
            extract_assignments,
            at: Vec::new(),
            bt: Vec::new(),
            ct: Vec::new(),
        }
    }

    /// (number of public variables, number of private variables).
    pub fn get_num_states(&self) -> (r: (usize, usize))
        ensures
            r.0 == self.spec_num_inputs(),
            r.1 == self.spec_num_aux(),
    {
        (self.num_inputs, self.num_aux)
    }

    /// Whether witness values are kept.
    pub fn extracting(&self) -> (r: bool)
        ensures
            r == self.spec_extracting(),
    {
        self.extract_assignments
    }

    pub fn num_constraints(&self) -> (r: usize)
        ensures
            r == self.spec_num_constraints(),
    {
        self.num_constraints
    }

    /// The recorded (public, private) values.
    pub fn get_assignments(&self) -> (r: (Vec<Fr>, Vec<Fr>))
        ensures
            r.0@ == self.spec_inputs(),
            r.1@ == self.spec_aux(),
    {
        (self.input_assignment.clone(), self.aux_assignment.clone())
    }

    /// The canonical little-endian encodings of the (public, private) values.
    pub fn to_bytes(&self) -> (r: (Vec<Vec<u8>>, Vec<Vec<u8>>))
        ensures
            r.0@.len() == self.spec_inputs().len(),
            r.1@.len() == self.spec_aux().len(),
            forall|i: int|
                #![trigger r.0@[i]]
                0 <= i < r.0@.len() ==> r.0@[i]@.len() == 32 && le_value(r.0@[i]@)
                    == self.spec_inputs()[i].val(),
            forall|i: int|
                #![trigger r.1@[i]]
                0 <= i < r.1@.len() ==> r.1@[i]@.len() == 32 && le_value(r.1@[i]@)
                    == self.spec_aux()[i].val(),
    {
        (encode_all(&self.input_assignment), encode_all(&self.aux_assignment))
    }

    /// Allocates the next private variable; when values are kept, `value`
    /// must be present.
    pub fn allocate_private(&mut self, value: Option<Fr>) -> (r: Result<Variable, SynthesisError>)
        requires
            old(self).spec_num_aux() < usize::MAX,
        ensures
            old(self).spec_extracting() && value is None ==> r == Err::<Variable, _>(
                SynthesisError::AssignmentMissing,
            ) && *final(self) == *old(self),
            !(old(self).spec_extracting() && value is None) ==> {
                &&& r == Ok::<_, SynthesisError>(Variable::Private(old(self).spec_num_aux() as usize))
                &&& final(self).spec_num_aux() == old(self).spec_num_aux() + 1
                &&& final(self).spec_aux() == if old(self).spec_extracting() {
                    old(self).spec_aux().push(value.unwrap())
                } else {
                    old(self).spec_aux()
                }
                &&& final(self).spec_num_inputs() == old(self).spec_num_inputs()
                &&& final(self).spec_inputs() == old(self).spec_inputs()
                &&& final(self).spec_num_constraints() == old(self).spec_num_constraints()
                &&& final(self).spec_extracting() == old(self).spec_extracting()
                &&& final(self).spec_at() == old(self).spec_at()
                &&& final(self).spec_bt() == old(self).spec_bt()
                &&& final(self).spec_ct() == old(self).spec_ct()
            },
    {
        if self.extract_assignments && value.is_none() {
            return Err(SynthesisError::AssignmentMissing);
        }
        let cs = self.take();
        proof {
            use_type_invariant(&cs);
        }
        let mut aux_assignment = cs.aux_assignment;
        if cs.extract_assignments {
            aux_assignment.push(value.unwrap());
        }
        *self = AnalyzeCircuit {
            input_assignment: cs.input_assignment,
            num_inputs: cs.num_inputs,
            aux_assignment,
            num_aux: cs.num_aux + 1,
            num_constraints: cs.num_constraints,
            extract_assignments: cs.extract_assignments,
            at: cs.at,
            bt: cs.bt,
            ct: cs.ct,
        };
        Ok(Variable::Private(cs.num_aux))
    }

    /// Allocates the next public variable; when values are kept, `value`
    /// must be present.
    pub fn allocate_public(&mut self, value: Option<Fr>) -> (r: Result<Variable, SynthesisError>)
        requires
            old(self).spec_num_inputs() < usize::MAX,
        ensures
            old(self).spec_extracting() && value is None ==> r == Err::<Variable, _>(
                SynthesisError::AssignmentMissing,
            ) && *final(self) == *old(self),
            !(old(self).spec_extracting() && value is None) ==> {
                &&& r == Ok::<_, SynthesisError>(Variable::Public(old(self).spec_num_inputs() as usize))
                &&& final(self).spec_num_inputs() == old(self).spec_num_inputs() + 1
                &&& final(self).spec_inputs() == if old(self).spec_extracting() {
                    old(self).spec_inputs().push(value.unwrap())
                } else {
                    old(self).spec_inputs()
                }
                &&& final(self).spec_num_aux() == old(self).spec_num_aux()
                &&& final(self).spec_aux() == old(self).spec_aux()
                &&& final(self).spec_num_constraints() == old(self).spec_num_constraints()
                &&& final(self).spec_extracting() == old(self).spec_extracting()
                &&& final(self).spec_at() == old(self).spec_at()
                &&& final(self).spec_bt() == old(self).spec_bt()
                &&& final(self).spec_ct() == old(self).spec_ct()
            },
    {
        if self.extract_assignments && value.is_none() {
            return Err(SynthesisError::AssignmentMissing);
        }
        let cs = self.take();
        proof {
            use_type_invariant(&cs);
        }
        let mut input_assignment = cs.input_assignment;
        if cs.extract_assignments {
            input_assignment.push(value.unwrap());
        }
        *self = AnalyzeCircuit {
            input_assignment,
            num_inputs: cs.num_inputs + 1,
            aux_assignment: cs.aux_assignment,
            num_aux: cs.num_aux,
            num_constraints: cs.num_constraints,
            extract_assignments: cs.extract_assignments,
            at: cs.at,
            bt: cs.bt,
            ct: cs.ct,
        };
        Ok(Variable::Public(cs.num_inputs))
    }

    /// Moves the state out, leaving an empty recorder behind.
    fn take(&mut self) -> (r: AnalyzeCircuit)
        ensures
            r == *old(self),
    {
        let mut cs = AnalyzeCircuit::new(false);
        std::mem::swap(self, &mut cs);
        cs
    }

    /// Records the constraint `(a·w)(b·w) = c·w`: one record per nonzero
    /// term of each side, under the next constraint index. Nothing is
    /// checked of the values.
    pub fn enforce(&mut self, a: &LinearCombination, b: &LinearCombination, c: &LinearCombination)
        requires
            old(self).spec_num_constraints() < usize::MAX,
        ensures
            final(self).spec_num_constraints() == old(self).spec_num_constraints() + 1,
            final(self).spec_at() == old(self).spec_at() + records_of(
                a.terms@,
                old(self).spec_num_constraints() as usize,
            ),
            final(self).spec_bt() == old(self).spec_bt() + records_of(
                b.terms@,
                old(self).spec_num_constraints() as usize,
            ),
            final(self).spec_ct() == old(self).spec_ct() + records_of(
                c.terms@,
                old(self).spec_num_constraints() as usize,
            ),
            final(self).spec_num_inputs() == old(self).spec_num_inputs(),
            final(self).spec_num_aux() == old(self).spec_num_aux(),
            final(self).spec_inputs() == old(self).spec_inputs(),
            final(self).spec_aux() == old(self).spec_aux(),
            final(self).spec_extracting() == old(self).spec_extracting(),
    {
        let cs = self.take();
        proof {
            use_type_invariant(&cs);
        }
        let mut at = cs.at;
        let mut bt = cs.bt;
        let mut ct = cs.ct;
        record_terms(&a.terms, &mut at, cs.num_constraints);
        record_terms(&b.terms, &mut bt, cs.num_constraints);
        record_terms(&c.terms, &mut ct, cs.num_constraints);
        *self = AnalyzeCircuit {
            input_assignment: cs.input_assignment,
            num_inputs: cs.num_inputs,
            aux_assignment: cs.aux_assignment,
            num_aux: cs.num_aux,
            num_constraints: cs.num_constraints + 1,
            extract_assignments: cs.extract_assignments,
            at,
            bt,
            ct,
        };
    }
}

impl AnalyzeCircuit {
    /// Appends one synthetic constraint per public variable, with that
    /// variable alone on its A side and empty B and C sides, so that every
    /// public input occurs in some column.
    pub fn add_input_constraints(&mut self)
        requires
            old(self).spec_num_constraints() + old(self).spec_num_inputs() <= usize::MAX,
        ensures
            final(self).spec_num_constraints() == old(self).spec_num_constraints()
                + old(self).spec_num_inputs(),
            final(self).spec_at().len() == old(self).spec_at().len() + old(self).spec_num_inputs(),
            final(self).spec_at().subrange(0, old(self).spec_at().len() as int) == old(
                self,
            ).spec_at(),
            forall|i: int|
                #![trigger final(self).spec_at()[old(self).spec_at().len() + i]]
                0 <= i < old(self).spec_num_inputs() ==> {
                    let rec = final(self).spec_at()[old(self).spec_at().len() + i];
                    &&& rec.0 == Variable::Public(i as usize)
                    &&& rec.1.val() == 1
                    &&& rec.2 == old(self).spec_num_constraints() + i
                },
            final(self).spec_bt() == old(self).spec_bt(),
            final(self).spec_ct() == old(self).spec_ct(),
            final(self).spec_num_inputs() == old(self).spec_num_inputs(),
            final(self).spec_num_aux() == old(self).spec_num_aux(),
            final(self).spec_inputs() == old(self).spec_inputs(),
            final(self).spec_aux() == old(self).spec_aux(),
            final(self).spec_extracting() == old(self).spec_extracting(),
    {
        let ghost start = *self;
        let n = self.num_inputs;
        let mut i: usize = 0;
        while i < n
            invariant
                n == start.spec_num_inputs(),
                i <= n,
                start.spec_num_constraints() + n <= usize::MAX,
                self.spec_num_constraints() == start.spec_num_constraints() + i,
                self.spec_at().len() == start.spec_at().len() + i,
                self.spec_at().subrange(0, start.spec_at().len() as int) == start.spec_at(),
                forall|k: int|
                    #![trigger self.spec_at()[start.spec_at().len() + k]]
                    0 <= k < i ==> {
                        let rec = self.spec_at()[start.spec_at().len() + k];
                        &&& rec.0 == Variable::Public(k as usize)
                        &&& rec.1.val() == 1
                        &&& rec.2 == start.spec_num_constraints() + k
                    },
                self.spec_bt() == start.spec_bt(),
                self.spec_ct() == start.spec_ct(),
                self.spec_num_inputs() == start.spec_num_inputs(),
                self.spec_num_aux() == start.spec_num_aux(),
                self.spec_inputs() == start.spec_inputs(),
                self.spec_aux() == start.spec_aux(),
                self.spec_extracting() == start.spec_extracting(),
            decreases n - i,
        {
            let one = fr_one();
            let a = LinearCombination::zero().add_term(Variable::Public(i), one);
            let b = LinearCombination::zero();
            let c = LinearCombination::zero();
            proof {
                let t = a.terms@;
                assert(t.drop_last() =~= Seq::<(Variable, Fr)>::empty());
                assert(t.last() == (Variable::Public(i), one));
                assert(records_of(t.drop_last(), self.num_constraints) =~= Seq::<Record>::empty());
                assert(records_of(t, self.num_constraints) =~= seq![
                    (Variable::Public(i), one, self.num_constraints),
                ]);
                assert(records_of(b.terms@, self.num_constraints) =~= Seq::<Record>::empty());
                assert(records_of(c.terms@, self.num_constraints) =~= Seq::<Record>::empty());
            }
            let ghost before = self.spec_at();
            self.enforce(&a, &b, &c);
            proof {
                assert(self.spec_at().subrange(0, start.spec_at().len() as int) =~= start.spec_at()) by {
                    assert(self.spec_at().subrange(0, before.len() as int) =~= before);
                }
                assert(self.spec_bt() =~= start.spec_bt());
                assert(self.spec_ct() =~= start.spec_ct());
            }
            i = i + 1;
        }
    }

    /// Groups the records into the QAP: for each of A, B and C the column of
    /// every variable (public ones first, then private ones), and for A and B
    /// the variables whose column is not empty, in increasing order.
    pub fn qap(self) -> (r: QAP)
        requires
            self.spec_num_inputs() + self.spec_num_aux() <= usize::MAX,
        ensures
            ({
                let p = self.spec_num_inputs();
                let n = p + self.spec_num_aux();
                &&& r.a@.len() == n
                &&& r.b@.len() == n
                &&& r.c@.len() == n
                &&& forall|g: int|
                    #![trigger r.a@[g]]
                    0 <= g < n ==> r.a@[g]@ == column(self.spec_at(), p, g as nat)
                &&& forall|g: int|
                    #![trigger r.b@[g]]
                    0 <= g < n ==> r.b@[g]@ == column(self.spec_bt(), p, g as nat)
                &&& forall|g: int|
                    #![trigger r.c@[g]]
                    0 <= g < n ==> r.c@[g]@ == column(self.spec_ct(), p, g as nat)
                &&& r.a_constraints@ == nonempty_columns(r.a@, n)
                &&& r.b_constraints@ == nonempty_columns(r.b@, n)
            }),
    {
        let n = self.num_inputs + self.num_aux;
        let (a, a_constraints) = collect(&self.at, self.num_inputs, n);
        let (b, b_constraints) = collect(&self.bt, self.num_inputs, n);
        let (c, _) = collect(&self.ct, self.num_inputs, n);
        QAP { a, b, c, a_constraints, b_constraints }
    }
}

/// The columns of `n` variables from the records, and the nonempty ones.
fn collect(recs: &Vec<Record>, p: usize, n: usize) -> (r: (Vec<Vec<(Fr, usize)>>, Vec<usize>))
    ensures
        r.0@.len() == n,
        forall|g: int| #![trigger r.0@[g]] 0 <= g < n ==> r.0@[g]@ == column(recs@, p as nat, g as nat),
        r.1@ == nonempty_columns(r.0@, n as nat),
{
    let mut cols: Vec<Vec<(Fr, usize)>> = Vec::new();
    while cols.len() < n
        invariant
            cols@.len() <= n,
            forall|g: int| #![trigger cols@[g]] 0 <= g < cols@.len() ==> cols@[g]@.len() == 0,
        decreases n - cols@.len(),
    {
        cols.push(Vec::new());
    }
    proof {
        assert forall|g: int| #![trigger cols@[g]] 0 <= g < n implies cols@[g]@ == column(
            recs@.subrange(0, 0),
            p as nat,
            g as nat,
        ) by {
            assert(cols@[g]@ =~= Seq::<(Fr, usize)>::empty());
        }
    }
    let mut i: usize = 0;
    while i < recs.len()
        invariant
            i <= recs@.len(),
            cols@.len() == n,
            forall|g: int|
                #![trigger cols@[g]]
                0 <= g < n ==> cols@[g]@ == column(recs@.subrange(0, i as int), p as nat, g as nat),
        decreases recs@.len() - i,
    {
        let (v, c, j) = recs[i];
        proof {
            assert(recs@.subrange(0, i + 1).drop_last() =~= recs@.subrange(0, i as int));
        }
        let in_range = match v {
            Variable::Public(k) => k < n,
            Variable::Private(k) => k < n && p < n - k,
        };
        if in_range {
            let g = match v {
                Variable::Public(k) => k,
                Variable::Private(k) => p + k,
            };
            let mut col: Vec<(Fr, usize)> = Vec::new();
            std::mem::swap(&mut col, &mut cols[g]);
            col.push((c, j));
            cols.set(g, col);
        }
        i = i + 1;
    }
    proof {
        assert(recs@.subrange(0, i as int) =~= recs@);
    }
    let mut nonempty: Vec<usize> = Vec::new();
    let mut g: usize = 0;
    while g < n
        invariant
            g <= n,
            cols@.len() == n,
            nonempty@ == nonempty_columns(cols@, g as nat),
        decreases n - g,
    {
        if cols[g].len() > 0 {
            nonempty.push(g);
        }
        g = g + 1;
    }
    (cols, nonempty)
}

/// The encodings of the values, in order.
fn encode_all(values: &Vec<Fr>) -> (r: Vec<Vec<u8>>)
    ensures
        r@.len() == values@.len(),
        forall|i: int|
            #![trigger r@[i]]
            0 <= i < r@.len() ==> r@[i]@.len() == 32 && le_value(r@[i]@) == values@[i].val(),
{
    let mut r: Vec<Vec<u8>> = Vec::new();
    let mut i: usize = 0;
    while i < values.len()
        invariant
            i <= values@.len(),
            r@.len() == i,
            forall|j: int|
                #![trigger r@[j]]
                0 <= j < i ==> r@[j]@.len() == 32 && le_value(r@[j]@) == values@[j].val(),
        decreases values@.len() - i,
    {
        let b = values[i].to_bytes();
        let mut v: Vec<u8> = Vec::new();
        let mut k: usize = 0;
        while k < 32
            invariant
                k <= 32,
                v@ == b@.subrange(0, k as int),
            decreases 32 - k,
        {
            v.push(b[k]);
            k = k + 1;
        }
        assert(v@ =~= b@);
        r.push(v);
        i = i + 1;
    }
    r
}

/// Appends the records of the nonzero terms for constraint `j`.
fn record_terms(terms: &Vec<(Variable, Fr)>, output: &mut Vec<Record>, j: usize)
    ensures
        final(output)@ == old(output)@ + records_of(terms@, j),
{
    let ghost start = output@;
    let mut i: usize = 0;
    while i < terms.len()
        invariant
            i <= terms@.len(),
            output@ == start + records_of(terms@.subrange(0, i as int), j),
        decreases terms@.len() - i,
    {
        let (v, c) = terms[i];
        proof {
            assert(terms@.subrange(0, i + 1).drop_last() =~= terms@.subrange(0, i as int));
        }
        if !c.is_zero() {
            output.push((v, c, j));
        }
        i = i + 1;
    }
    proof {
        assert(terms@.subrange(0, i as int) =~= terms@);
    }
}

/// The last `spec_num_inputs()` records of the A side are the synthetic
/// constraints: public variable `i` with coefficient one, under constraint
/// `spec_num_constraints() - spec_num_inputs() + i`.
pub open spec fn ends_with_input_constraints(c: AnalyzeCircuit) -> bool {
    let p = c.spec_num_inputs();
    let k = c.spec_at().len();
    &&& p >= 1
    &&& c.spec_num_constraints() >= p
    &&& k >= p
    &&& forall|i: int|
        #![trigger c.spec_at()[k - p + i]]
        0 <= i < p ==> {
            &&& c.spec_at()[k - p + i].0 == Variable::Public(i as usize)
            &&& c.spec_at()[k - p + i].1.val() == 1
            &&& c.spec_at()[k - p + i].2 == c.spec_num_constraints() - p + i
        }
}

/// The A column of each of the first `p` variables ends with coefficient
/// one under constraint `nc - p + g`.
pub open spec fn input_columns_end(q: QAP, p: int, nc: int) -> bool {
    &&& 1 <= p <= q.a@.len()
    &&& p <= nc
    &&& forall|g: int|
        #![trigger q.a@[g]]
        0 <= g < p ==> {
            &&& q.a@[g]@.len() > 0
            &&& q.a@[g]@.last().0.val() == 1
            &&& q.a@[g]@.last().1 == nc - p + g
        }
}

/// Completes an analysis after the circuit has run: one synthetic
/// constraint per public variable, or `TooManyConstraints` when there is no
/// public variable or the constraint count would not fit.
pub fn finish_analysis(cs: AnalyzeCircuit) -> (r: Result<AnalyzeCircuit, SynthesisError>)
    ensures
        r == Err::<AnalyzeCircuit, _>(SynthesisError::TooManyConstraints) <==> cs.spec_num_inputs()
            == 0 || cs.spec_num_constraints() + cs.spec_num_inputs() > usize::MAX,
        r is Err ==> r == Err::<AnalyzeCircuit, _>(SynthesisError::TooManyConstraints),
        r is Ok ==> {
            let c = r.unwrap();
            &&& c.spec_num_constraints() == cs.spec_num_constraints() + cs.spec_num_inputs()
            &&& c.spec_at().len() == cs.spec_at().len() + cs.spec_num_inputs()
            &&& c.spec_at().subrange(0, cs.spec_at().len() as int) == cs.spec_at()
            &&& c.spec_bt() == cs.spec_bt()
            &&& c.spec_ct() == cs.spec_ct()
            &&& c.spec_num_inputs() == cs.spec_num_inputs()
            &&& c.spec_num_aux() == cs.spec_num_aux()
            &&& c.spec_inputs() == cs.spec_inputs()
            &&& c.spec_aux() == cs.spec_aux()
            &&& c.spec_extracting() == cs.spec_extracting()
            &&& ends_with_input_constraints(c)
        },
{
    if cs.num_inputs == 0 || cs.num_constraints > usize::MAX - cs.num_inputs {
        return Err(SynthesisError::TooManyConstraints);
    }
    let mut cs = cs;
    let ghost before = cs;
    cs.add_input_constraints();
    proof {
        let p = cs.spec_num_inputs();
        let k = cs.spec_at().len();
        assert(k - p == before.spec_at().len());
    }
    Ok(cs)
}

/// Runs `circuit` once against a recorder that keeps the witness values,
/// then adds one synthetic constraint per public variable. The constant one
/// is allocated first, as public variable 0. A circuit that swaps in a
/// recorder which keeps no values gets `AssignmentMissing`.
pub fn extract_assignments<C: Circuit>(circuit: C) -> (r: Result<AnalyzeCircuit, SynthesisError>)
    ensures
        r is Ok ==> {
            let c = r.unwrap();
            &&& ends_with_input_constraints(c)
            &&& c.spec_extracting()
            &&& c.spec_inputs().len() == c.spec_num_inputs()
            &&& c.spec_aux().len() == c.spec_num_aux()
        },
{
    let cs = synthesized(circuit, true)?;
    if !cs.extract_assignments {
        return Err(SynthesisError::AssignmentMissing);
    }
    let cs = finish_analysis(cs)?;
    proof {
        use_type_invariant(&cs);
    }
    Ok(cs)
}

/// Runs `circuit` once for its structure alone and returns its QAP, with
/// the synthetic constraints of the public variables.
pub fn extract_circuit<C: Circuit>(circuit: C) -> (r: Result<QAP, SynthesisError>)
    ensures
        r is Ok ==> {
            let q = r.unwrap();
            &&& q.a@.len() >= 1
            &&& q.b@.len() == q.a@.len()
            &&& q.c@.len() == q.a@.len()
            &&& exists|p: int, nc: int| #[trigger] input_columns_end(q, p, nc)
        },
{
    let cs = synthesized(circuit, false)?;
    let cs = finish_analysis(cs)?;
    if cs.num_inputs > usize::MAX - cs.num_aux {
        return Err(SynthesisError::TooManyConstraints);
    }
    let ghost p = cs.spec_num_inputs();
    let ghost nc = cs.spec_num_constraints();
    let ghost at = cs.spec_at();
    let q = cs.qap();
    proof {
        let k = at.len();
        assert forall|g: int| 0 <= g < p implies #[trigger] q.a@[g]@.len() > 0 && q.a@[g]@.last().0.val()
            == 1 && q.a@[g]@.last().1 == nc - p + g by {
            let pos = k - p + g;
            assert(at[pos].0 == Variable::Public(g as usize));
            assert forall|t: int| pos < t < at.len() implies global_index(#[trigger] at[t].0, p) != g by {
                let i = t - (k - p);
                assert(at[k - p + i].0 == Variable::Public(i as usize));
            }
            lemma_column_ends_with(at, p, g as nat, pos);
        }
        assert(input_columns_end(q, p as int, nc as int));
    }
    Ok(q)
}

/// The column of `g` ends with the record at `pos` when no later record
/// names `g`.
proof fn lemma_column_ends_with(recs: Seq<Record>, p: nat, g: nat, pos: int)
    requires
        0 <= pos < recs.len(),
        global_index(recs[pos].0, p) == g,
        forall|t: int| pos < t < recs.len() ==> global_index(#[trigger] recs[t].0, p) != g,
    ensures
        column(recs, p, g).len() > 0,
        column(recs, p, g).last() == (recs[pos].1, recs[pos].2),
    decreases recs.len(),
{
    if pos < recs.len() - 1 {
        let rest = recs.drop_last();
        assert forall|t: int| pos < t < rest.len() implies global_index(#[trigger] rest[t].0, p) != g by {
            assert(rest[t] == recs[t]);
        }
        assert(global_index(recs[recs.len() - 1].0, p) != g);
        lemma_column_ends_with(rest, p, g, pos);
    }
}

/// A fresh recorder with the constant one as public variable 0, after the
/// circuit has run on it.
fn synthesized<C: Circuit>(circuit: C, extract: bool) -> (r: Result<AnalyzeCircuit, SynthesisError>)
{
    let mut cs = AnalyzeCircuit::new(extract);
    let one = fr_one();
    cs.allocate_public(Some(one))?;
    circuit.synthesize(&mut cs)?;
    Ok(cs)
}

} // verus!
