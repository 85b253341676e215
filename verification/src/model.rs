//! Satisfying assignments.

use vstd::prelude::*;
use crate::lit::{Lit, VarType};
use crate::varmap::{id_of, lemma_id_of_range, SatVar, VarMap};

verus! {

/// The literal that is true of solver variable `i + 1` where `names` gives
/// its name and `values` its truth value.
pub open spec fn assigned<V>(names: Seq<Option<V>>, values: Seq<bool>, i: int) -> VarType<V> {
    match names[i] {
        Some(v) => VarType::Named(
            if values[i] {
                Lit::Pos(v)
            } else {
                Lit::Neg(v)
            },
        ),
        None => VarType::Unnamed(
            if values[i] {
                (i + 1) as i32
            } else {
                (-(i + 1)) as i32
            },
        ),
    }
}

/// The true literal of every solver variable, in the order of numbering.
pub open spec fn assignment<V>(names: Seq<Option<V>>, values: Seq<bool>) -> Seq<VarType<V>> {
    Seq::new(names.len(), |i: int| assigned(names, values, i))
}

/// The truth value of user variable `v`, if it has a solver number.
pub open spec fn value_of_var<V>(names: Seq<Option<V>>, values: Seq<bool>, v: V) -> Option<bool> {
    if id_of(names, v) != 0 {
        Some(values[id_of(names, v) - 1])
    } else {
        None
    }
}

/// The truth value of the user literal `lit`, if its variable has a solver
/// number.
pub open spec fn value_of_lit<V>(names: Seq<Option<V>>, values: Seq<bool>, lit: Lit<V>) -> Option<
    bool,
> {
    match value_of_var(names, values, lit.spec_var()) {
        Some(b) => Some(if lit is Pos {
            b
        } else {
            !b
        }),
        None => None,
    }
}

/// The truth value of solver literal `i`, if its variable is numbered.
pub open spec fn value_of_id(values: Seq<bool>, i: int) -> Option<bool> {
    let var = if i < 0 { -i } else { i };
    if 1 <= var <= values.len() {
        Some(if i > 0 {
            values[var - 1]
        } else {
            !values[var - 1]
        })
    } else {
        None
    }
}

/// One truth value for every solver variable of an encoding session.
pub struct Model<V> {
    varmap: VarMap<V>,
    values: Vec<bool>,
}

impl<V: SatVar> Model<V> {
    /// The table of variables that this model assigns.
    pub closed spec fn names(&self) -> Seq<Option<V>> {
        self.varmap@
    }

    /// The truth values, entry `i` for solver variable `i + 1`.
    pub closed spec fn values(&self) -> Seq<bool> {
        self.values@
    }

    /// A model assigns exactly the numbered variables.
    pub closed spec fn wf(&self) -> bool {
        self.varmap.wf() && self.values@.len() == self.varmap@.len()
    }

    /// The model that gives the variables of `varmap` the truth values
    /// `values`, in the order of numbering.
    pub fn from_values(varmap: &VarMap<V>, values: Vec<bool>) -> (m: Self)
        requires
            varmap.wf(),
            values@.len() == varmap@.len(),
        ensures
            m.wf(),
            m.names() == varmap@,
            m.values() == values@,
    {
        Model { varmap: varmap.snapshot(), values }
    }

    /// The true literal of every variable, named or not, in the order of
    /// numbering.
    pub fn all_vars(&self) -> (out: Vec<VarType<V>>)
        requires
            self.wf(),
        ensures
            out@ == assignment(self.names(), self.values()),
    {
        let n = self.values.len();
        let mut out: Vec<VarType<V>> = Vec::new();
        let mut i: usize = 0;
        proof {
            self.varmap.lemma_wf();
        }
        while i < n
            invariant
                i <= n,
                n == self.values@.len(),
                n < i32::MAX,
                self.wf(),
                out@ == assignment(self.names(), self.values()).take(i as int),
            decreases n - i,
        {
            let id: i32 = (i + 1) as i32;
            let b = self.values[i];
            let entry = match self.varmap.lookup(id) {
                Some(l) => VarType::Named(if b { Lit::Pos(l.unwrap()) } else { Lit::Neg(l.unwrap()) }),
                None => VarType::Unnamed(if b { id } else { -id }),
            };
            assert(entry == assigned(self.names(), self.values(), i as int));
            out.push(entry);
            assert(out@ =~= assignment(self.names(), self.values()).take(i as int + 1));
            i += 1;
        }
        assert(assignment(self.names(), self.values()).take(n as int) =~= assignment(
            self.names(),
            self.values(),
        ));
        out
    }

    /// The true literal of every user variable, in the order of numbering.
    pub fn vars(&self) -> (out: Vec<Lit<V>>)
        requires
            self.wf(),
        ensures
            out@ == named_part(assignment(self.names(), self.values())),
    {
        let all = self.all_vars();
        let mut out: Vec<Lit<V>> = Vec::new();
        let mut i: usize = 0;
        assert(all@.take(0) =~= Seq::<VarType<V>>::empty());
        proof {
            self.varmap.lemma_wf();
        }
        while i < all.len()
            invariant
                i <= all@.len(),
                crate::varmap::obeys_var_model::<V>(),
                out@ == named_part(all@.take(i as int)),
            decreases all@.len() - i,
        {
            proof {
                assert(all@.take(i as int + 1).drop_last() =~= all@.take(i as int));
            }
            match &all[i] {
                VarType::Named(l) => {
                    let c = VarMap::<V>::copy_lit(&all[i]);
                    match c {
                        VarType::Named(l2) => {
                            out.push(l2);
                        },
                        VarType::Unnamed(_) => {},
                    }
                },
                VarType::Unnamed(_) => {},
            }
            i += 1;
        }
        assert(all@.take(all@.len() as int) =~= all@);
        out
    }

    /// The truth value of user variable `v`, or `None` where it was never
    /// used.
    pub fn var(&self, v: V) -> (r: Option<bool>)
        requires
            self.wf(),
        ensures
            r == value_of_var(self.names(), self.values(), v),
    {
        proof {
            lemma_id_of_range(self.varmap@, v);
            self.varmap.lemma_wf();
        }
        match self.varmap.get_var(VarType::Named(Lit::Pos(v))) {
            Some(id) => Some(self.values[(id - 1) as usize]),
            None => None,
        }
    }

    /// The truth value of `lit`, or `None` where its variable was never
    /// used.
    pub fn lit(&self, lit: Lit<V>) -> (r: Option<bool>)
        requires
            self.wf(),
        ensures
            r == value_of_lit(self.names(), self.values(), lit),
    {
        let is_pos = lit.is_pos();
        match self.var(lit.unwrap()) {
            Some(b) => Some(if is_pos { b } else { !b }),
            None => None,
        }
    }

    /// The truth value of `lit`: that of a user literal whose variable was
    /// used, or of a solver literal whose variable is anonymous; else
    /// `None`.
    pub fn value_of(&self, lit: VarType<V>) -> (r: Option<bool>)
        requires
            self.wf(),
        ensures
            r == value_of_any(self.names(), self.values(), lit),
    {
        proof {
            self.varmap.lemma_wf();
        }
        match lit {
            VarType::Named(l) => self.lit(l),
            VarType::Unnamed(i) => {
                if i == 0 || i == i32::MIN {
                    return None;
                }
                let var: i32 = if i < 0 { -i } else { i };
                if var as usize > self.values.len() {
                    return None;
                }
                match self.varmap.lookup(var) {
                    Some(_) => None,
                    None => {
                        let b = self.values[(var - 1) as usize];
                        Some(if i > 0 { b } else { !b })
                    },
                }
            },
        }
    }

    /// The truth value of a literal that this model assigns.
    pub fn index(&self, lit: VarType<V>) -> (b: bool)
        requires
            self.wf(),
            value_of_any(self.names(), self.values(), lit) is Some,
        ensures
            Some(b) == value_of_any(self.names(), self.values(), lit),
    {
        match self.value_of(lit) {
            Some(b) => b,
            None => false,
        }
    }

    /// Whether `lit` is one of the true literals of this model.
    pub fn lit_internal(&self, lit: VarType<V>) -> (b: bool)
        requires
            self.wf(),
        ensures
            b == (value_of_any(self.names(), self.values(), lit) == Some(true)),
    {
        match self.value_of(lit) {
            Some(b) => b,
            None => false,
        }
    }
}

/// For each user variable among the first `i` solver variables, in the
/// order of numbering, its solver literal with the polarity it has in
/// `values`, or with the opposite one where `flip`.
pub open spec fn named_ids<V>(names: Seq<Option<V>>, values: Seq<bool>, flip: bool, i: int) -> Seq<
    int,
>
    decreases i,
{
    if i <= 0 {
        Seq::empty()
    } else {
        let rest = named_ids(names, values, flip, i - 1);
        if names[i - 1] is Some {
            rest.push(if values[i - 1] != flip {
                i
            } else {
                -i
            })
        } else {
            rest
        }
    }
}

impl<V: SatVar> Model<V> {
    /// The solver literals of the user variables as this model sets them;
    /// where `flip`, each with the opposite polarity, which makes the
    /// clause that rules this assignment out.
    pub fn named_literals(&self, flip: bool) -> (ids: Vec<i32>)
        requires
            self.wf(),
        ensures
            crate::backend::ints(ids@) == named_ids(
                self.names(),
                self.values(),
                flip,
                self.names().len() as int,
            ),
            crate::backend::all_literals(ids@),
    {
        let n = self.values.len();
        let mut ids: Vec<i32> = Vec::new();
        let mut i: usize = 0;
        proof {
            self.varmap.lemma_wf();
            assert(crate::backend::ints(ids@) =~= named_ids(self.names(), self.values(), flip, 0));
        }
        while i < n
            invariant
                i <= n,
                n == self.values@.len(),
                n < i32::MAX,
                self.wf(),
                crate::backend::all_literals(ids@),
                crate::backend::ints(ids@) == named_ids(
                    self.names(),
                    self.values(),
                    flip,
                    i as int,
                ),
            decreases n - i,
        {
            let id: i32 = (i + 1) as i32;
            if self.varmap.lookup(id).is_some() {
                let l: i32 = if self.values[i] != flip { id } else { -id };
                proof {
                    crate::backend::lemma_ints_push(ids@, l);
                }
                ids.push(l);
            }
            i += 1;
        }
        ids
    }
}

/// The truth value of any literal: that of a user literal whose variable
/// has a solver number, or of a solver literal whose variable is numbered
/// and anonymous.
pub open spec fn value_of_any<V>(names: Seq<Option<V>>, values: Seq<bool>, lit: VarType<V>) -> Option<
    bool,
> {
    match lit {
        VarType::Named(l) => value_of_lit(names, values, l),
        VarType::Unnamed(i) => if 1 <= unsigned(i as int) <= names.len() && names[unsigned(
            i as int,
        ) - 1] is None {
            value_of_id(values, i as int)
        } else {
            None
        },
    }
}

/// The variable of a signed solver literal.
pub open spec fn unsigned(i: int) -> int {
    if i < 0 {
        -i
    } else {
        i
    }
}

/// The user literals among `all`, in order.
pub open spec fn named_part<V>(all: Seq<VarType<V>>) -> Seq<Lit<V>>
    decreases all.len(),
{
    if all.len() == 0 {
        Seq::empty()
    } else {
        match all.last() {
            VarType::Named(l) => named_part(all.drop_last()).push(l),
            VarType::Unnamed(_) => named_part(all.drop_last()),
        }
    }
}

} // verus!
